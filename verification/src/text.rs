//! Character-level helpers: decimal numbers, colon-separated fields and
//! the conversion between strings and character vectors.
use vstd::prelude::*;

verus! {

/// The value of a decimal digit character, if it is one.
pub open spec fn digit_value(c: char) -> Option<nat> {
    match c {
        '0' => Some(0),
        '1' => Some(1),
        '2' => Some(2),
        '3' => Some(3),
        '4' => Some(4),
        '5' => Some(5),
        '6' => Some(6),
        '7' => Some(7),
        '8' => Some(8),
        '9' => Some(9),
        _ => None,
    }
}

/// The character of a decimal digit `d < 10`.
pub open spec fn digit_char(d: nat) -> char {
    if d == 0 {
        '0'
    } else if d == 1 {
        '1'
    } else if d == 2 {
        '2'
    } else if d == 3 {
        '3'
    } else if d == 4 {
        '4'
    } else if d == 5 {
        '5'
    } else if d == 6 {
        '6'
    } else if d == 7 {
        '7'
    } else if d == 8 {
        '8'
    } else {
        '9'
    }
}

/// Every character of `s` is a decimal digit.
pub open spec fn all_digits(s: Seq<char>) -> bool {
    forall|i: int| 0 <= i < s.len() ==> (#[trigger] digit_value(s[i])) is Some
}

/// The number written by the digits `s` (most significant first).
pub open spec fn digits_value(s: Seq<char>) -> nat
    decreases s.len(),
{
    if s.len() == 0 {
        0
    } else {
        digits_value(s.drop_last()) * 10 + digit_value(s.last()).unwrap_or(0)
    }
}

/// The digits of an unsigned number as `str::parse::<usize>` reads them:
/// one optional leading `+` is skipped.
pub open spec fn unsigned_digits(s: Seq<char>) -> Seq<char> {
    if s.len() > 0 && s[0] == '+' {
        s.drop_first()
    } else {
        s
    }
}

/// `s` is accepted by `str::parse::<usize>`: an optional `+`, at least one
/// decimal digit, and a value that fits in a `usize`.
pub open spec fn parses_usize(s: Seq<char>) -> bool {
    let d = unsigned_digits(s);
    &&& d.len() > 0
    &&& all_digits(d)
    &&& digits_value(d) <= usize::MAX
}

/// The number that `str::parse::<usize>` reads from `s`.
pub open spec fn usize_value(s: Seq<char>) -> nat {
    digits_value(unsigned_digits(s))
}

/// The decimal representation of `n`, without leading zeros.
pub open spec fn decimal(n: nat) -> Seq<char>
    decreases n,
{
    if n < 10 {
        seq![digit_char(n)]
    } else {
        decimal(n / 10).push(digit_char(n % 10))
    }
}

/// The index of the first `:` in `s` at or after `from`, or `s.len()`.
pub open spec fn colon_from(s: Seq<char>, from: int) -> int
    decreases s.len() - from,
{
    if from >= s.len() {
        s.len() as int
    } else if s[from] == ':' {
        from
    } else {
        colon_from(s, from + 1)
    }
}

/// `s` holds at least one `:`.
pub open spec fn has_colon(s: Seq<char>) -> bool {
    colon_from(s, 0) < s.len()
}

/// The first `:`-separated field of `s`.
pub open spec fn field0(s: Seq<char>) -> Seq<char> {
    s.subrange(0, colon_from(s, 0))
}

/// The second `:`-separated field of `s` (meaningful when `s` holds a `:`).
pub open spec fn field1(s: Seq<char>) -> Seq<char> {
    let c = colon_from(s, 0);
    s.subrange(c + 1, colon_from(s, c + 1))
}

pub proof fn lemma_colon_from(s: Seq<char>, from: int)
    requires
        0 <= from <= s.len(),
    ensures
        from <= colon_from(s, from) <= s.len(),
        forall|i: int| from <= i < colon_from(s, from) ==> s[i] != ':',
        colon_from(s, from) < s.len() ==> s[colon_from(s, from)] == ':',
    decreases s.len() - from,
{
    if from < s.len() && s[from] != ':' {
        lemma_colon_from(s, from + 1);
    }
}

/// Digit prefixes never exceed the number of the whole digit string.
pub proof fn lemma_digits_value_prefix(s: Seq<char>, i: int)
    requires
        0 <= i <= s.len(),
    ensures
        digits_value(s.subrange(0, i)) <= digits_value(s),
    decreases s.len() - i,
{
    if i < s.len() {
        lemma_digits_value_prefix(s, i + 1);
        assert(s.subrange(0, i + 1).drop_last() =~= s.subrange(0, i));
    } else {
        assert(s.subrange(0, i) =~= s);
    }
}

/// A leading zero does not change the number.
pub proof fn lemma_digits_value_leading_zero(s: Seq<char>)
    ensures
        digits_value(seq!['0'] + s) == digits_value(s),
    decreases s.len(),
{
    if s.len() > 0 {
        lemma_digits_value_leading_zero(s.drop_last());
        assert((seq!['0'] + s).drop_last() =~= seq!['0'] + s.drop_last());
    } else {
        assert((seq!['0'] + s).drop_last() =~= s);
    }
}

/// `digit_char` and `digit_value` are inverse on `0..10`.
pub proof fn lemma_digit_char(d: nat)
    requires
        d < 10,
    ensures
        digit_value(digit_char(d)) == Some(d),
        digit_char(d) != '+',
        digit_char(d) != ':',
{
}

/// `decimal(n)` is a digit string that reads back as `n`.
pub proof fn lemma_decimal(n: nat)
    ensures
        decimal(n).len() > 0,
        all_digits(decimal(n)),
        digits_value(decimal(n)) == n,
        decimal(n)[0] != '+',
        n < 10 <==> decimal(n).len() == 1,
        forall|i: int| 0 <= i < decimal(n).len() ==> decimal(n)[i] != ':',
    decreases n,
{
    lemma_digit_char(n % 10);
    if n < 10 {
        assert(decimal(n).drop_last() =~= Seq::<char>::empty());
        assert(decimal(n).last() == digit_char(n));
        assert(digits_value(Seq::<char>::empty()) == 0);
        assert(digits_value(decimal(n)) == n);
    }
    if n >= 10 {
        lemma_decimal(n / 10);
        let d = decimal(n / 10);
        assert(decimal(n).drop_last() =~= d);
        assert(decimal(n).last() == digit_char(n % 10));
        assert(digits_value(decimal(n)) == digits_value(d) * 10 + n % 10);
        assert((n / 10) * 10 + n % 10 == n);
        assert forall|i: int| 0 <= i < decimal(n).len() implies (#[trigger] digit_value(
            decimal(n)[i],
        )) is Some by {
            if i < d.len() {
                assert(decimal(n)[i] == d[i]);
            }
        }
    }
}

/// Converts a digit `d < 10` into its character.
pub fn digit_to_char(d: usize) -> (c: char)
    requires
        d < 10,
    ensures
        c == digit_char(d as nat),
        digit_value(c) == Some(d as nat),
{
    match d {
        0 => '0',
        1 => '1',
        2 => '2',
        3 => '3',
        4 => '4',
        5 => '5',
        6 => '6',
        7 => '7',
        8 => '8',
        _ => '9',
    }
}

/// The value of a digit character, if it is one.
pub fn char_to_digit(c: char) -> (d: Option<usize>)
    ensures
        match d {
            Some(v) => digit_value(c) == Some(v as nat) && v < 10,
            None => digit_value(c) is None,
        },
{
    match c {
        '0' => Some(0),
        '1' => Some(1),
        '2' => Some(2),
        '3' => Some(3),
        '4' => Some(4),
        '5' => Some(5),
        '6' => Some(6),
        '7' => Some(7),
        '8' => Some(8),
        '9' => Some(9),
        _ => None,
    }
}

/// Appends the decimal representation of `n` to `out`.
pub fn push_decimal(out: &mut Vec<char>, n: usize)
    ensures
        final(out)@ == old(out)@ + decimal(n as nat),
    decreases n,
{
    if n < 10 {
        out.push(digit_to_char(n));
    } else {
        push_decimal(out, n / 10);
        out.push(digit_to_char(n % 10));
        assert(old(out)@ + decimal(n as nat) =~= (old(out)@ + decimal((n / 10) as nat)).push(
            digit_char((n % 10) as nat),
        ));
    }
}

/// Index of the first `:` in `s` at or after `from`, or `s.len()`.
pub fn find_colon(s: &Vec<char>, from: usize) -> (res: usize)
    requires
        from <= s@.len(),
    ensures
        res == colon_from(s@, from as int),
{
    let mut i = from;
    while i < s.len()
        invariant
            from <= i <= s@.len(),
            colon_from(s@, from as int) == colon_from(s@, i as int),
        decreases s@.len() - i,
    {
        if s[i] == ':' {
            return i;
        }
        i = i + 1;
    }
    i
}

/// Reads the number in `s[lo..hi]` as `str::parse::<usize>` does.
pub fn parse_usize(s: &Vec<char>, lo: usize, hi: usize) -> (res: usize)
    requires
        lo <= hi <= s@.len(),
        parses_usize(s@.subrange(lo as int, hi as int)),
    ensures
        res == usize_value(s@.subrange(lo as int, hi as int)),
{
    let ghost field = s@.subrange(lo as int, hi as int);
    let mut start = lo;
    if lo < hi && s[lo] == '+' {
        start = lo + 1;
    }
    let ghost digits = s@.subrange(start as int, hi as int);
    assert(digits =~= unsigned_digits(field));
    let mut value: usize = 0;
    let mut i = start;
    while i < hi
        invariant
            lo <= start <= i <= hi <= s@.len(),
            digits == s@.subrange(start as int, hi as int),
            all_digits(digits),
            digits_value(digits) <= usize::MAX,
            value == digits_value(digits.subrange(0, i - start)),
        decreases hi - i,
    {
        let ghost k = i - start;
        assert(digit_value(digits[k]) is Some);
        assert(digits[k] == s@[i as int]);
        let d = char_to_digit(s[i]);
        let dv = d.unwrap();
        assert(digits.subrange(0, k + 1).drop_last() =~= digits.subrange(0, k));
        assert(digits.subrange(0, k + 1).last() == digits[k]);
        proof {
            lemma_digits_value_prefix(digits, k + 1);
        }
        value = value * 10 + dv;
        i = i + 1;
    }
    assert(digits.subrange(0, hi - start) =~= digits);
    value
}

/// The characters of `s`, in order.
pub fn chars_of(s: &str) -> (res: Vec<char>)
    ensures
        res@ == s@,
{
    let mut res: Vec<char> = Vec::new();
    for c in it: s.chars()
        invariant
            res@ == it.seq().take(it.index() as int),
    {
        res.push(c);
    }
    res
}

/// The string made of the characters of `v`, in order.
///
/// Trusted: calls std's `FromIterator<&char> for String` (through
/// `Iterator::collect`), which the std documentation describes as
/// concatenating the characters in iteration order.
#[verifier::external_body]
pub(crate) fn string_of(v: &Vec<char>) -> (res: String)
    ensures
        res@ == v@,
{
    v.iter().collect()
}

} // verus!
