//! Time points, durations and periods on a grid of fixed steps, and the
//! day plan (`Zeitmanager`) that maps clock times to grid positions.
use vstd::prelude::*;
use crate::text::{
    chars_of, colon_from, decimal, field0, field1, has_colon,
    lemma_colon_from, lemma_decimal, lemma_digits_value_leading_zero, parse_usize,
    parses_usize, push_decimal, string_of, unsigned_digits, usize_value, find_colon,
};

verus! {

/// Upper bound on the number of grid positions of a day plan: four
/// positions or durations always add up without overflow, whatever the
/// width of `usize`.
pub const SLOT_LIMIT: usize = 0x3fff_ffff;

/// A duration, counted in grid steps.
#[derive(Debug, Copy, Clone, PartialOrd, PartialEq, Ord, Eq, Structural)]
pub struct Zeitdauer(pub usize);

impl Zeitdauer {
    /// The sum of two durations.
    pub fn add_dauer(&self, other: Zeitdauer) -> (res: Zeitdauer)
        requires
            self.0 + other.0 <= usize::MAX,
        ensures
            res.0 == self.0 + other.0,
    {
        Zeitdauer(self.0 + other.0)
    }
}

/// A time point: a position on the grid of the day plan.
#[derive(Copy, Clone, Debug, Ord, PartialOrd, Eq, PartialEq, Structural)]
pub struct Zeitpunkt(pub usize);

impl Zeitpunkt {
    /// The point `d` steps later.
    pub fn add_dauer(&self, d: &Zeitdauer) -> (res: Zeitpunkt)
        requires
            self.0 + d.0 <= usize::MAX,
        ensures
            res.0 == self.0 + d.0,
    {
        Zeitpunkt(self.0 + d.0)
    }
}

/// A period: a start point and a duration. It covers the closed range
/// from its start to its end point.
#[derive(Debug, Copy, Clone)]
pub struct Zeitraum(pub Zeitpunkt, pub Zeitdauer);

impl Zeitraum {
    /// First grid position of the period.
    pub open spec fn begin(self) -> int {
        self.0.0 as int
    }

    /// Last grid position of the period (start plus duration).
    pub open spec fn finish(self) -> int {
        self.0.0 + self.1.0
    }

    /// The end point is a `usize`.
    pub open spec fn fits(self) -> bool {
        self.0.0 + self.1.0 <= usize::MAX
    }

    /// `p` lies in the closed range of the period.
    pub open spec fn covers(self, p: int) -> bool {
        self.begin() <= p <= self.finish()
    }

    /// The closed ranges of the two periods intersect.
    pub open spec fn meets(self, other: Zeitraum) -> bool {
        self.begin() <= other.finish() && other.begin() <= self.finish()
    }

    pub fn new(punkt: Zeitpunkt, dauer: Zeitdauer) -> (res: Zeitraum)
        ensures
            res.0 == punkt,
            res.1 == dauer,
    {
        Zeitraum(punkt, dauer)
    }

    /// The period from `start` to `end`.
    pub fn new_punkte(start: Zeitpunkt, end: Zeitpunkt) -> (res: Zeitraum)
        requires
            start.0 <= end.0,
        ensures
            res.0 == start,
            res.1.0 == end.0 - start.0,
    {
        Zeitraum(start, Zeitdauer(end.0 - start.0))
    }

    /// `punkt` lies in the closed range of the period.
    pub fn inside(&self, punkt: Zeitpunkt) -> (res: bool)
        requires
            self.fits(),
        ensures
            res == self.covers(punkt.0 as int),
    {
        punkt.0 >= self.0.0 && punkt.0 <= self.0.0 + self.1.0
    }

    /// The two periods share at least one point.
    pub fn overlapping(&self, other: &Zeitraum) -> (res: bool)
        requires
            self.fits(),
            other.fits(),
        ensures
            res == self.meets(*other),
    {
        self.inside(other.0) || self.inside(other.0.add_dauer(&other.1)) || other.inside(self.0)
            || other.inside(self.0.add_dauer(&self.1))
    }

    /// The same start with a duration longer by `other`.
    pub fn add_dauer(&self, other: &Zeitdauer) -> (res: Zeitraum)
        requires
            self.1.0 + other.0 <= usize::MAX,
        ensures
            res.0 == self.0,
            res.1.0 == self.1.0 + other.0,
    {
        Zeitraum(self.0, self.1.add_dauer(*other))
    }
}

/// Two periods overlap exactly when some grid position lies in both.
pub proof fn lemma_meets_iff_common_point(a: Zeitraum, b: Zeitraum)
    ensures
        a.meets(b) <==> exists|p: int| a.covers(p) && b.covers(p),
{
    if a.meets(b) {
        let p = if a.begin() <= b.begin() {
            b.begin()
        } else {
            a.begin()
        };
        assert(a.covers(p) && b.covers(p));
    }
}

/// Overlap of periods does not depend on the order of the two.
pub proof fn lemma_meets_symmetric(a: Zeitraum, b: Zeitraum)
    ensures
        a.meets(b) == b.meets(a),
{
}

/// The (hour, minute) pair that a clock string names before normalisation:
/// a string without `:` is a number of minutes.
pub open spec fn raw_time(s: Seq<char>) -> (nat, nat) {
    if has_colon(s) {
        (usize_value(field0(s)), usize_value(field1(s)))
    } else {
        (0, usize_value(field0(s)))
    }
}

/// The fields that `raw_time` reads are numbers.
pub open spec fn time_fields_parse(s: Seq<char>) -> bool {
    if has_colon(s) {
        parses_usize(field0(s)) && parses_usize(field1(s))
    } else {
        parses_usize(field0(s))
    }
}

/// Carries whole hours out of the minutes. An hour below 24 wraps around
/// midnight; a larger hour is only counted up.
pub open spec fn normalize(h: nat, m: nat) -> (nat, nat) {
    if h < 24 {
        ((h + m / 60) % 24, m % 60)
    } else {
        (h + m / 60, m % 60)
    }
}

/// Normalising `(h, m)` counts the hour up without leaving `usize`.
pub open spec fn pair_fits(h: nat, m: nat) -> bool {
    h >= 24 ==> h + m / 60 <= usize::MAX
}

/// `s` is a clock string that `to_time` accepts.
pub open spec fn time_ok(s: Seq<char>) -> bool {
    time_fields_parse(s) && pair_fits(raw_time(s).0, raw_time(s).1)
}

/// The normalised (hour, minute) pair of a clock string.
pub open spec fn clock(s: Seq<char>) -> (nat, nat) {
    normalize(raw_time(s).0, raw_time(s).1)
}

/// A number with at least two digits, padded with a leading zero.
pub open spec fn pad2(n: nat) -> Seq<char> {
    if n < 10 {
        seq!['0'] + decimal(n)
    } else {
        decimal(n)
    }
}

/// The text `HH:MM` of an (hour, minute) pair.
pub open spec fn time_text(t: (nat, nat)) -> Seq<char> {
    pad2(t.0) + seq![':'] + pad2(t.1)
}

/// One step of `step` minutes from the pair `t`.
pub open spec fn advance(t: (nat, nat), step: nat) -> (nat, nat) {
    normalize(t.0, t.1 + step)
}

/// The pair reached from `t` after `k` steps of `step` minutes.
pub open spec fn walk(t: (nat, nat), step: nat, k: nat) -> (nat, nat)
    decreases k,
{
    if k == 0 {
        t
    } else {
        advance(walk(t, step, (k - 1) as nat), step)
    }
}

/// The clock string `s` accepted by `next_time` with `step`.
pub open spec fn next_ok(s: Seq<char>, step: nat) -> bool {
    &&& time_fields_parse(s)
    &&& raw_time(s).1 + step <= usize::MAX
    &&& pair_fits(raw_time(s).0, raw_time(s).1 + step)
}

/// Exact precondition of `time_equal`: the fields that it reads are numbers
/// (the second comparison is made only when the first one holds).
pub open spec fn time_equal_ok(a: Seq<char>, b: Seq<char>) -> bool {
    if !has_colon(a) {
        if !has_colon(b) {
            parses_usize(field0(a)) && parses_usize(field0(b))
        } else {
            &&& parses_usize(field0(a))
            &&& parses_usize(field1(b))
            &&& usize_value(field0(a)) == usize_value(field1(b)) ==> parses_usize(field0(b))
        }
    } else {
        if !has_colon(b) {
            &&& parses_usize(field1(a))
            &&& parses_usize(field0(b))
            &&& usize_value(field1(a)) == usize_value(field0(b)) ==> parses_usize(field0(a))
        } else {
            &&& parses_usize(field0(a))
            &&& parses_usize(field0(b))
            &&& usize_value(field0(a)) == usize_value(field0(b)) ==> parses_usize(field1(a))
                && parses_usize(field1(b))
        }
    }
}

/// `pad2(n)` is a digit string that reads back as `n`.
pub proof fn lemma_pad2(n: nat)
    requires
        n <= usize::MAX,
    ensures
        pad2(n).len() >= 2,
        parses_usize(pad2(n)),
        usize_value(pad2(n)) == n,
        forall|i: int| 0 <= i < pad2(n).len() ==> pad2(n)[i] != ':',
{
    lemma_decimal(n);
    let p = pad2(n);
    if n < 10 {
        lemma_digits_value_leading_zero(decimal(n));
        assert(p[0] == '0');
        assert forall|i: int| 0 <= i < p.len() implies (#[trigger] crate::text::digit_value(
            p[i],
        )) is Some by {
            if i > 0 {
                assert(p[i] == decimal(n)[i - 1]);
            }
        }
        assert forall|i: int| 0 <= i < p.len() implies p[i] != ':' by {
            if i > 0 {
                assert(p[i] == decimal(n)[i - 1]);
            }
        }
    } else {
        assert(decimal(n).len() != 1);
    }
    assert(unsigned_digits(p) == p);
}

/// The fields of `time_text(t)` are the two padded numbers.
pub proof fn lemma_time_text(t: (nat, nat))
    requires
        t.0 <= usize::MAX,
        t.1 <= usize::MAX,
    ensures
        has_colon(time_text(t)),
        field0(time_text(t)) == pad2(t.0),
        field1(time_text(t)) == pad2(t.1),
        time_fields_parse(time_text(t)),
        raw_time(time_text(t)) == t,
{
    lemma_pad2(t.0);
    lemma_pad2(t.1);
    let s = time_text(t);
    let a = pad2(t.0);
    let b = pad2(t.1);
    let c = a.len() as int;
    assert(s[c] == ':');
    assert(forall|i: int| 0 <= i < c ==> s[i] == a[i]);
    assert(forall|i: int| c + 1 <= i < s.len() ==> s[i] == b[i - c - 1]);
    lemma_colon_from(s, 0);
    lemma_colon_from(s, c + 1);
    let c0 = colon_from(s, 0);
    if c0 < c {
        assert(s[c0] == a[c0]);
    }
    assert(c0 == c);
    let c1 = colon_from(s, c + 1);
    if c1 < s.len() {
        assert(s[c1] == b[c1 - c - 1]);
    }
    assert(c1 == s.len());
    assert(field0(s) =~= a);
    assert(field1(s) =~= b);
}

/// Clock texts of pairs that fit in `usize` can be compared by `time_equal`.
pub proof fn lemma_time_equal_ok(a: (nat, nat), b: (nat, nat))
    requires
        a.0 <= usize::MAX,
        a.1 <= usize::MAX,
        b.0 <= usize::MAX,
        b.1 <= usize::MAX,
    ensures
        time_equal_ok(time_text(a), time_text(b)),
        raw_time(time_text(a)) == a,
        raw_time(time_text(b)) == b,
{
    lemma_time_text(a);
    lemma_time_text(b);
}

/// Normalised minutes are below 60; a normalised hour below 24 stays so.
pub proof fn lemma_normalize(h: nat, m: nat)
    ensures
        normalize(h, m).1 < 60,
        h < 24 ==> normalize(h, m).0 < 24,
        h >= 24 ==> normalize(h, m).0 >= h,
{
}

/// One round of the carrying loop does not change the normalised pair.
proof fn lemma_normalize_carry(h: nat, m: nat)
    requires
        m >= 60,
    ensures
        normalize(if h + 1 == 24 { 0 } else { h + 1 }, (m - 60) as nat) == normalize(h, m),
{
    let m2 = (m - 60) as nat;
    assert(m2 / 60 == m / 60 - 1);
    assert(m2 % 60 == m % 60);
    if h < 24 {
        let q = m / 60;
        if h + 1 == 24 {
            assert((0 + m2 / 60) % 24 == ((h + q) as nat) % 24) by {
                assert(h + q == m2 / 60 + 24);
            }
        } else {
            assert(((h + 1) + m2 / 60) == h + q);
        }
    }
}

/// Normalises an (hour, minute) pair by carrying whole hours.
pub fn normalize_exec(hour: usize, minute: usize) -> (res: (usize, usize))
    requires
        pair_fits(hour as nat, minute as nat),
    ensures
        res.0 == normalize(hour as nat, minute as nat).0,
        res.1 == normalize(hour as nat, minute as nat).1,
{
    let mut h = hour;
    let mut m = minute;
    while m >= 60
        invariant
            normalize(h as nat, m as nat) == normalize(hour as nat, minute as nat),
            pair_fits(h as nat, m as nat),
            (hour < 24) == (h < 24),
        decreases m,
    {
        proof {
            lemma_normalize_carry(h as nat, m as nat);
        }
        h = h + 1;
        m = m - 60;
        if h == 24 {
            h = 0;
        }
    }
    (h, m)
}

/// Appends the number `n` with at least two digits.
fn push_pad2(out: &mut Vec<char>, n: usize)
    ensures
        final(out)@ == old(out)@ + pad2(n as nat),
{
    if n < 10 {
        out.push('0');
    }
    push_decimal(out, n);
    assert(final(out)@ =~= old(out)@ + pad2(n as nat));
}

/// The text `HH:MM` of the pair (`hour`, `minute`).
pub fn format_time(hour: usize, minute: usize) -> (res: String)
    ensures
        res@ == time_text((hour as nat, minute as nat)),
{
    let mut out: Vec<char> = Vec::new();
    push_pad2(&mut out, hour);
    out.push(':');
    push_pad2(&mut out, minute);
    assert(out@ =~= time_text((hour as nat, minute as nat)));
    string_of(&out)
}

/// Reads the (hour, minute) pair of a clock string before normalisation.
pub fn parse_time(s: &Vec<char>) -> (res: (usize, usize))
    requires
        time_fields_parse(s@),
    ensures
        res.0 == raw_time(s@).0,
        res.1 == raw_time(s@).1,
{
    let c0 = find_colon(s, 0);
    proof {
        lemma_colon_from(s@, 0);
    }
    if c0 == s.len() {
        (0, parse_usize(s, 0, c0))
    } else {
        let c1 = find_colon(s, c0 + 1);
        proof {
            lemma_colon_from(s@, c0 + 1);
        }
        (parse_usize(s, 0, c0), parse_usize(s, c0 + 1, c1))
    }
}

/// Normalises a clock string (`"H:M"` or a number of minutes) to `HH:MM`.
pub fn to_time(time: &str) -> (res: String)
    requires
        time_ok(time@),
    ensures
        res@ == time_text(clock(time@)),
{
    let s = chars_of(time);
    let (h, m) = parse_time(&s);
    let (h2, m2) = normalize_exec(h, m);
    format_time(h2, m2)
}

/// The clock string `step` minutes after `time`, as `HH:MM`.
pub fn next_time(time: String, step: usize) -> (res: String)
    requires
        next_ok(time@, step as nat),
    ensures
        res@ == time_text(advance(raw_time(time@), step as nat)),
{
    let s = chars_of(time.as_str());
    let (h, m) = parse_time(&s);
    let (h2, m2) = normalize_exec(h, m + step);
    format_time(h2, m2)
}

/// The two clock strings name the same (hour, minute) pair before
/// normalisation; a string without `:` counts as minutes of hour 0.
pub fn time_equal(time1: &String, time2: &String) -> (res: bool)
    requires
        time_equal_ok(time1@, time2@),
    ensures
        res == (raw_time(time1@) == raw_time(time2@)),
{
    let a = chars_of(time1.as_str());
    let b = chars_of(time2.as_str());
    let ca = find_colon(&a, 0);
    let cb = find_colon(&b, 0);
    proof {
        lemma_colon_from(a@, 0);
        lemma_colon_from(b@, 0);
    }
    if ca == a.len() {
        if cb == b.len() {
            parse_usize(&a, 0, ca) == parse_usize(&b, 0, cb)
        } else {
            let cb1 = find_colon(&b, cb + 1);
            proof {
                lemma_colon_from(b@, cb + 1);
            }
            parse_usize(&a, 0, ca) == parse_usize(&b, cb + 1, cb1) && parse_usize(&b, 0, cb) == 0
        }
    } else {
        let ca1 = find_colon(&a, ca + 1);
        proof {
            lemma_colon_from(a@, ca + 1);
        }
        if cb == b.len() {
            parse_usize(&a, ca + 1, ca1) == parse_usize(&b, 0, cb) && parse_usize(&a, 0, ca) == 0
        } else {
            let cb1 = find_colon(&b, cb + 1);
            proof {
                lemma_colon_from(b@, cb + 1);
            }
            parse_usize(&a, 0, ca) == parse_usize(&b, 0, cb) && parse_usize(&a, ca + 1, ca1)
                == parse_usize(&b, cb + 1, cb1)
        }
    }
}

/// The texts of a list of strings.
pub open spec fn texts(v: Seq<String>) -> Seq<Seq<char>> {
    v.map_values(|s: String| s@)
}

/// The last position of `t` in `v`, or -1.
pub open spec fn last_index_of(v: Seq<Seq<char>>, t: Seq<char>) -> int
    decreases v.len(),
{
    if v.len() == 0 {
        -1
    } else if v.last() == t {
        v.len() - 1
    } else {
        last_index_of(v.drop_last(), t)
    }
}

pub proof fn lemma_last_index_of(v: Seq<Seq<char>>, t: Seq<char>)
    ensures
        -1 <= last_index_of(v, t) < v.len(),
        last_index_of(v, t) >= 0 ==> v[last_index_of(v, t)] == t,
        forall|j: int| last_index_of(v, t) < j < v.len() ==> v[j] != t,
    decreases v.len(),
{
    if v.len() > 0 && v.last() != t {
        lemma_last_index_of(v.drop_last(), t);
        assert forall|j: int| last_index_of(v, t) < j < v.len() implies v[j] != t by {
            if j < v.len() - 1 {
                assert(v.drop_last()[j] == v[j]);
            }
        }
    }
}

/// The position `p` is the last one of its text in `v`: a slot of the day.
pub open spec fn is_slot(v: Seq<Seq<char>>, p: int) -> bool {
    0 <= p < v.len() && last_index_of(v, v[p]) == p
}

/// The last position of `t` in `v`.
pub fn last_index(v: &Vec<String>, t: &String) -> (res: Option<usize>)
    ensures
        match res {
            Some(i) => i as int == last_index_of(texts(v@), t@),
            None => last_index_of(texts(v@), t@) == -1,
        },
{
    let mut i = v.len();
    assert(texts(v@).subrange(0, i as int) =~= texts(v@));
    while i > 0
        invariant
            i <= v@.len(),
            last_index_of(texts(v@), t@) == last_index_of(texts(v@).subrange(0, i as int), t@),
        decreases i,
    {
        let ghost w = texts(v@).subrange(0, i as int);
        assert(w.last() == v@[i - 1]@);
        if v[i - 1] == *t {
            return Some(i - 1);
        }
        assert(w.drop_last() =~= texts(v@).subrange(0, i - 1));
        i = i - 1;
    }
    assert(texts(v@).subrange(0, 0).len() == 0);
    None
}

/// `walk` of `a + b` steps is `b` steps from the pair after `a` steps.
pub proof fn lemma_walk_split(t: (nat, nat), step: nat, a: nat, b: nat)
    ensures
        walk(t, step, a + b) == walk(walk(t, step, a), step, b),
    decreases b,
{
    if b > 0 {
        lemma_walk_split(t, step, a, (b - 1) as nat);
        assert((a + b - 1) as nat == a + (b - 1) as nat);
    }
}

/// Walking from a clock pair keeps hours below 24 and minutes below 60.
pub proof fn lemma_walk_clock(t: (nat, nat), step: nat, k: nat)
    requires
        t.0 < 24,
        t.1 < 60,
    ensures
        walk(t, step, k).0 < 24,
        walk(t, step, k).1 < 60,
    decreases k,
{
    if k > 0 {
        lemma_walk_clock(t, step, (k - 1) as nat);
        lemma_normalize(walk(t, step, (k - 1) as nat).0, walk(t, step, (k - 1) as nat).1 + step);
    }
}

/// Walking from an hour of 24 or more never lowers the hour.
pub proof fn lemma_walk_hours_grow(t: (nat, nat), step: nat, j: nat, k: nat)
    requires
        t.0 >= 24,
        j <= k,
    ensures
        walk(t, step, j).0 <= walk(t, step, k).0,
        walk(t, step, k).0 >= 24,
    decreases k,
{
    if k > 0 {
        if j < k {
            lemma_walk_hours_grow(t, step, j, (k - 1) as nat);
        }
        lemma_walk_hours_grow(t, step, (k - 1) as nat, (k - 1) as nat);
        lemma_normalize(walk(t, step, (k - 1) as nat).0, walk(t, step, (k - 1) as nat).1 + step);
    }
}

/// A minimal number of steps to reach `target` exists once some does.
pub proof fn lemma_first_hit_exists(t: (nat, nat), step: nat, target: (nat, nat), n: nat)
    requires
        walk(t, step, n) == target,
    ensures
        exists|m: nat|
            m <= n && walk(t, step, m) == target && forall|k: nat| k < m ==> walk(t, step, k)
                != target,
    decreases n,
{
    if exists|k: nat| k < n && walk(t, step, k) == target {
        let k = choose|k: nat| k < n && walk(t, step, k) == target;
        lemma_first_hit_exists(t, step, target, k);
    }
}

/// The least number of steps from `t` to `target`.
pub open spec fn first_hit(t: (nat, nat), step: nat, target: (nat, nat)) -> nat {
    choose|m: nat| walk(t, step, m) == target && forall|k: nat| k < m ==> walk(t, step, k) != target
}

/// `target` is reached from `t` in fewer than `SLOT_LIMIT` steps.
pub open spec fn reaches(t: (nat, nat), step: nat, target: (nat, nat)) -> bool {
    exists|n: nat| n < SLOT_LIMIT && walk(t, step, n) == target
}

/// The least number of steps, at least `from`, from `00:00` to `target`.
pub open spec fn first_hit_from(step: nat, target: (nat, nat), from: nat) -> nat {
    choose|k: nat|
        from <= k && walk((0, 0), step, k) == target && forall|j: nat|
            from <= j < k ==> walk((0, 0), step, j) != target
}

/// The duration that `string_to_dauer` gives the clock string `s` when the
/// known duration texts are `ds`.
pub open spec fn dauer_position(ds: Seq<Seq<char>>, step: nat, s: Seq<char>) -> nat {
    if position_of(ds, s) >= 0 {
        position_of(ds, s) as nat
    } else {
        first_hit_from(step, clock(s), ds.len())
    }
}

/// The duration texts after `string_to_dauer` looked up `s` in `ds`.
pub open spec fn durations_after(ds: Seq<Seq<char>>, step: nat, s: Seq<char>) -> Seq<Seq<char>> {
    if position_of(ds, s) >= 0 {
        ds
    } else {
        duration_texts(step, dauer_position(ds, step, s) + 1)
    }
}

/// The clock texts of the day from `start` until `stop` is first reached.
pub open spec fn day_points(start: (nat, nat), stop: (nat, nat), step: nat) -> Seq<Seq<char>> {
    Seq::new((first_hit(start, step, stop) + 1) as nat, |k: int| time_text(walk(start, step, k as nat)))
}

/// The texts of the first `n` durations: multiples of `step` minutes from `00:00`.
pub open spec fn duration_texts(step: nat, n: nat) -> Seq<Seq<char>> {
    Seq::new(n, |k: int| time_text(walk((0, 0), step, k as nat)))
}

/// The grid position of the clock string `s` in the text list `v`.
pub open spec fn position_of(v: Seq<Seq<char>>, s: Seq<char>) -> int {
    last_index_of(v, time_text(clock(s)))
}

/// The clock string `s` names a position of `v`.
pub open spec fn names_position(v: Seq<Seq<char>>, s: Seq<char>) -> bool {
    time_ok(s) && position_of(v, s) >= 0
}

/// Walking from a pair with minutes below 60 keeps the minutes below 60.
pub proof fn lemma_walk_minutes(t: (nat, nat), step: nat, k: nat)
    requires
        t.1 < 60,
    ensures
        walk(t, step, k).1 < 60,
    decreases k,
{
    if k > 0 {
        lemma_walk_minutes(t, step, (k - 1) as nat);
        lemma_normalize(walk(t, step, (k - 1) as nat).0, walk(t, step, (k - 1) as nat).1 + step);
    }
}

/// Every pair on a walk from a normalised `t` to `target` (after `n` steps)
/// has components that fit in a `usize`, and the next step can be computed.
proof fn lemma_walk_bounded(t: (nat, nat), step: nat, target: (nat, nat), n: nat, i: nat)
    requires
        t.1 < 60,
        t.0 < 24 || t.0 <= target.0,
        target.0 <= usize::MAX,
        step + 60 <= usize::MAX,
        walk(t, step, n) == target,
        i <= n,
    ensures
        walk(t, step, i).0 <= usize::MAX,
        walk(t, step, i).1 < 60,
        i < n ==> next_ok(time_text(walk(t, step, i)), step),
        time_fields_parse(time_text(walk(t, step, i))),
        raw_time(time_text(walk(t, step, i))) == walk(t, step, i),
{
    lemma_walk_minutes(t, step, i);
    if t.0 < 24 {
        lemma_walk_clock(t, step, i);
    } else {
        lemma_walk_hours_grow(t, step, i, n);
        if i < n {
            lemma_walk_hours_grow(t, step, i + 1, n);
        }
    }
    lemma_time_text(walk(t, step, i));
}

/// The clock pair of an accepted clock string fits in `usize` and has
/// minutes below 60.
pub proof fn lemma_clock(s: Seq<char>)
    requires
        time_ok(s),
    ensures
        clock(s).0 <= usize::MAX,
        clock(s).1 < 60,
        clock(s).0 < 24 || clock(s).0 >= 24,
{
    lemma_normalize(raw_time(s).0, raw_time(s).1);
}

/// The plan of one day: the clock texts of its grid positions, the texts
/// of the durations seen so far and the excluded periods.
///
/// A text is found again by searching its list from the end, so that the
/// last position with that text answers, as in a map from text to position
/// filled in order.
#[derive(Debug)]
pub struct Zeitmanager {
    start: String,
    stop: String,
    step: usize,
    excluded: Vec<Zeitraum>,
    punkt_array: Vec<String>,
    dauer_array: Vec<String>,
}

/// `res` lists the slots of `points` in increasing order.
pub open spec fn lists_slots(points: Seq<Seq<char>>, res: Seq<Zeitpunkt>) -> bool {
    &&& forall|a: int, b: int| 0 <= a < b < res.len() ==> res[a].0 < res[b].0
    &&& forall|j: int| 0 <= j < res.len() ==> is_slot(points, res[j].0 as int)
    &&& forall|p: int| is_slot(points, p) ==> exists|j: int| 0 <= j < res.len() && res[j].0 == p
}

/// The clock texts from `start` in steps of `step` minutes until `stop`
/// is first reached.
fn walk_texts(
    start: &String,
    stop: &String,
    step: usize,
    Ghost(s0): Ghost<(nat, nat)>,
    Ghost(t0): Ghost<(nat, nat)>,
    Ghost(n0): Ghost<nat>,
) -> (punkt_array: Vec<String>)
    requires
        start@ == time_text(s0),
        stop@ == time_text(t0),
        s0.0 <= usize::MAX,
        s0.1 < 60,
        t0.0 <= usize::MAX,
        t0.1 < 60,
        s0.0 < 24 || s0.0 >= 24,
        step + 60 <= usize::MAX,
        n0 < SLOT_LIMIT,
        walk(s0, step as nat, n0) == t0,
    ensures
        texts(punkt_array@) == day_points(s0, t0, step as nat),
        1 <= punkt_array@.len() <= SLOT_LIMIT,
{
        let mut punkt_array: Vec<String> = Vec::new();
        punkt_array.push(start.clone());
        let mut i: usize = 0;
        let mut cur = start.clone();
        proof {
            if s0.0 >= 24 {
                lemma_walk_hours_grow(s0, step as nat, 0, n0);
            }
            lemma_walk_bounded(s0, step as nat, t0, n0, 0);
            lemma_time_text(t0);
            assert(texts(punkt_array@) =~= Seq::new(1, |k: int| time_text(walk(s0, step as nat, k as nat))));
        }
        while !time_equal(&cur, stop)
            invariant
                i <= n0 < SLOT_LIMIT,
                walk(s0, step as nat, n0) == t0,
                s0.1 < 60,
                s0.0 < 24 || s0.0 <= t0.0,
                t0.0 <= usize::MAX,
                t0.1 < 60,
                step + 60 <= usize::MAX,
                stop@ == time_text(t0),
                cur@ == time_text(walk(s0, step as nat, i as nat)),
                texts(punkt_array@) == Seq::new((i + 1) as nat, |k: int| time_text(walk(s0, step as nat, k as nat))),
                forall|k: nat| k < i ==> walk(s0, step as nat, k) != t0,
                time_equal_ok(cur@, stop@),
                raw_time(cur@) == walk(s0, step as nat, i as nat),
                raw_time(stop@) == t0,
            decreases n0 - i,
        {
            proof {
                lemma_walk_bounded(s0, step as nat, t0, n0, i as nat);
                lemma_walk_bounded(s0, step as nat, t0, n0, (i + 1) as nat);
            }
            i = i + 1;
            cur = next_time(cur, step);
            let ghost prev = texts(punkt_array@);
            punkt_array.push(cur.clone());
            proof {
                lemma_time_equal_ok(walk(s0, step as nat, i as nat), t0);
                assert(texts(punkt_array@) =~= prev.push(cur@));
                assert(texts(punkt_array@) =~= Seq::new((i + 1) as nat, |k: int| time_text(walk(s0, step as nat, k as nat))));
            }
        }
        proof {
            let m = first_hit(s0, step as nat, t0);
            assert(walk(s0, step as nat, i as nat) == t0);
            assert(walk(s0, step as nat, m) == t0 && forall|k: nat| k < m ==> walk(s0, step as nat, k) != t0);
            if m < i {
                assert(walk(s0, step as nat, m) != t0);
            }
            if i < m {
                assert(walk(s0, step as nat, i as nat) != t0);
            }
            assert(m == i);
            assert(texts(punkt_array@) =~= day_points(s0, t0, step as nat));
        }
        punkt_array
}

impl Zeitmanager {
    /// Clock texts of the grid positions of the day.
    pub closed spec fn points(&self) -> Seq<Seq<char>> {
        texts(self.punkt_array@)
    }

    /// Clock texts of the durations known so far (position `k`: `k` steps).
    pub closed spec fn durations(&self) -> Seq<Seq<char>> {
        texts(self.dauer_array@)
    }

    /// Minutes per grid step.
    pub closed spec fn step_size(&self) -> nat {
        self.step as nat
    }

    /// The excluded periods of the day.
    pub closed spec fn exclusions(&self) -> Seq<Zeitraum> {
        self.excluded@
    }

    /// Well-formedness of a day plan.
    pub open spec fn wf(&self) -> bool {
        &&& self.step_size() + 60 <= usize::MAX
        &&& 1 <= self.points().len() <= SLOT_LIMIT
        &&& 1 <= self.durations().len() <= SLOT_LIMIT
        &&& self.durations() == duration_texts(self.step_size(), self.durations().len())
        &&& forall|j: int|
            0 <= j < self.exclusions().len() ==> 0 <= #[trigger] self.exclusions()[j].finish()
                < self.points().len()
    }

    /// The day plan from `start` to `stop` in steps of `step` minutes, with
    /// the excluded periods `exclude` (pairs of clock strings of the day).
    pub fn new(start: &str, stop: &str, step: usize, exclude: Vec<(&str, &str)>) -> (res: Self)
        requires
            time_ok(start@),
            time_ok(stop@),
            step + 60 <= usize::MAX,
            reaches(clock(start@), step as nat, clock(stop@)),
            forall|j: int|
                0 <= j < exclude@.len() ==> {
                    let day = day_points(clock(start@), clock(stop@), step as nat);
                    &&& names_position(day, (#[trigger] exclude@[j]).0@)
                    &&& names_position(day, exclude@[j].1@)
                    &&& position_of(day, exclude@[j].0@) <= position_of(day, exclude@[j].1@)
                },
        ensures
            res.wf(),
            res.points() == day_points(clock(start@), clock(stop@), step as nat),
            res.durations() == duration_texts(step as nat, 1),
            res.step_size() == step,
            res.exclusions().len() == exclude@.len(),
            forall|j: int|
                0 <= j < exclude@.len() ==> {
                    let day = day_points(clock(start@), clock(stop@), step as nat);
                    &&& (#[trigger] res.exclusions()[j]).0.0 == position_of(day, exclude@[j].0@)
                    &&& res.exclusions()[j].1.0 == position_of(day, exclude@[j].1@)
                        - position_of(day, exclude@[j].0@)
                },
    {
        let ghost s0 = clock(start@);
        let ghost t0 = clock(stop@);
        let ghost n0 = choose|n: nat| n < SLOT_LIMIT && walk(s0, step as nat, n) == t0;
        proof {
            lemma_clock(start@);
            lemma_clock(stop@);
            lemma_normalize(raw_time(start@).0, raw_time(start@).1);
            if s0.0 >= 24 {
                lemma_walk_hours_grow(s0, step as nat, 0, n0);
            }
        }
        let start = to_time(start);
        let stop = to_time(stop);
        let mut dauer_array: Vec<String> = Vec::new();
        dauer_array.push(format_time(0, 0));
        proof {
            assert(texts(dauer_array@) =~= duration_texts(step as nat, 1));
        }
        let punkt_array = walk_texts(&start, &stop, step, Ghost(s0), Ghost(t0), Ghost(n0));
        let mut current = Zeitmanager {
            start,
            stop,
            step,
            punkt_array,
            dauer_array,
            excluded: Vec::new(),
        };
        let ghost day = day_points(s0, t0, step as nat);
        assert(current.points() == day);
        let mut j: usize = 0;
        while j < exclude.len()
            invariant
                j <= exclude@.len(),
                current.points() == day,
                current.durations() == duration_texts(step as nat, 1),
                current.step == step,
                step + 60 <= usize::MAX,
                1 <= day.len() <= SLOT_LIMIT,
                current.exclusions().len() == j,
                forall|k: int|
                    0 <= k < exclude@.len() ==> {
                        &&& names_position(day, (#[trigger] exclude@[k]).0@)
                        &&& names_position(day, exclude@[k].1@)
                        &&& position_of(day, exclude@[k].0@) <= position_of(day, exclude@[k].1@)
                    },
                forall|k: int|
                    0 <= k < j ==> {
                        &&& (#[trigger] current.exclusions()[k]).0.0 == position_of(day, exclude@[k].0@)
                        &&& current.exclusions()[k].1.0 == position_of(day, exclude@[k].1@)
                            - position_of(day, exclude@[k].0@)
                        &&& 0 <= current.exclusions()[k].finish() < day.len()
                    },
            decreases exclude@.len() - j,
        {
            let (a, b) = exclude[j];
            assert(a@ == exclude@[j as int].0@ && b@ == exclude@[j as int].1@);
            let p = current.string_to_punkt(a);
            let q = current.string_to_punkt(b);
            proof {
                lemma_last_index_of(day, time_text(clock(b@)));
            }
            let ghost prev = current.exclusions();
            current.excluded.push(Zeitraum::new_punkte(p, q));
            assert(current.exclusions() == prev.push(Zeitraum(p, Zeitdauer((q.0 - p.0) as usize))));
            j = j + 1;
        }
        current
    }

    /// The grid position of the clock string `s`.
    pub fn string_to_punkt(&self, s: &str) -> (res: Zeitpunkt)
        requires
            names_position(self.points(), s@),
        ensures
            res.0 == position_of(self.points(), s@),
    {
        let t = to_time(s);
        match last_index(&self.punkt_array, &t) {
            Some(i) => Zeitpunkt(i),
            None => {
                assert(false);
                Zeitpunkt(0)
            },
        }
    }

    /// The duration named by the clock string `time`: its position in the
    /// list of duration texts, which is extended by steps of the grid until
    /// it holds `time`.
    pub fn string_to_dauer(&mut self, time: &str) -> (res: Zeitdauer)
        requires
            old(self).wf(),
            time_ok(time@),
            reaches((0, 0), old(self).step_size(), clock(time@)),
        ensures
            final(self).wf(),
            final(self).points() == old(self).points(),
            final(self).step_size() == old(self).step_size(),
            final(self).exclusions() == old(self).exclusions(),
            res.0 < final(self).durations().len(),
            res.0 < SLOT_LIMIT,
            final(self).durations()[res.0 as int] == time_text(clock(time@)),
            res.0 == dauer_position(old(self).durations(), old(self).step_size(), time@),
            final(self).durations() == durations_after(old(self).durations(), old(self).step_size(), time@),
            position_of(old(self).durations(), time@) >= 0 ==> {
                &&& res.0 == position_of(old(self).durations(), time@)
                &&& final(self).durations() == old(self).durations()
            },
            position_of(old(self).durations(), time@) < 0 ==> {
                &&& res.0 >= old(self).durations().len()
                &&& walk((0, 0), old(self).step_size(), res.0 as nat) == clock(time@)
                &&& forall|k: nat|
                    old(self).durations().len() <= k < res.0 ==> walk(
                        (0, 0),
                        old(self).step_size(),
                        k,
                    ) != clock(time@)
                &&& final(self).durations() == duration_texts(old(self).step_size(), (res.0 + 1) as nat)
            },
    {
        let ghost t0 = clock(time@);
        let ghost st = self.step as nat;
        let ghost old_len = self.dauer_array@.len();
        let t = to_time(time);
        proof {
            lemma_clock(time@);
            lemma_time_text(t0);
            lemma_last_index_of(self.durations(), t@);
        }
        match last_index(&self.dauer_array, &t) {
            Some(i) => {
                return Zeitdauer(i);
            },
            None => {},
        }
        let ghost k0 = choose|n: nat| n < SLOT_LIMIT && walk((0, 0), st, n) == t0;
        proof {
            assert forall|k: nat| k < old_len implies walk((0, 0), st, k) != t0 by {
                assert(self.durations()[k as int] == time_text(walk((0, 0), st, k)));
                assert(self.durations()[k as int] != t@);
            }
        }
        let mut i = self.dauer_array.len() - 1;
        let mut cur = self.dauer_array[i].clone();
        proof {
            assert(self.durations()[i as int] == time_text(walk((0, 0), st, i as nat)));
            lemma_walk_clock((0, 0), st, i as nat);
            lemma_time_text(walk((0, 0), st, i as nat));
            assert(texts(self.dauer_array@) =~= duration_texts(st, (i + 1) as nat));
        }
        while !time_equal(&t, &cur)
            invariant
                self.wf(),
                self.step == st,
                self.points() == old(self).points(),
                self.exclusions() == old(self).exclusions(),
                old_len <= i + 1,
                i <= k0 < SLOT_LIMIT,
                walk((0, 0), st, k0) == t0,
                t@ == time_text(t0),
                raw_time(t@) == t0,
                cur@ == time_text(walk((0, 0), st, i as nat)),
                raw_time(cur@) == walk((0, 0), st, i as nat),
                time_equal_ok(t@, cur@),
                self.durations() == duration_texts(st, (i + 1) as nat),
                forall|k: nat| k < i ==> walk((0, 0), st, k) != t0,
            decreases k0 - i,
        {
            proof {
                lemma_walk_clock((0, 0), st, i as nat);
                lemma_walk_clock((0, 0), st, (i + 1) as nat);
                lemma_time_text(walk((0, 0), st, i as nat));
                lemma_time_text(walk((0, 0), st, (i + 1) as nat));
            }
            i = i + 1;
            cur = next_time(cur, self.step);
            let ghost prev = texts(self.dauer_array@);
            self.dauer_array.push(cur.clone());
            proof {
                lemma_time_equal_ok(t0, walk((0, 0), st, i as nat));
                assert(texts(self.dauer_array@) =~= prev.push(cur@));
                assert(texts(self.dauer_array@) =~= duration_texts(st, (i + 1) as nat));
            }
        }
        proof {
            assert(walk((0, 0), st, i as nat) == t0);
            let m = first_hit_from(st, t0, old_len);
            assert forall|j: nat| old_len <= j < i implies walk((0, 0), st, j) != t0 by {}
            assert(old_len <= m && walk((0, 0), st, m) == t0 && forall|j: nat| old_len <= j < m ==> walk((0, 0), st, j) != t0);
            if m < i {
                assert(walk((0, 0), st, m) != t0);
            }
            if i < m {
                assert(walk((0, 0), st, i as nat) != t0);
            }
        }
        Zeitdauer(i)
    }

    /// The number of grid positions of the day.
    pub fn point_count(&self) -> (res: usize)
        ensures
            res == self.points().len(),
    {
        self.punkt_array.len()
    }

    /// The clock text of a grid position.
    pub fn punkt_to_string(&self, time: Zeitpunkt) -> (res: String)
        requires
            time.0 < self.points().len(),
        ensures
            res@ == self.points()[time.0 as int],
    {
        self.punkt_array[time.0].clone()
    }

    /// The clock text of a duration; the list of duration texts is extended
    /// by steps of the grid up to `time` when needed.
    pub fn dauer_to_string(&mut self, time: Zeitdauer) -> (res: String)
        requires
            old(self).wf(),
            time.0 < SLOT_LIMIT,
        ensures
            final(self).wf(),
            final(self).points() == old(self).points(),
            final(self).step_size() == old(self).step_size(),
            final(self).exclusions() == old(self).exclusions(),
            res@ == time_text(walk((0, 0), old(self).step_size(), time.0 as nat)),
            time.0 < old(self).durations().len() ==> final(self).durations() == old(self).durations(),
            time.0 >= old(self).durations().len() ==> final(self).durations() == duration_texts(
                old(self).step_size(),
                (time.0 + 1) as nat,
            ),
    {
        let ghost st = self.step as nat;
        if time.0 < self.dauer_array.len() {
            proof {
                assert(self.durations()[time.0 as int] == time_text(walk((0, 0), st, time.0 as nat)));
            }
            self.dauer_array[time.0].clone()
        } else {
            let mut i = self.dauer_array.len() - 1;
            let mut cur = self.dauer_array[i].clone();
            proof {
                assert(self.durations()[i as int] == time_text(walk((0, 0), st, i as nat)));
                assert(texts(self.dauer_array@) =~= duration_texts(st, (i + 1) as nat));
            }
            while i < time.0
                invariant
                    self.wf(),
                    self.step == st,
                    self.points() == old(self).points(),
                    self.exclusions() == old(self).exclusions(),
                    i <= time.0 < SLOT_LIMIT,
                    cur@ == time_text(walk((0, 0), st, i as nat)),
                    self.durations() == duration_texts(st, (i + 1) as nat),
                decreases time.0 - i,
            {
                proof {
                    lemma_walk_clock((0, 0), st, i as nat);
                    lemma_time_text(walk((0, 0), st, i as nat));
                }
                i = i + 1;
                cur = next_time(cur, self.step);
                let ghost prev = texts(self.dauer_array@);
                self.dauer_array.push(cur.clone());
                proof {
                    assert(texts(self.dauer_array@) =~= prev.push(cur@));
                    assert(texts(self.dauer_array@) =~= duration_texts(st, (i + 1) as nat));
                }
            }
            cur.clone()
        }
    }

    /// The clock texts of the start and the end of a period.
    pub fn zeitraum_to_string(&self, zeit: &Zeitraum) -> (res: (String, String))
        requires
            zeit.finish() < self.points().len(),
        ensures
            res.0@ == self.points()[zeit.begin()],
            res.1@ == self.points()[zeit.finish()],
    {
        let _n = self.punkt_array.len();
        (self.punkt_to_string(zeit.0), self.punkt_to_string(zeit.0.add_dauer(&zeit.1)))
    }

    /// All slots of the day in increasing order: each grid position that is
    /// the last one with its clock text.
    pub fn all_time(&self) -> (res: Vec<Zeitpunkt>)
        ensures
            lists_slots(self.points(), res@),
    {
        let mut res: Vec<Zeitpunkt> = Vec::new();
        let n = self.punkt_array.len();
        for i in 0..n
            invariant
                n == self.points().len(),
                forall|a: int, b: int| 0 <= a < b < res@.len() ==> res@[a].0 < res@[b].0,
                forall|j: int| 0 <= j < res@.len() ==> res@[j].0 < i,
                forall|j: int| 0 <= j < res@.len() ==> is_slot(self.points(), res@[j].0 as int),
                forall|p: int|
                    0 <= p < i && is_slot(self.points(), p) ==> exists|j: int|
                        0 <= j < res@.len() && res@[j].0 == p,
        {
            assert(self.points()[i as int] == self.punkt_array@[i as int]@);
            let found = last_index(&self.punkt_array, &self.punkt_array[i]);
            let is_last = match found {
                Some(k) => k == i,
                None => false,
            };
            let ghost prev = res@;
            if is_last {
                res.push(Zeitpunkt(i));
                assert(res@[res@.len() - 1].0 == i);
            }
            assert forall|p: int|
                0 <= p < i + 1 && is_slot(self.points(), p) implies exists|j: int|
                    0 <= j < res@.len() && res@[j].0 == p by {
                if p < i {
                    let j = choose|j: int| 0 <= j < prev.len() && prev[j].0 == p;
                    assert(res@[j] == prev[j]);
                } else {
                    assert(res@[res@.len() - 1].0 == p);
                }
            }
        }
        res
    }

    /// The period lies on slots of the day at both ends and meets no
    /// excluded period.
    pub fn inside(&self, time: &Zeitraum) -> (res: bool)
        requires
            self.wf(),
            time.fits(),
        ensures
            res == (is_slot(self.points(), time.begin()) && is_slot(self.points(), time.finish())
                && forall|j: int|
                0 <= j < self.exclusions().len() ==> !(#[trigger] self.exclusions()[j]).meets(*time)),
    {
        let t = self.all_time();
        let c1 = contains_point(&t, time.0);
        let c2 = contains_point(&t, time.0.add_dauer(&time.1));
        let mut hit = false;
        let mut j: usize = 0;
        while j < self.excluded.len()
            invariant
                self.wf(),
                time.fits(),
                j <= self.exclusions().len(),
                hit == exists|k: int| 0 <= k < j && self.exclusions()[k].meets(*time),
            decreases self.exclusions().len() - j,
        {
            assert(0 <= self.exclusions()[j as int].finish() < self.points().len());
            if self.excluded[j].overlapping(time) {
                hit = true;
            }
            j = j + 1;
        }
        c1 && c2 && !hit
    }
}

/// `p` occurs in `v`.
pub fn contains_point(v: &Vec<Zeitpunkt>, p: Zeitpunkt) -> (res: bool)
    ensures
        res == exists|j: int| 0 <= j < v@.len() && v@[j].0 == p.0,
{
    for j in 0..v.len()
        invariant
            forall|k: int| 0 <= k < j ==> v@[k].0 != p.0,
    {
        if v[j].0 == p.0 {
            return true;
        }
    }
    false
}

/// Reading back a grid position gives the normalised clock text: for a
/// clock string `s` of the day, `punkt_to_string(string_to_punkt(s))` is
/// `to_time(s)`.
pub proof fn lemma_punkt_round_trip(points: Seq<Seq<char>>, s: Seq<char>)
    requires
        names_position(points, s),
    ensures
        points[position_of(points, s)] == time_text(clock(s)),
{
    lemma_last_index_of(points, time_text(clock(s)));
}

/// The least number of steps from `from` on exists once one is known.
proof fn lemma_first_hit_from_exists(step: nat, target: (nat, nat), from: nat, n: nat)
    requires
        from <= n,
        walk((0, 0), step, n) == target,
    ensures
        exists|k: nat|
            from <= k && walk((0, 0), step, k) == target && forall|j: nat|
                from <= j < k ==> walk((0, 0), step, j) != target,
    decreases n - from,
{
    if exists|j: nat| from <= j < n && walk((0, 0), step, j) == target {
        let j = choose|j: nat| from <= j < n && walk((0, 0), step, j) == target;
        lemma_first_hit_from_exists(step, target, from, j);
    }
}

/// Reading back a duration gives the normalised clock text: after
/// `string_to_dauer(t)` returned `d`, `dauer_to_string(d)` is `to_time(t)`,
/// and the list of duration texts holds that text at position `d`.
pub proof fn lemma_dauer_round_trip(m: Zeitmanager, t: Seq<char>)
    requires
        m.wf(),
        time_ok(t),
        reaches((0, 0), m.step_size(), clock(t)),
    ensures
        ({
            let d = dauer_position(m.durations(), m.step_size(), t);
            &&& time_text(walk((0, 0), m.step_size(), d)) == time_text(clock(t))
            &&& d < durations_after(m.durations(), m.step_size(), t).len()
            &&& durations_after(m.durations(), m.step_size(), t)[d as int] == time_text(clock(t))
        }),
{
    let ds = m.durations();
    let st = m.step_size();
    let target = clock(t);
    lemma_last_index_of(ds, time_text(target));
    if position_of(ds, t) < 0 {
        let n = choose|n: nat| n < SLOT_LIMIT && walk((0, 0), st, n) == target;
        if n < ds.len() {
            assert(ds[n as int] == time_text(walk((0, 0), st, n)));
            assert(false);
        }
        lemma_first_hit_from_exists(st, target, ds.len(), n);
        let d = dauer_position(ds, st, t);
        assert(walk((0, 0), st, d) == target);
    } else {
        let d = position_of(ds, t);
        assert(ds[d] == time_text(walk((0, 0), st, d as nat)));
    }
}

/// Walking from a time of the day stays within the day.
proof fn lemma_walk_in_day(t: (nat, nat), step: nat, k: nat)
    requires
        t.0 < 24,
        t.1 < 60,
    ensures
        walk(t, step, k).0 < 24,
        walk(t, step, k).1 < 60,
    decreases k,
{
    if k > 0 {
        lemma_walk_in_day(t, step, (k - 1) as nat);
        let w = walk(t, step, (k - 1) as nat);
        lemma_normalize(w.0, w.1 + step);
    }
}

/// The text of a time of the day reads back as that time.
proof fn lemma_text_reads_back(t: (nat, nat))
    requires
        t.0 < 24,
        t.1 < 60,
    ensures
        time_ok(time_text(t)),
        clock(time_text(t)) == t,
{
    lemma_time_text(t);
    assert(t.1 / 60 == 0);
    assert(t.1 % 60 == t.1);
    assert(t.0 % 24 == t.0);
}

/// Reading back the text of a grid position gives that position: for a
/// day plan that starts at a time of the day and whose clock texts do not
/// repeat, `string_to_punkt(punkt_to_string(p))` is `p`.
pub proof fn lemma_punkt_text_round_trip(m: Zeitmanager, start: (nat, nat), stop: (nat, nat), k: int)
    requires
        m.points() == day_points(start, stop, m.step_size()),
        start.0 < 24,
        start.1 < 60,
        0 <= k < m.points().len(),
        forall|i: int, j: int| 0 <= i < j < m.points().len() ==> m.points()[i] != m.points()[j],
    ensures
        names_position(m.points(), m.points()[k]),
        position_of(m.points(), m.points()[k]) == k,
{
    let v = m.points();
    let t = walk(start, m.step_size(), k as nat);
    assert(v[k] == time_text(t));
    lemma_walk_in_day(start, m.step_size(), k as nat);
    lemma_text_reads_back(t);
    lemma_last_index_of(v, v[k]);
    let li = last_index_of(v, v[k]);
    if li != k {
        if li < k {
            assert(v[li] != v[k]);
        } else {
            assert(v[k] != v[li]);
        }
    }
}

/// Both round trips between grid positions and clock texts, for a day plan
/// that starts at a time of the day and whose clock texts do not repeat:
/// `string_to_punkt(punkt_to_string(p))` is `p` for every grid position
/// `p`, and `punkt_to_string(string_to_punkt(s))` is `to_time(s)` for every
/// clock string `s` that names a grid position.
pub proof fn lemma_grid_round_trips(m: Zeitmanager, start: (nat, nat), stop: (nat, nat), k: int, s: Seq<char>)
    requires
        m.points() == day_points(start, stop, m.step_size()),
        start.0 < 24,
        start.1 < 60,
        0 <= k < m.points().len(),
        forall|i: int, j: int| 0 <= i < j < m.points().len() ==> m.points()[i] != m.points()[j],
        names_position(m.points(), s),
    ensures
        names_position(m.points(), m.points()[k]),
        position_of(m.points(), m.points()[k]) == k,
        0 <= position_of(m.points(), s) < m.points().len(),
        m.points()[position_of(m.points(), s)] == time_text(clock(s)),
{
    lemma_punkt_text_round_trip(m, start, stop, k);
    lemma_punkt_round_trip(m.points(), s);
    lemma_last_index_of(m.points(), time_text(clock(s)));
}

} // verus!
