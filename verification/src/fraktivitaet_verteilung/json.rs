//! JSON-like listings of the plan, the participants and the rooms.
use vstd::prelude::*;

use super::{Fraktivitaet, FraktivitaetManager};
use super::zeit::texts;

verus! {

/// The items joined by commas.
pub open spec fn join_comma(items: Seq<Seq<char>>) -> Seq<char>
    decreases items.len(),
{
    if items.len() == 0 {
        Seq::empty()
    } else if items.len() == 1 {
        items[0]
    } else {
        join_comma(items.drop_last()) + ","@ + items.last()
    }
}

/// The items as a bracketed, comma-separated list.
pub open spec fn json_array(items: Seq<Seq<char>>) -> Seq<char> {
    "["@ + join_comma(items) + "]"@
}

/// The text that `{:?}` writes for a string: Rust's `Debug` for `str`.
pub uninterp spec fn debug_text(s: Seq<char>) -> Seq<char>;

/// `s` holds only ASCII letters, digits and spaces.
pub open spec fn plain_text(s: Seq<char>) -> bool {
    forall|i: int|
        0 <= i < s.len() ==> ('a' <= #[trigger] s[i] <= 'z' || 'A' <= s[i] <= 'Z' || '0' <= s[i] <= '9'
            || s[i] == ' ')
}

/// What `format!("{:?}", s)` writes for the string `s`.
///
/// Trusted: calls std's `Debug` implementation for `String` through
/// `format!`. The contract names the result `debug_text(s)` and states the
/// fact the std documentation gives for strings without characters to
/// escape: such a string is written between double quotes unchanged. How
/// other characters are escaped is left to the name.
#[verifier::external_body]
pub(crate) fn debug_string(s: &String) -> (res: String)
    ensures
        res@ == debug_text(s@),
        plain_text(s@) ==> res@ == seq!['"'] + s@ + seq!['"'],
{
    format!("{:?}", s)
}

/// The items as a bracketed, comma-separated list.
pub fn json_list(items: &Vec<String>) -> (res: String)
    ensures
        res@ == json_array(texts(items@)),
{
    let mut result = String::new();
    result.append("[");
    let mut comma = false;
    let mut i: usize = 0;
    while i < items.len()
        invariant
            i <= items@.len(),
            comma == (i > 0),
            result@ == "["@ + join_comma(texts(items@).subrange(0, i as int)),
        decreases items@.len() - i,
    {
        let ghost prev = result@;
        let ghost t = texts(items@);
        if comma {
            result.append(",");
        } else {
            comma = true;
        }
        result.append(items[i].as_str());
        proof {
            let s1 = t.subrange(0, i + 1);
            assert(s1.drop_last() =~= t.subrange(0, i as int));
            assert(s1.last() == items@[i as int]@);
            if i == 0 {
                assert(t.subrange(0, 0) =~= Seq::<Seq<char>>::empty());
                assert(s1.len() == 1);
                assert(result@ =~= "["@ + join_comma(s1));
            } else {
                assert(result@ =~= "["@ + join_comma(s1));
            }
        }
        i = i + 1;
    }
    result.append("]");
    assert(texts(items@).subrange(0, i as int) =~= texts(items@));
    result
}

/// The listing entry of a placed activity.
pub open spec fn placed_entry(f: Fraktivitaet, points: Seq<Seq<char>>) -> Seq<char> {
    let z = f.zuteilung.unwrap();
    "{ \"name\": \""@ + f.name@ + "\" , \"raum\": \""@ + z.0@ + "\" , \"start\": \""@
        + points[z.1.begin()] + "\" , \"ende\": \""@ + points[z.1.finish()] + "\"} \n"@
}

/// The listing entries of the placed activities of `fs`, in order.
pub open spec fn placed_entries(fs: Seq<Fraktivitaet>, points: Seq<Seq<char>>) -> Seq<Seq<char>>
    decreases fs.len(),
{
    if fs.len() == 0 {
        Seq::empty()
    } else {
        let rest = placed_entries(fs.drop_last(), points);
        if fs.last().zuteilung is Some {
            rest.push(placed_entry(fs.last(), points))
        } else {
            rest
        }
    }
}

/// Every placed activity of `fs` ends on a grid position of `points`.
pub open spec fn placements_in_day(fs: Seq<Fraktivitaet>, points: Seq<Seq<char>>) -> bool {
    forall|i: int|
        0 <= i < fs.len() ==> ((#[trigger] fs[i]).zuteilung matches Some(z) ==> z.1.finish()
            < points.len())
}

impl FraktivitaetManager {
    /// Every placed activity ends on a grid position of the day.
    pub fn placed_within_day(&self) -> (res: bool)
        ensures
            res == placements_in_day(self.fraktivitaeten@, self.manager.points()),
    {
        let n = self.manager.point_count();
        for i in 0..self.fraktivitaeten.len()
            invariant
                n == self.manager.points().len(),
                forall|j: int|
                    0 <= j < i ==> ((#[trigger] self.fraktivitaeten@[j]).zuteilung matches Some(z)
                        ==> z.1.finish() < n),
        {
            match &self.fraktivitaeten[i].zuteilung {
                Some(z) => {
                    if z.1.0.0 >= n || z.1.1.0 >= n - z.1.0.0 {
                        return false;
                    }
                },
                None => {},
            }
        }
        true
    }

    /// The placed activities as a list of JSON objects with name, room,
    /// start and end.
    pub fn json_verteilung(&self) -> (res: String)
        requires
            placements_in_day(self.fraktivitaeten@, self.manager.points()),
        ensures
            res@ == json_array(placed_entries(self.fraktivitaeten@, self.manager.points())),
    {
        let ghost points = self.manager.points();
        let ghost fs = self.fraktivitaeten@;
        let mut entries: Vec<String> = Vec::new();
        let mut i: usize = 0;
        while i < self.fraktivitaeten.len()
            invariant
                i <= fs.len(),
                fs == self.fraktivitaeten@,
                points == self.manager.points(),
                placements_in_day(fs, points),
                texts(entries@) == placed_entries(fs.subrange(0, i as int), points),
            decreases fs.len() - i,
        {
            let frak = &self.fraktivitaeten[i];
            let ghost prev = texts(entries@);
            proof {
                assert(fs.subrange(0, i + 1).drop_last() =~= fs.subrange(0, i as int));
                assert(fs.subrange(0, i + 1).last() == fs[i as int]);
            }
            match &frak.zuteilung {
                Some(zu) => {
                    assert(zu.1.finish() < points.len());
                    let (punkt, ende) = self.manager.zeitraum_to_string(&zu.1);
                    let mut entry = String::new();
                    entry.append("{ \"name\": \"");
                    entry.append(frak.name.as_str());
                    entry.append("\" , \"raum\": \"");
                    entry.append(zu.0.get_name().as_str());
                    entry.append("\" , \"start\": \"");
                    entry.append(punkt.as_str());
                    entry.append("\" , \"ende\": \"");
                    entry.append(ende.as_str());
                    entry.append("\"} \n");
                    proof {
                        assert(entry@ =~= placed_entry(fs[i as int], points));
                    }
                    entries.push(entry);
                    assert(texts(entries@) =~= prev.push(placed_entry(fs[i as int], points)));
                },
                None => {
                    assert(texts(entries@) =~= prev);
                },
            }
            i = i + 1;
        }
        assert(fs.subrange(0, i as int) =~= fs);
        json_list(&entries)
    }

    /// The names of the participants, each written as by `{:?}`, as a list.
    pub fn json_teilnehmer(&self) -> (res: String)
        ensures
            res@ == json_array(
                Seq::new(self.personen@.len(), |i: int| debug_text(self.personen@[i]@)),
            ),
    {
        let mut items: Vec<String> = Vec::new();
        for i in 0..self.personen.len()
            invariant
                texts(items@) == Seq::new(i as nat, |k: int| debug_text(self.personen@[k]@)),
        {
            let ghost prev = texts(items@);
            let d = debug_string(&self.personen[i].get_name());
            assert(d@ == debug_text(self.personen@[i as int]@));
            items.push(d);
            assert(texts(items@) =~= prev.push(d@));
            assert(texts(items@) =~= Seq::new((i + 1) as nat, |k: int| debug_text(self.personen@[k]@)));
        }
        json_list(&items)
    }

    /// The names of the rooms, each written as by `{:?}`, as a list.
    pub fn json_raum(&self) -> (res: String)
        ensures
            res@ == json_array(Seq::new(self.raume@.len(), |i: int| debug_text(self.raume@[i]@))),
    {
        let mut items: Vec<String> = Vec::new();
        for i in 0..self.raume.len()
            invariant
                texts(items@) == Seq::new(i as nat, |k: int| debug_text(self.raume@[k]@)),
        {
            let ghost prev = texts(items@);
            let d = debug_string(&self.raume[i].get_name());
            assert(d@ == debug_text(self.raume@[i as int]@));
            items.push(d);
            assert(texts(items@) =~= prev.push(d@));
            assert(texts(items@) =~= Seq::new((i + 1) as nat, |k: int| debug_text(self.raume@[k]@)));
        }
        json_list(&items)
    }
}

} // verus!
