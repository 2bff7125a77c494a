//! The placed activities in order of their names, as a printed plan lists
//! them.
use vstd::prelude::*;

use super::{Fraktivitaet, FraktivitaetManager};
use super::json::placements_in_day;
use super::raum::Raum;
use crate::text::chars_of;

verus! {

/// `a` comes before `b` in the order of strings (character by character
/// from position `i` on; a proper prefix comes first).
pub open spec fn text_lt_from(a: Seq<char>, b: Seq<char>, i: int) -> bool
    decreases a.len() - i,
{
    if i >= a.len() {
        i < b.len()
    } else if i >= b.len() {
        false
    } else if a[i] != b[i] {
        (a[i] as u32) < (b[i] as u32)
    } else {
        text_lt_from(a, b, i + 1)
    }
}

/// `a` comes before `b` in the order of strings.
pub open spec fn text_lt(a: Seq<char>, b: Seq<char>) -> bool {
    text_lt_from(a, b, 0)
}

/// Different characters have different codes.
proof fn lemma_char_codes(c: char, d: char)
    ensures
        c != d ==> (c as u32) != (d as u32),
{
}

/// No string comes before itself.
proof fn lemma_text_irreflexive(a: Seq<char>, i: int)
    ensures
        !text_lt_from(a, a, i),
    decreases a.len() - i,
{
    if i < a.len() {
        lemma_text_irreflexive(a, i + 1);
    }
}

/// Of two strings, at most one comes before the other.
proof fn lemma_text_asymmetric(a: Seq<char>, b: Seq<char>, i: int)
    ensures
        text_lt_from(a, b, i) ==> !text_lt_from(b, a, i),
    decreases a.len() - i,
{
    if i < a.len() && i < b.len() && a[i] == b[i] {
        lemma_text_asymmetric(a, b, i + 1);
    }
}

/// The order of strings is transitive.
proof fn lemma_text_transitive(a: Seq<char>, b: Seq<char>, c: Seq<char>, i: int)
    ensures
        text_lt_from(a, b, i) && text_lt_from(b, c, i) ==> text_lt_from(a, c, i),
    decreases a.len() - i,
{
    if i < a.len() && i < b.len() && i < c.len() && a[i] == b[i] && b[i] == c[i] {
        lemma_text_transitive(a, b, c, i + 1);
    }
}

/// Of two different strings that agree before `i`, one comes before the
/// other.
proof fn lemma_text_total(a: Seq<char>, b: Seq<char>, i: int)
    requires
        0 <= i,
        a != b,
        forall|j: int| 0 <= j < i ==> a[j] == b[j],
        i <= a.len(),
        i <= b.len(),
    ensures
        text_lt_from(a, b, i) || text_lt_from(b, a, i),
    decreases a.len() - i,
{
    if i < a.len() && i < b.len() && a[i] == b[i] {
        lemma_text_total(a, b, i + 1);
    } else if i >= a.len() && i >= b.len() {
        assert(a =~= b);
    } else if i < a.len() && i < b.len() {
        lemma_char_codes(a[i], b[i]);
    }
}

/// The order of strings is irreflexive, asymmetric, transitive and total.
pub proof fn lemma_text_order(a: Seq<char>, b: Seq<char>, c: Seq<char>)
    ensures
        !text_lt(a, a),
        text_lt(a, b) ==> !text_lt(b, a),
        text_lt(a, b) && text_lt(b, c) ==> text_lt(a, c),
        a != b ==> text_lt(a, b) || text_lt(b, a),
{
    lemma_text_irreflexive(a, 0);
    lemma_text_asymmetric(a, b, 0);
    lemma_text_transitive(a, b, c, 0);
    if a != b {
        lemma_text_total(a, b, 0);
    }
}

/// `a` comes before `b` in the order of strings.
pub fn text_lt_exec(a: &String, b: &String) -> (res: bool)
    ensures
        res == text_lt(a@, b@),
{
    let x = chars_of(a.as_str());
    let y = chars_of(b.as_str());
    let mut i: usize = 0;
    while i < x.len() && i < y.len() && x[i] == y[i]
        invariant
            i <= x@.len(),
            i <= y@.len(),
            x@ == a@,
            y@ == b@,
            text_lt_from(a@, b@, 0) == text_lt_from(a@, b@, i as int),
        decreases x@.len() - i,
    {
        i = i + 1;
    }
    if i == x.len() {
        i < y.len()
    } else if i == y.len() {
        false
    } else {
        (x[i] as u32) < (y[i] as u32)
    }
}

/// Activity number `i` comes before activity number `j` when listed by
/// name: by name, and by position for equal names.
pub open spec fn listed_before(fs: Seq<Fraktivitaet>, i: int, j: int) -> bool {
    text_lt(fs[i].name@, fs[j].name@) || (fs[i].name@ == fs[j].name@ && i < j)
}

/// `order` lists the placed activities of `fs`, each once, by name, and by
/// position among equal names.
pub open spec fn by_name(fs: Seq<Fraktivitaet>, order: Seq<int>) -> bool {
    &&& forall|k: int| 0 <= k < order.len() ==> 0 <= #[trigger] order[k] < fs.len() && fs[order[k]].zuteilung is Some
    &&& forall|i: int| 0 <= i < fs.len() && (#[trigger] fs[i]).zuteilung is Some ==> order.contains(i)
    &&& forall|k: int, l: int| 0 <= k < l < order.len() ==> listed_before(fs, #[trigger] order[k], #[trigger] order[l])
}

/// The listing of a placed activity: its name, its room and the clock texts
/// of its start and end.
pub open spec fn listed_as(
    entry: (String, Raum, String, String),
    f: Fraktivitaet,
    points: Seq<Seq<char>>,
) -> bool {
    let z = f.zuteilung.unwrap();
    &&& entry.0@ == f.name@
    &&& entry.1 == z.0
    &&& entry.2@ == points[z.1.begin()]
    &&& entry.3@ == points[z.1.finish()]
}

/// There is one way only to list the placed activities by name.
pub proof fn lemma_by_name_unique(fs: Seq<Fraktivitaet>, o1: Seq<int>, o2: Seq<int>)
    requires
        by_name(fs, o1),
        by_name(fs, o2),
    ensures
        o1 == o2,
    decreases o1.len() + o2.len(),
{
    if o1.len() > 0 && o2.len() > 0 {
        let x = o1[0];
        let y = o2[0];
        if x != y {
            // each first element comes before every other one
            assert(o2.contains(x));
            let kx = choose|k: int| 0 <= k < o2.len() && o2[k] == x;
            assert(o1.contains(y));
            let ky = choose|k: int| 0 <= k < o1.len() && o1[k] == y;
            assert(listed_before(fs, o2[0], o2[kx]));
            assert(listed_before(fs, o1[0], o1[ky]));
            lemma_text_order(fs[x].name@, fs[y].name@, fs[x].name@);
            lemma_text_order(fs[y].name@, fs[x].name@, fs[y].name@);
            assert(false);
        }
        let r1 = o1.drop_first();
        let r2 = o2.drop_first();
        let gs = fs.update(x, Fraktivitaet { zuteilung: None, ..fs[x] });
        assert forall|k: int, l: int| 0 <= k < l < r1.len() implies listed_before(gs, #[trigger] r1[k], #[trigger] r1[l]) by {
            assert(r1[k] == o1[k + 1] && r1[l] == o1[l + 1]);
            assert(listed_before(fs, o1[k + 1], o1[l + 1]));
        }
        assert forall|k: int, l: int| 0 <= k < l < r2.len() implies listed_before(gs, #[trigger] r2[k], #[trigger] r2[l]) by {
            assert(r2[k] == o2[k + 1] && r2[l] == o2[l + 1]);
            assert(listed_before(fs, o2[k + 1], o2[l + 1]));
        }
        assert forall|k: int| 0 <= k < r1.len() implies 0 <= #[trigger] r1[k] < gs.len() && gs[r1[k]].zuteilung is Some by {
            assert(r1[k] == o1[k + 1]);
            assert(listed_before(fs, o1[0], o1[k + 1]));
            if o1[k + 1] == x {
                lemma_text_order(fs[x].name@, fs[x].name@, fs[x].name@);
            }
        }
        assert forall|k: int| 0 <= k < r2.len() implies 0 <= #[trigger] r2[k] < gs.len() && gs[r2[k]].zuteilung is Some by {
            assert(r2[k] == o2[k + 1]);
            assert(listed_before(fs, o2[0], o2[k + 1]));
            if o2[k + 1] == x {
                lemma_text_order(fs[x].name@, fs[x].name@, fs[x].name@);
            }
        }
        assert forall|i: int| 0 <= i < gs.len() && (#[trigger] gs[i]).zuteilung is Some implies r1.contains(i) && r2.contains(i) by {
            assert(i != x);
            assert(fs[i] == gs[i]);
            assert(o1.contains(i));
            assert(o2.contains(i));
            let k1 = choose|k: int| 0 <= k < o1.len() && o1[k] == i;
            let k2 = choose|k: int| 0 <= k < o2.len() && o2[k] == i;
            assert(r1[k1 - 1] == i);
            assert(r2[k2 - 1] == i);
        }
        assert(forall|i: int, j: int| 0 <= i < fs.len() && 0 <= j < fs.len() ==> (listed_before(gs, i, j) == listed_before(fs, i, j)));
        lemma_by_name_unique(gs, r1, r2);
        assert(o1 =~= seq![x] + r1);
        assert(o2 =~= seq![x] + r2);
    } else if o1.len() > 0 {
        assert(o2.contains(o1[0]));
    } else if o2.len() > 0 {
        assert(o1.contains(o2[0]));
    }
}

impl FraktivitaetManager {
    /// The placed activities ordered by name (equal names in their order),
    /// each with its room and the clock texts of its start and end.
    pub fn verteilung_by_name(&self) -> (res: Vec<(String, Raum, String, String)>)
        requires
            placements_in_day(self.fraktivitaeten@, self.manager.points()),
        ensures
            exists|order: Seq<int>|
                by_name(self.fraktivitaeten@, order) && order.len() == res@.len() && forall|k: int|
                    0 <= k < order.len() ==> listed_as(
                        #[trigger] res@[k],
                        self.fraktivitaeten@[order[k]],
                        self.manager.points(),
                    ),
    {
        let ghost fs = self.fraktivitaeten@;
        let ghost points = self.manager.points();
        let mut order: Vec<usize> = Vec::new();
        let mut i: usize = 0;
        while i < self.fraktivitaeten.len()
            invariant
                i <= fs.len(),
                fs == self.fraktivitaeten@,
                forall|k: int| 0 <= k < order@.len() ==> #[trigger] order@[k] < i && fs[order@[k] as int].zuteilung is Some,
                forall|j: int| 0 <= j < i && (#[trigger] fs[j]).zuteilung is Some ==> order@.contains(j as usize),
                forall|k: int, l: int| 0 <= k < l < order@.len() ==> listed_before(fs, #[trigger] order@[k] as int, #[trigger] order@[l] as int),
            decreases fs.len() - i,
        {
            if self.fraktivitaeten[i].zuteilung.is_some() {
                // the new activity goes after every one whose name is not greater
                let mut p: usize = 0;
                while p < order.len() && !text_lt_exec(&self.fraktivitaeten[i].name, &self.fraktivitaeten[order[p]].name)
                    invariant
                        p <= order@.len(),
                        i < fs.len(),
                        fs == self.fraktivitaeten@,
                        forall|k: int| 0 <= k < order@.len() ==> #[trigger] order@[k] < i,
                        forall|k: int, l: int| 0 <= k < l < order@.len() ==> listed_before(fs, #[trigger] order@[k] as int, #[trigger] order@[l] as int),
                        forall|k: int| 0 <= k < p ==> !text_lt(fs[i as int].name@, fs[#[trigger] order@[k] as int].name@),
                    decreases order@.len() - p,
                {
                    p = p + 1;
                }
                let ghost old_order = order@;
                order.insert(p, i);
                proof {
                    old_order.insert_ensures(p as int, i);
                    assert forall|k: int, l: int| 0 <= k < l < order@.len() implies listed_before(fs, #[trigger] order@[k] as int, #[trigger] order@[l] as int) by {
                        let a = fs[order@[k] as int].name@;
                        let b = fs[order@[l] as int].name@;
                        if k < p && l == p {
                            // names before p are not greater
                            lemma_text_order(a, fs[i as int].name@, a);
                        } else if k == p && l > p {
                            if p < old_order.len() {
                                assert(text_lt(fs[i as int].name@, fs[old_order[p as int] as int].name@));
                                if l - 1 > p {
                                    assert(listed_before(fs, old_order[p as int] as int, old_order[l - 1] as int));
                                    lemma_text_order(fs[i as int].name@, fs[old_order[p as int] as int].name@, b);
                                }
                            }
                        } else if k < p && l > p {
                            assert(order@[k] == old_order[k]);
                            assert(order@[l] == old_order[l - 1]);
                        } else if k > p {
                            assert(order@[k] == old_order[k - 1]);
                            assert(order@[l] == old_order[l - 1]);
                        }
                    }
                    assert forall|j: int| 0 <= j < i + 1 && (#[trigger] fs[j]).zuteilung is Some implies order@.contains(j as usize) by {
                        if j < i {
                            let k = choose|k: int| 0 <= k < old_order.len() && old_order[k] == j as usize;
                            if k < p {
                                assert(order@[k] == j as usize);
                            } else {
                                assert(order@[k + 1] == j as usize);
                            }
                        } else {
                            assert(order@[p as int] == i);
                        }
                    }
                }
            }
            i = i + 1;
        }
        let mut res: Vec<(String, Raum, String, String)> = Vec::new();
        let mut k: usize = 0;
        while k < order.len()
            invariant
                k <= order@.len(),
                fs == self.fraktivitaeten@,
                points == self.manager.points(),
                placements_in_day(fs, points),
                forall|m: int| 0 <= m < order@.len() ==> #[trigger] order@[m] < fs.len() && fs[order@[m] as int].zuteilung is Some,
                res@.len() == k,
                forall|m: int| 0 <= m < k ==> listed_as(#[trigger] res@[m], fs[order@[m] as int], points),
            decreases order@.len() - k,
        {
            let f = &self.fraktivitaeten[order[k]];
            match &f.zuteilung {
                Some(z) => {
                    assert(z.1.finish() < points.len());
                    let (start, end) = self.manager.zeitraum_to_string(&z.1);
                    res.push((f.name.clone(), z.0.clone(), start, end));
                },
                None => {},
            }
            k = k + 1;
        }
        let ghost o = order@.map_values(|x: usize| x as int);
        assert(by_name(fs, o)) by {
            assert forall|j: int| 0 <= j < fs.len() && (#[trigger] fs[j]).zuteilung is Some implies o.contains(j) by {
                let m = choose|m: int| 0 <= m < order@.len() && order@[m] == j as usize;
                assert(o[m] == j);
            }
        }
        res
    }
}

} // verus!
