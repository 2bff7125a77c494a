//! Backtracking distribution of activities over rooms and start times.
use vstd::prelude::*;

pub mod json;
pub mod listing;
pub mod personen;
pub mod raum;
pub mod zeit;

use personen::Person;
use raum::{rooms_clash, Raum};
use zeit::{
    clock, day_points, dauer_position, duration_texts, durations_after, is_slot,
    lemma_time_text, lists_slots, names_position, position_of, reaches, time_ok, time_text, walk,
    Zeitdauer, Zeitmanager, Zeitpunkt, Zeitraum, SLOT_LIMIT,
};
use crate::{excluded, END, START, STEP};

verus! {

broadcast use vstd::seq_lib::group_to_multiset_ensures;

/// An activity: its duration, participants, possible rooms and start
/// points, set-up and clear-up time, and the room and period it is given.
#[derive(Debug)]
pub struct Fraktivitaet {
    pub name: String,
    pub dauer: Zeitdauer,
    pub teilnehmer: Vec<Person>,
    pub zuteilung: Option<(Raum, Zeitraum)>,
    pub starts: Vec<Zeitpunkt>,
    pub raume: Vec<Raum>,
    pub vorbereitung: Zeitdauer,
    pub nachbereitung: Zeitdauer,
}

/// Some person takes part in both lists.
pub open spec fn shares_person(a: Seq<Person>, b: Seq<Person>) -> bool {
    exists|i: int, j: int| 0 <= i < a.len() && 0 <= j < b.len() && a[i]@ == b[j]@
}

/// Activity `a` given `za` and activity `b` given `zb` cannot both take
/// place: their periods, each extended by its own clear-up time and the
/// set-up time of the other, overlap, and they share a room that clashes or
/// a participant.
pub open spec fn clash(
    a: Fraktivitaet,
    za: (Raum, Zeitraum),
    b: Fraktivitaet,
    zb: (Raum, Zeitraum),
) -> bool {
    let a_end = za.1.0.0 + za.1.1.0 + a.nachbereitung.0 + b.vorbereitung.0;
    let b_end = zb.1.0.0 + zb.1.1.0 + b.nachbereitung.0 + a.vorbereitung.0;
    &&& za.1.0.0 <= b_end
    &&& zb.1.0.0 <= a_end
    &&& (rooms_clash(za.0@, zb.0@) || shares_person(a.teilnehmer@, b.teilnehmer@))
}

/// Both activities are placed and their placements clash.
pub open spec fn conflict(a: Fraktivitaet, b: Fraktivitaet) -> bool {
    match (a.zuteilung, b.zuteilung) {
        (Some(za), Some(zb)) => clash(a, za, b, zb),
        _ => false,
    }
}

/// No two placed activities of `fs` clash.
pub open spec fn all_legal(fs: Seq<Fraktivitaet>) -> bool {
    forall|i: int, j: int| 0 <= i < j < fs.len() ==> !conflict(fs[i], fs[j])
}

/// `z` is a placement that `f` allows: one of its rooms, one of its start
/// points and its own duration.
pub open spec fn is_option(f: Fraktivitaet, z: (Raum, Zeitraum)) -> bool {
    &&& f.raume@.contains(z.0)
    &&& f.starts@.contains(z.1.0)
    &&& z.1.1 == f.dauer
}

/// `c` places every activity of `fs`: placed ones where they are, the others
/// at one of their options.
pub open spec fn completes(fs: Seq<Fraktivitaet>, c: Seq<(Raum, Zeitraum)>) -> bool {
    &&& c.len() == fs.len()
    &&& forall|i: int|
        0 <= i < fs.len() ==> match (#[trigger] fs[i]).zuteilung {
            Some(z) => c[i] == z,
            None => is_option(fs[i], c[i]),
        }
}

/// No two activities of `fs` clash when placed by `c`.
pub open spec fn plan_legal(fs: Seq<Fraktivitaet>, c: Seq<(Raum, Zeitraum)>) -> bool {
    forall|i: int, j: int| 0 <= i < j < fs.len() ==> !clash(fs[i], c[i], fs[j], c[j])
}

/// Some placement of all activities of `fs` that keeps the placed ones is
/// free of clashes.
pub open spec fn solvable(fs: Seq<Fraktivitaet>) -> bool {
    exists|c: Seq<(Raum, Zeitraum)>| completes(fs, c) && plan_legal(fs, c)
}

/// Every activity of `fs` is placed.
pub open spec fn all_placed(fs: Seq<Fraktivitaet>) -> bool {
    forall|i: int| 0 <= i < fs.len() ==> (#[trigger] fs[i]).zuteilung is Some
}

/// The placements of `fs` (meaningful when all are placed).
pub open spec fn placements(fs: Seq<Fraktivitaet>) -> Seq<(Raum, Zeitraum)> {
    Seq::new(fs.len(), |i: int| fs[i].zuteilung.unwrap())
}

/// The number of activities of `fs` without a placement.
pub open spec fn unplaced(fs: Seq<Fraktivitaet>) -> nat
    decreases fs.len(),
{
    if fs.len() == 0 {
        0
    } else {
        unplaced(fs.drop_last()) + if fs.last().zuteilung is None {
            1nat
        } else {
            0nat
        }
    }
}

/// `a` and `b` agree on everything but the order of their start points and
/// their placement.
pub open spec fn same_frame(a: Fraktivitaet, b: Fraktivitaet) -> bool {
    &&& a.name == b.name
    &&& a.dauer == b.dauer
    &&& a.teilnehmer == b.teilnehmer
    &&& a.raume == b.raume
    &&& a.vorbereitung == b.vorbereitung
    &&& a.nachbereitung == b.nachbereitung
    &&& a.starts@.to_multiset() == b.starts@.to_multiset()
}

/// `g` is `f` up to the order of start points of activities that were not
/// placed in `f`, and up to placements of such activities.
pub open spec fn kept(f: Seq<Fraktivitaet>, g: Seq<Fraktivitaet>) -> bool {
    &&& f.len() == g.len()
    &&& forall|i: int| 0 <= i < f.len() ==> same_frame(#[trigger] f[i], g[i])
    &&& forall|i: int| 0 <= i < f.len() && (#[trigger] f[i]).zuteilung is Some ==> g[i] == f[i]
}

/// `f` and `g` agree up to the order of start points.
pub open spec fn alike(f: Seq<Fraktivitaet>, g: Seq<Fraktivitaet>) -> bool {
    &&& f.len() == g.len()
    &&& forall|i: int| 0 <= i < f.len() ==> same_frame(#[trigger] f[i], g[i])
    &&& forall|i: int| 0 <= i < f.len() ==> (#[trigger] g[i]).zuteilung == f[i].zuteilung
}

/// `kept` with the same placements.
pub open spec fn kept_unplaced(f: Seq<Fraktivitaet>, g: Seq<Fraktivitaet>) -> bool {
    &&& kept(f, g)
    &&& forall|i: int| 0 <= i < f.len() ==> (#[trigger] g[i]).zuteilung == f[i].zuteilung
}

/// A copy of a list of persons.
fn copy_persons(v: &Vec<Person>) -> (res: Vec<Person>)
    ensures
        res@ == v@,
{
    let mut res: Vec<Person> = Vec::new();
    for i in 0..v.len()
        invariant
            res@ == v@.subrange(0, i as int),
    {
        res.push(v[i].clone());
        assert(res@ =~= v@.subrange(0, i + 1));
    }
    assert(v@.subrange(0, v@.len() as int) =~= v@);
    res
}

/// A copy of a list of rooms.
fn copy_raume(v: &Vec<Raum>) -> (res: Vec<Raum>)
    ensures
        res@ == v@,
{
    let mut res: Vec<Raum> = Vec::new();
    for i in 0..v.len()
        invariant
            res@ == v@.subrange(0, i as int),
    {
        res.push(v[i].clone());
        assert(res@ =~= v@.subrange(0, i + 1));
    }
    assert(v@.subrange(0, v@.len() as int) =~= v@);
    res
}

/// A copy of a list of start points.
fn copy_starts(v: &Vec<Zeitpunkt>) -> (res: Vec<Zeitpunkt>)
    ensures
        res@ == v@,
{
    let mut res: Vec<Zeitpunkt> = Vec::new();
    for i in 0..v.len()
        invariant
            res@ == v@.subrange(0, i as int),
    {
        res.push(v[i]);
        assert(res@ =~= v@.subrange(0, i + 1));
    }
    assert(v@.subrange(0, v@.len() as int) =~= v@);
    res
}

impl Clone for Fraktivitaet {
    fn clone(&self) -> (res: Self)
        ensures
            res.name@ == self.name@,
            res.dauer == self.dauer,
            res.teilnehmer@ == self.teilnehmer@,
            res.zuteilung == self.zuteilung,
            res.starts@ == self.starts@,
            res.raume@ == self.raume@,
            res.vorbereitung == self.vorbereitung,
            res.nachbereitung == self.nachbereitung,
    {
        let zuteilung = match &self.zuteilung {
            Some(z) => Some((z.0.clone(), z.1)),
            None => None,
        };
        Fraktivitaet {
            name: self.name.clone(),
            dauer: self.dauer,
            teilnehmer: copy_persons(&self.teilnehmer),
            zuteilung,
            starts: copy_starts(&self.starts),
            raume: copy_raume(&self.raume),
            vorbereitung: self.vorbereitung,
            nachbereitung: self.nachbereitung,
        }
    }
}

impl Fraktivitaet {
    /// Every time value of the activity lies below `SLOT_LIMIT`.
    pub open spec fn fits(self) -> bool {
        &&& self.dauer.0 < SLOT_LIMIT
        &&& self.vorbereitung.0 < SLOT_LIMIT
        &&& self.nachbereitung.0 < SLOT_LIMIT
        &&& forall|k: int| 0 <= k < self.starts@.len() ==> (#[trigger] self.starts@[k]).0 < SLOT_LIMIT
        &&& self.zuteilung matches Some(z) ==> z.1.0.0 < SLOT_LIMIT && z.1.1.0 < SLOT_LIMIT
    }

    pub fn new(
        name: &str,
        dauer: Zeitdauer,
        teilnehmer: Vec<Person>,
        zuteilung: Option<(Raum, Zeitraum)>,
        starts: Vec<Zeitpunkt>,
        raume: Vec<Raum>,
        vorbereitung: Zeitdauer,
        nachbereitung: Zeitdauer,
    ) -> (res: Self)
        ensures
            res.name@ == name@,
            res.dauer == dauer,
            res.teilnehmer == teilnehmer,
            res.zuteilung == zuteilung,
            res.starts == starts,
            res.raume == raume,
            res.vorbereitung == vorbereitung,
            res.nachbereitung == nachbereitung,
    {
        let name = name.to_owned();
        Self { name, dauer, teilnehmer, zuteilung, starts, raume, vorbereitung, nachbereitung }
    }

    /// Both activities are placed and cannot take place as placed.
    pub fn ueberschneidung(&self, other: &Self) -> (res: bool)
        requires
            self.fits(),
            other.fits(),
        ensures
            res == conflict(*self, *other),
    {
        match (&self.zuteilung, &other.zuteilung) {
            (Some(s), Some(o)) => {
                let d1 = s.1.add_dauer(&self.nachbereitung).add_dauer(&other.vorbereitung);
                let d2 = o.1.add_dauer(&other.nachbereitung).add_dauer(&self.vorbereitung);
                d1.overlapping(&d2) && (s.0.ueberschneidung(&o.0) || persons_shared(
                    &self.teilnehmer,
                    &other.teilnehmer,
                ))
            },
            _ => false,
        }
    }
}

/// Whether two activities clash does not depend on the order in which
/// they are compared.
pub proof fn lemma_conflict_symmetric(a: Fraktivitaet, b: Fraktivitaet)
    ensures
        conflict(a, b) == conflict(b, a),
{
    if let (Some(za), Some(zb)) = (a.zuteilung, b.zuteilung) {
        raum::lemma_rooms_clash_symmetric(za.0@, zb.0@);
        if shares_person(a.teilnehmer@, b.teilnehmer@) {
            let (i, j) = choose|i: int, j: int|
                0 <= i < a.teilnehmer@.len() && 0 <= j < b.teilnehmer@.len() && a.teilnehmer@[i]@
                    == b.teilnehmer@[j]@;
            assert(b.teilnehmer@[j]@ == a.teilnehmer@[i]@);
        }
        if shares_person(b.teilnehmer@, a.teilnehmer@) {
            let (i, j) = choose|i: int, j: int|
                0 <= i < b.teilnehmer@.len() && 0 <= j < a.teilnehmer@.len() && b.teilnehmer@[i]@
                    == a.teilnehmer@[j]@;
            assert(a.teilnehmer@[j]@ == b.teilnehmer@[i]@);
        }
    }
}

/// Two placed activities that start at the same time in the same room,
/// other than the shared rooms Deck1, Deck2 and Sonstiges, make the
/// placements illegal.
pub proof fn lemma_same_room_same_start_illegal(fs: Seq<Fraktivitaet>, i: int, j: int)
    requires
        0 <= i < j < fs.len(),
        fs[i].zuteilung is Some,
        fs[j].zuteilung is Some,
        fs[i].zuteilung.unwrap().0@ == fs[j].zuteilung.unwrap().0@,
        fs[i].zuteilung.unwrap().0@ != "Deck1"@,
        fs[i].zuteilung.unwrap().0@ != "Deck2"@,
        fs[i].zuteilung.unwrap().0@ != "Sonstiges"@,
        fs[i].zuteilung.unwrap().1.0 == fs[j].zuteilung.unwrap().1.0,
    ensures
        conflict(fs[i], fs[j]),
        !all_legal(fs),
{
    raum::lemma_rooms_clash_cases(fs[i].zuteilung.unwrap().0@, fs[i].zuteilung.unwrap().0@);
    assert(conflict(fs[i], fs[j]));
}

/// Some person takes part in both lists.
pub fn persons_shared(a: &Vec<Person>, b: &Vec<Person>) -> (res: bool)
    ensures
        res == shares_person(a@, b@),
{
    for i in 0..a.len()
        invariant
            forall|x: int, y: int| 0 <= x < i && 0 <= y < b@.len() ==> a@[x]@ != b@[y]@,
    {
        for j in 0..b.len()
            invariant
                i < a@.len(),
                forall|x: int, y: int| 0 <= x < i && 0 <= y < b@.len() ==> a@[x]@ != b@[y]@,
                forall|y: int| 0 <= y < j ==> a@[i as int]@ != b@[y]@,
        {
            if a[i].same(&b[j]) {
                return true;
            }
        }
    }
    false
}

/// The activities are ordered by non-increasing duration.
pub open spec fn by_duration(fs: Seq<Fraktivitaet>) -> bool {
    forall|i: int, j: int| 0 <= i < j < fs.len() ==> fs[i].dauer.0 >= fs[j].dauer.0
}

/// The activities, the known participants and rooms, and the day plan.
#[derive(Debug)]
pub struct FraktivitaetManager {
    pub personen: Vec<Person>,
    pub raume: Vec<Raum>,
    pub fraktivitaeten: Vec<Fraktivitaet>,
    pub manager: Zeitmanager,
}

impl FraktivitaetManager {
    /// Well-formedness: a well-formed day plan, activities ordered by
    /// non-increasing duration, and time values below `SLOT_LIMIT`.
    pub open spec fn wf(&self) -> bool {
        &&& self.manager.wf()
        &&& self.fraktivitaeten@.len() <= SLOT_LIMIT
        &&& forall|i: int|
            0 <= i < self.fraktivitaeten@.len() ==> (#[trigger] self.fraktivitaeten@[i]).fits()
        &&& by_duration(self.fraktivitaeten@)
    }

    /// No two placed activities clash.
    pub fn legal(&self) -> (res: bool)
        requires
            forall|i: int|
                0 <= i < self.fraktivitaeten@.len() ==> (#[trigger] self.fraktivitaeten@[i]).fits(),
        ensures
            res == all_legal(self.fraktivitaeten@),
    {
        let n = self.fraktivitaeten.len();
        if n == 0 {
            return true;
        }
        let mut i: usize = 0;
        while i < n - 1
            invariant
                n == self.fraktivitaeten@.len(),
                0 < n,
                i <= n - 1,
                forall|k: int| 0 <= k < n ==> (#[trigger] self.fraktivitaeten@[k]).fits(),
                forall|a: int, b: int|
                    0 <= a < i && a < b < n ==> !conflict(
                        self.fraktivitaeten@[a],
                        self.fraktivitaeten@[b],
                    ),
            decreases n - i,
        {
            let mut j: usize = i + 1;
            while j < n
                invariant
                    n == self.fraktivitaeten@.len(),
                    i < n - 1,
                    i < j <= n,
                    forall|k: int| 0 <= k < n ==> (#[trigger] self.fraktivitaeten@[k]).fits(),
                    forall|a: int, b: int|
                        0 <= a < i && a < b < n ==> !conflict(
                            self.fraktivitaeten@[a],
                            self.fraktivitaeten@[b],
                        ),
                    forall|b: int|
                        i < b < j ==> !conflict(self.fraktivitaeten@[i as int], self.fraktivitaeten@[b]),
                decreases n - j,
            {
                if self.fraktivitaeten[i].ueberschneidung(&self.fraktivitaeten[j]) {
                    return false;
                }
                j = j + 1;
            }
            i = i + 1;
        }
        true
    }
}

/// Unplaced activities keep the same count under `kept_unplaced`.
pub proof fn lemma_unplaced_same(f: Seq<Fraktivitaet>, g: Seq<Fraktivitaet>)
    requires
        f.len() == g.len(),
        forall|i: int| 0 <= i < f.len() ==> ((#[trigger] f[i]).zuteilung is None) == (g[i].zuteilung is None),
    ensures
        unplaced(f) == unplaced(g),
    decreases f.len(),
{
    if f.len() > 0 {
        lemma_unplaced_same(f.drop_last(), g.drop_last());
    }
}

/// Placing one unplaced activity lowers the count of unplaced ones by one.
pub proof fn lemma_unplaced_place(f: Seq<Fraktivitaet>, k: int, x: Fraktivitaet)
    requires
        0 <= k < f.len(),
        f[k].zuteilung is None,
        x.zuteilung is Some,
    ensures
        unplaced(f.update(k, x)) + 1 == unplaced(f),
    decreases f.len(),
{
    let g = f.update(k, x);
    if k == f.len() - 1 {
        assert(g.drop_last() =~= f.drop_last());
    } else {
        lemma_unplaced_place(f.drop_last(), k, x);
        assert(g.drop_last() =~= f.drop_last().update(k, x));
    }
}

/// Equal multisets of start points hold the same start points.
pub proof fn lemma_same_starts(a: Seq<Zeitpunkt>, b: Seq<Zeitpunkt>, x: Zeitpunkt)
    requires
        a.to_multiset() == b.to_multiset(),
    ensures
        a.contains(x) == b.contains(x),
{
    a.to_multiset_ensures();
    b.to_multiset_ensures();
    assert(a.to_multiset().count(x) == b.to_multiset().count(x));
    assert(a.contains(x) <==> a.to_multiset().count(x) > 0);
    assert(b.contains(x) <==> b.to_multiset().count(x) > 0);
}

/// `kept` is transitive.
pub proof fn lemma_kept_trans(f: Seq<Fraktivitaet>, g: Seq<Fraktivitaet>, h: Seq<Fraktivitaet>)
    requires
        kept(f, g),
        kept(g, h),
    ensures
        kept(f, h),
        kept_unplaced(f, g) && kept_unplaced(g, h) ==> kept_unplaced(f, h),
{
    assert forall|i: int| 0 <= i < f.len() && (#[trigger] f[i]).zuteilung is Some implies h[i]
        == f[i] by {
        assert(g[i] == f[i]);
    }
    assert forall|i: int| 0 <= i < f.len() implies same_frame(#[trigger] f[i], h[i]) by {
        assert(same_frame(f[i], g[i]));
        assert(same_frame(g[i], h[i]));
    }
}

/// Sequences that agree up to the order of start points have the same completions, legal plans and
/// legality, and the same order by duration.
pub proof fn lemma_kept_unplaced(f: Seq<Fraktivitaet>, g: Seq<Fraktivitaet>, c: Seq<(Raum, Zeitraum)>)
    requires
        alike(f, g),
    ensures
        completes(f, c) == completes(g, c),
        plan_legal(f, c) == plan_legal(g, c),
        all_legal(f) == all_legal(g),
        by_duration(f) == by_duration(g),
{
    assert forall|i: int| 0 <= i < f.len() implies #[trigger] f[i].starts@.contains(c[i].1.0) == g[i].starts@.contains(c[i].1.0) by {
        assert(same_frame(f[i], g[i]));
        lemma_same_starts(f[i].starts@, g[i].starts@, c[i].1.0);
    }
    assert(completes(f, c) == completes(g, c)) by {
        if completes(f, c) {
            assert forall|i: int| 0 <= i < g.len() implies match (#[trigger] g[i]).zuteilung {
                Some(z) => c[i] == z,
                None => is_option(g[i], c[i]),
            } by {
                assert(same_frame(f[i], g[i]));
                assert(f[i].starts@.contains(c[i].1.0) == g[i].starts@.contains(c[i].1.0));
            }
        }
        if completes(g, c) {
            assert forall|i: int| 0 <= i < f.len() implies match (#[trigger] f[i]).zuteilung {
                Some(z) => c[i] == z,
                None => is_option(f[i], c[i]),
            } by {
                assert(same_frame(f[i], g[i]));
                assert(f[i].starts@.contains(c[i].1.0) == g[i].starts@.contains(c[i].1.0));
            }
        }
    }
    assert(plan_legal(f, c) == plan_legal(g, c)) by {
        assert forall|i: int, j: int| 0 <= i < j < f.len() implies clash(f[i], c[i], f[j], c[j])
            == clash(g[i], c[i], g[j], c[j]) by {
            assert(same_frame(f[i], g[i]));
            assert(same_frame(f[j], g[j]));
        }
    }
    assert(all_legal(f) == all_legal(g)) by {
        assert forall|i: int, j: int| 0 <= i < j < f.len() implies conflict(f[i], f[j]) == conflict(
            g[i],
            g[j],
        ) by {
            assert(same_frame(f[i], g[i]));
            assert(same_frame(f[j], g[j]));
            assert(f[i].zuteilung == g[i].zuteilung);
            assert(f[j].zuteilung == g[j].zuteilung);
        }
    }
    assert(by_duration(f) == by_duration(g)) by {
        assert forall|i: int| 0 <= i < f.len() implies #[trigger] f[i].dauer == g[i].dauer by {
            assert(same_frame(f[i], g[i]));
        }
    }
}

/// Placing the unplaced activity `k` at its option `z`: the completions are
/// those of before that place `k` at `z`, and the legal plans are the same.
pub proof fn lemma_place(f: Seq<Fraktivitaet>, k: int, z: (Raum, Zeitraum), g: Seq<Fraktivitaet>, c: Seq<(Raum, Zeitraum)>)
    requires
        0 <= k < f.len(),
        f[k].zuteilung is None,
        is_option(f[k], z),
        g == f.update(k, Fraktivitaet { zuteilung: Some(z), ..f[k] }),
    ensures
        completes(g, c) == (completes(f, c) && c[k] == z),
        plan_legal(g, c) == plan_legal(f, c),
        kept(f, g),
{
    if completes(f, c) && c[k] == z {
        assert forall|i: int| 0 <= i < g.len() implies match (#[trigger] g[i]).zuteilung {
            Some(w) => c[i] == w,
            None => is_option(g[i], c[i]),
        } by {
            if i != k {
                assert(g[i] == f[i]);
            }
        }
    }
    if completes(g, c) {
        assert(g[k].zuteilung == Some(z));
        assert forall|i: int| 0 <= i < f.len() implies match (#[trigger] f[i]).zuteilung {
            Some(w) => c[i] == w,
            None => is_option(f[i], c[i]),
        } by {
            if i != k {
                assert(g[i] == f[i]);
            }
        }
    }
    assert forall|i: int, j: int| 0 <= i < j < f.len() implies clash(f[i], c[i], f[j], c[j]) == clash(
        g[i],
        c[i],
        g[j],
        c[j],
    ) by {}
    assert forall|i: int| 0 <= i < f.len() implies same_frame(#[trigger] f[i], g[i]) by {}
}

/// A clash among placed activities rules out every completion.
pub proof fn lemma_illegal(f: Seq<Fraktivitaet>, c: Seq<(Raum, Zeitraum)>)
    requires
        !all_legal(f),
        completes(f, c),
    ensures
        !plan_legal(f, c),
{
    let (i, j) = choose|i: int, j: int| 0 <= i < j < f.len() && conflict(f[i], f[j]);
    assert(f[i].zuteilung is Some && f[j].zuteilung is Some);
    assert(c[i] == f[i].zuteilung.unwrap());
    assert(c[j] == f[j].zuteilung.unwrap());
}

/// With every activity placed, the only completion is the placement itself.
pub proof fn lemma_all_placed(f: Seq<Fraktivitaet>)
    requires
        all_placed(f),
    ensures
        completes(f, placements(f)),
        solvable(f) == all_legal(f),
        all_legal(f) == plan_legal(f, placements(f)),
{
    let c = placements(f);
    assert(completes(f, c));
    assert forall|i: int, j: int| 0 <= i < j < f.len() implies #[trigger] conflict(f[i], f[j]) == clash(
        f[i],
        c[i],
        f[j],
        c[j],
    ) by {
        assert(f[i].zuteilung is Some);
        assert(f[j].zuteilung is Some);
        assert(c[i] == f[i].zuteilung.unwrap());
        assert(c[j] == f[j].zuteilung.unwrap());
    }
    if all_legal(f) {
        assert forall|i: int, j: int| 0 <= i < j < f.len() implies !clash(f[i], c[i], f[j], c[j]) by {
            assert(!conflict(f[i], f[j]));
        }
    }
    if plan_legal(f, c) {
        assert forall|i: int, j: int| 0 <= i < j < f.len() implies !conflict(f[i], f[j]) by {
            assert(!clash(f[i], c[i], f[j], c[j]));
        }
    }
    if solvable(f) {
        let d = choose|d: Seq<(Raum, Zeitraum)>| completes(f, d) && plan_legal(f, d);
        assert(d =~= c) by {
            assert forall|i: int| 0 <= i < f.len() implies d[i] == c[i] by {
                assert(f[i].zuteilung is Some);
            }
        }
    }
    if all_legal(f) {
        assert(completes(f, c) && plan_legal(f, c));
    }
}

/// How strongly period `a` competes with period `b`: 2 for the same start,
/// 1 for another overlap, 0 without overlap.
pub open spec fn overlap_value(a: Zeitraum, b: Zeitraum) -> nat {
    if a.meets(b) {
        if a.0 == b.0 {
            2
        } else {
            1
        }
    } else {
        0
    }
}

/// The sum of `overlap_value` of each placed activity of `fs` against the
/// period from `s` lasting `d`: the order key of start points.
pub open spec fn start_score(fs: Seq<Fraktivitaet>, s: Zeitpunkt, d: Zeitdauer) -> nat
    decreases fs.len(),
{
    if fs.len() == 0 {
        0
    } else {
        start_score(fs.drop_last(), s, d) + match fs.last().zuteilung {
            Some(z) => overlap_value(z.1, Zeitraum(s, d)),
            None => 0,
        }
    }
}

impl FraktivitaetManager {
    /// How strongly period `zeit1` competes with period `zeit2`.
    pub fn zuteilung_time_value(zeit1: Zeitraum, zeit2: &Zeitraum) -> (res: usize)
        requires
            zeit1.fits(),
            zeit2.fits(),
        ensures
            res == overlap_value(zeit1, *zeit2),
    {
        if zeit1.overlapping(&zeit2) {
            return if zeit1.0 == zeit2.0 {
                2
            } else {
                1
            };
        }
        return 0;
    }
}

/// The order key of the start point `s` for an activity lasting `d`.
fn start_score_exec(fs: &Vec<Fraktivitaet>, s: Zeitpunkt, d: Zeitdauer) -> (res: usize)
    requires
        fs@.len() <= SLOT_LIMIT,
        forall|i: int| 0 <= i < fs@.len() ==> (#[trigger] fs@[i]).fits(),
        s.0 < SLOT_LIMIT,
        d.0 < SLOT_LIMIT,
    ensures
        res == start_score(fs@, s, d),
{
    let mut acc: usize = 0;
    let mut i: usize = 0;
    while i < fs.len()
        invariant
            i <= fs@.len() <= SLOT_LIMIT,
            forall|k: int| 0 <= k < fs@.len() ==> (#[trigger] fs@[k]).fits(),
            s.0 < SLOT_LIMIT,
            d.0 < SLOT_LIMIT,
            acc == start_score(fs@.subrange(0, i as int), s, d),
            acc <= 2 * i,
        decreases fs@.len() - i,
    {
        assert(fs@.subrange(0, i + 1).drop_last() =~= fs@.subrange(0, i as int));
        assert(fs@.subrange(0, i + 1).last() == fs@[i as int]);
        assert(fs@[i as int].fits());
        match &fs[i].zuteilung {
            Some(z) => {
                acc = acc + FraktivitaetManager::zuteilung_time_value(z.1, &Zeitraum::new(s, d));
            },
            None => {},
        }
        i = i + 1;
    }
    assert(fs@.subrange(0, i as int) =~= fs@);
    acc
}

/// Inserting an element adds it to the multiset of a sequence.
proof fn lemma_insert_multiset<A>(s: Seq<A>, p: int, x: A)
    requires
        0 <= p <= s.len(),
    ensures
        s.insert(p, x).to_multiset() == s.to_multiset().insert(x),
{
    let t = s.insert(p, x);
    s.insert_ensures(p, x);
    assert(t.remove(p) =~= s);
    t.to_multiset_ensures();
    assert(t[p] == x);
    assert(t.to_multiset().count(x) > 0);
    assert(t.to_multiset() =~= s.to_multiset().insert(x));
}

/// `idx` witnesses that `res` is `src` rearranged so that start points of
/// equal score keep their order: position `q` of `res` holds position
/// `idx[q]` of `src`, each position once.
pub open spec fn stable_witness(
    res: Seq<Zeitpunkt>,
    src: Seq<Zeitpunkt>,
    g: Seq<Fraktivitaet>,
    d: Zeitdauer,
    idx: Seq<int>,
) -> bool {
    &&& idx.len() == res.len()
    &&& forall|q: int| 0 <= q < idx.len() ==> 0 <= #[trigger] idx[q] < src.len() && res[q] == src[idx[q]]
    &&& forall|q1: int, q2: int| 0 <= q1 < q2 < idx.len() ==> #[trigger] idx[q1] != #[trigger] idx[q2]
    &&& forall|q1: int, q2: int|
        0 <= q1 < q2 < idx.len() && start_score(g, res[q1], d) == start_score(g, res[q2], d) ==> #[trigger] idx[q1]
            < #[trigger] idx[q2]
}

/// `res` is `src` sorted by `start_score` in `g` for an activity lasting
/// `d`, start points of equal score in their order in `src` (a stable sort).
pub open spec fn stably_sorted(res: Seq<Zeitpunkt>, src: Seq<Zeitpunkt>, g: Seq<Fraktivitaet>, d: Zeitdauer) -> bool {
    &&& res.len() == src.len()
    &&& forall|a1: int, a2: int|
        0 <= a1 < a2 < res.len() ==> start_score(g, #[trigger] res[a1], d) <= start_score(g, #[trigger] res[a2], d)
    &&& exists|idx: Seq<int>| #[trigger] stable_witness(res, src, g, d, idx)
}

/// `starts` sorted by `start_score` for an activity lasting `d`; start
/// points of equal score keep their order.
fn sorted_starts(starts: &Vec<Zeitpunkt>, fs: &Vec<Fraktivitaet>, d: Zeitdauer) -> (res: Vec<Zeitpunkt>)
    requires
        fs@.len() <= SLOT_LIMIT,
        forall|i: int| 0 <= i < fs@.len() ==> (#[trigger] fs@[i]).fits(),
        forall|k: int| 0 <= k < starts@.len() ==> (#[trigger] starts@[k]).0 < SLOT_LIMIT,
        d.0 < SLOT_LIMIT,
    ensures
        res@.to_multiset() == starts@.to_multiset(),
        stably_sorted(res@, starts@, fs@, d),
{
    let mut res: Vec<Zeitpunkt> = Vec::new();
    let mut keys: Vec<usize> = Vec::new();
    let mut i: usize = 0;
    let ghost mut idx: Seq<int> = Seq::empty();
    assert(starts@.subrange(0, 0) =~= Seq::<Zeitpunkt>::empty());
    while i < starts.len()
        invariant
            i <= starts@.len(),
            fs@.len() <= SLOT_LIMIT,
            forall|k: int| 0 <= k < fs@.len() ==> (#[trigger] fs@[k]).fits(),
            forall|k: int| 0 <= k < starts@.len() ==> (#[trigger] starts@[k]).0 < SLOT_LIMIT,
            d.0 < SLOT_LIMIT,
            res@.len() == keys@.len(),
            forall|k: int| 0 <= k < res@.len() ==> keys@[k] == start_score(fs@, #[trigger] res@[k], d),
            forall|a: int, b: int| 0 <= a < b < keys@.len() ==> keys@[a] <= keys@[b],
            res@.to_multiset() == starts@.subrange(0, i as int).to_multiset(),
            res@.len() == i,
            stable_witness(res@, starts@, fs@, d, idx),
            forall|q: int| 0 <= q < idx.len() ==> #[trigger] idx[q] < i,
        decreases starts@.len() - i,
    {
        let x = starts[i];
        let k = start_score_exec(fs, x, d);
        let mut p: usize = 0;
        while p < keys.len() && keys[p] <= k
            invariant
                p <= keys@.len(),
                forall|q: int| 0 <= q < p ==> keys@[q] <= k,
            decreases keys@.len() - p,
        {
            p = p + 1;
        }
        let ghost old_res = res@;
        let ghost old_keys = keys@;
        res.insert(p, x);
        keys.insert(p, k);
        proof {
            old_res.insert_ensures(p as int, x);
            old_keys.insert_ensures(p as int, k);
            lemma_insert_multiset(old_res, p as int, x);
            assert(starts@.subrange(0, i + 1) =~= starts@.subrange(0, i as int).push(x));
            assert forall|a: int, b: int| 0 <= a < b < keys@.len() implies keys@[a] <= keys@[b] by {
                if b < p {
                } else if b == p {
                } else if a < p {
                    assert(keys@[b] == old_keys[b - 1]);
                    if p < old_keys.len() {
                        assert(old_keys[p as int] > k);
                        assert(old_keys[p as int] <= old_keys[b - 1]);
                    }
                } else if a == p {
                    assert(keys@[b] == old_keys[b - 1]);
                    assert(old_keys[p as int] > k);
                    assert(old_keys[p as int] <= old_keys[b - 1]);
                } else {
                    assert(keys@[a] == old_keys[a - 1]);
                    assert(keys@[b] == old_keys[b - 1]);
                }
            }
            assert forall|q: int| 0 <= q < res@.len() implies keys@[q] == start_score(fs@, #[trigger] res@[q], d) by {
                if q < p {
                    assert(res@[q] == old_res[q]);
                } else if q > p {
                    assert(res@[q] == old_res[q - 1]);
                }
            }
            let old_idx = idx;
            idx = old_idx.insert(p as int, i as int);
            old_idx.insert_ensures(p as int, i as int);
            assert forall|q: int| 0 <= q < idx.len() implies 0 <= #[trigger] idx[q] < starts@.len() && res@[q] == starts@[idx[q]]
                && idx[q] < i + 1 by {
                if q < p {
                    assert(res@[q] == old_res[q]);
                    assert(idx[q] == old_idx[q]);
                } else if q > p {
                    assert(res@[q] == old_res[q - 1]);
                    assert(idx[q] == old_idx[q - 1]);
                }
            }
            assert forall|q1: int, q2: int| 0 <= q1 < q2 < idx.len() implies #[trigger] idx[q1] != #[trigger] idx[q2] by {
                if q1 != p && q2 != p {
                    let o1 = if q1 < p { q1 } else { q1 - 1 };
                    let o2 = if q2 < p { q2 } else { q2 - 1 };
                    assert(idx[q1] == old_idx[o1]);
                    assert(idx[q2] == old_idx[o2]);
                } else if q1 == p {
                    assert(idx[q2] == old_idx[q2 - 1]);
                } else {
                    assert(idx[q1] == old_idx[q1]);
                }
            }
            assert forall|q1: int, q2: int|
                0 <= q1 < q2 < idx.len() && start_score(fs@, res@[q1], d) == start_score(fs@, res@[q2], d) implies #[trigger] idx[q1]
                    < #[trigger] idx[q2] by {
                assert(keys@[q1] == start_score(fs@, res@[q1], d));
                assert(keys@[q2] == start_score(fs@, res@[q2], d));
                if q1 != p && q2 != p {
                    let o1 = if q1 < p { q1 } else { q1 - 1 };
                    let o2 = if q2 < p { q2 } else { q2 - 1 };
                    assert(idx[q1] == old_idx[o1]);
                    assert(idx[q2] == old_idx[o2]);
                    assert(res@[q1] == old_res[o1]);
                    assert(res@[q2] == old_res[o2]);
                } else if q1 == p {
                    assert(keys@[q2] == old_keys[q2 - 1]);
                    assert(old_keys[p as int] > k);
                    assert(old_keys[p as int] <= old_keys[q2 - 1]);
                } else {
                    assert(idx[q1] == old_idx[q1]);
                }
            }
        }
        i = i + 1;
    }
    assert(starts@.subrange(0, i as int) =~= starts@);
    assert(stable_witness(res@, starts@, fs@, d, idx));
    assert forall|a1: int, a2: int| 0 <= a1 < a2 < res@.len() implies start_score(fs@, #[trigger] res@[a1], d)
        <= start_score(fs@, #[trigger] res@[a2], d) by {
        assert(keys@[a1] <= keys@[a2]);
    }
    res
}

/// Position of the first activity without a placement, or `fs.len()`.
fn first_unplaced(fs: &Vec<Fraktivitaet>) -> (res: usize)
    ensures
        res <= fs@.len(),
        forall|j: int| 0 <= j < res ==> (#[trigger] fs@[j]).zuteilung is Some,
        res < fs@.len() ==> fs@[res as int].zuteilung is None,
{
    for i in 0..fs.len()
        invariant
            forall|j: int| 0 <= j < i ==> (#[trigger] fs@[j]).zuteilung is Some,
    {
        if fs[i].zuteilung.is_none() {
            return i;
        }
    }
    fs.len()
}

/// `z` is one of the placements tried before (`zi`, `ri`): a room of
/// `raume` at a start of `starts` before position `zi`, or at position `zi`
/// with a room before position `ri`.
pub open spec fn tried(z: (Raum, Zeitraum), starts: Seq<Zeitpunkt>, raume: Seq<Raum>, zi: int, ri: int) -> bool {
    exists|a: int, b: int|
        0 <= b < raume.len() && 0 <= a && (a < zi || (a == zi && b < ri)) && z.0 == raume[b] && z.1.0
            == starts[a]
}

/// `g` with its activity `k` placed in room `r` from start point `s`.
pub open spec fn place_at(g: Seq<Fraktivitaet>, k: int, r: Raum, s: Zeitpunkt) -> Seq<Fraktivitaet> {
    g.update(k, Fraktivitaet { zuteilung: Some((r, Zeitraum(s, g[k].dauer))), ..g[k] })
}

/// Placing activity `k` of `g` in room `r` from start point `s` is one of
/// its options, keeps the placements legal and still admits a legal
/// placement of all activities.
pub open spec fn viable(g: Seq<Fraktivitaet>, k: int, r: Raum, s: Zeitpunkt) -> bool {
    &&& g[k].raume@.contains(r)
    &&& g[k].starts@.contains(s)
    &&& all_legal(place_at(g, k, r, s))
    &&& solvable(place_at(g, k, r, s))
}

/// `order` holds the start points of activity `k` of `g`, ordered by how
/// little they compete with the placements of `g` (`start_score`).
pub open spec fn search_order(g: Seq<Fraktivitaet>, k: int, order: Seq<Zeitpunkt>) -> bool {
    &&& order.to_multiset() == g[k].starts@.to_multiset()
    &&& forall|a1: int, a2: int|
        0 <= a1 < a2 < order.len() ==> start_score(g, #[trigger] order[a1], g[k].dauer) <= start_score(
            g,
            #[trigger] order[a2],
            g[k].dauer,
        )
}

/// `z` is the first viable placement of activity `k` of `g` when start
/// points are tried in `order` and, for each, the rooms in list order; its
/// start point has the least `start_score` of all viable placements.
pub open spec fn first_viable(g: Seq<Fraktivitaet>, k: int, order: Seq<Zeitpunkt>, z: (Raum, Zeitraum)) -> bool {
    &&& z.1.1 == g[k].dauer
    &&& viable(g, k, z.0, z.1.0)
    &&& exists|a: int, b: int|
        0 <= a < order.len() && 0 <= b < g[k].raume@.len() && #[trigger] order[a] == z.1.0
            && #[trigger] g[k].raume@[b] == z.0 && forall|a2: int, b2: int|
            0 <= a2 < order.len() && 0 <= b2 < g[k].raume@.len() && (a2 < a || (a2 == a && b2 < b))
                ==> !viable(g, k, #[trigger] g[k].raume@[b2], #[trigger] order[a2])
    &&& forall|r: Raum, s: Zeitpunkt|
        #[trigger] viable(g, k, r, s) ==> start_score(g, z.1.0, g[k].dauer) <= start_score(g, s, g[k].dauer)
}

/// The activities as the search found them when it came to activity `j`,
/// given the activities `f` it started from and those `h` it ended with:
/// the activities from `j` on that `f` leaves unplaced are still unplaced,
/// the others are placed as in `h`.
pub open spec fn stage(f: Seq<Fraktivitaet>, h: Seq<Fraktivitaet>, j: int) -> Seq<Fraktivitaet> {
    Seq::new(f.len(), |i: int| if i >= j && f[i].zuteilung is None { f[i] } else { h[i] })
}

/// Each activity that `f` leaves unplaced is placed in `h` as the search
/// chose it: the search takes them in list order, orders the start points
/// of each by how little they compete with the activities placed before it
/// (the order `h` keeps), and takes the first viable placement.
pub open spec fn search_choices(f: Seq<Fraktivitaet>, h: Seq<Fraktivitaet>) -> bool {
    forall|j: int|
        0 <= j < f.len() && (#[trigger] f[j]).zuteilung is None ==> {
            &&& h[j].zuteilung is Some
            &&& search_order(stage(f, h, j), j, h[j].starts@)
            &&& first_viable(stage(f, h, j), j, h[j].starts@, h[j].zuteilung.unwrap())
        }
}

/// `k` is the first activity of `f` without a placement.
pub open spec fn first_unplaced_at(f: Seq<Fraktivitaet>, k: int) -> bool {
    &&& 0 <= k < f.len()
    &&& f[k].zuteilung is None
    &&& forall|i: int| 0 <= i < k ==> (#[trigger] f[i]).zuteilung is Some
}

/// `start_score` reads only the placements.
pub proof fn lemma_score_placements(f: Seq<Fraktivitaet>, g: Seq<Fraktivitaet>, s: Zeitpunkt, d: Zeitdauer)
    requires
        f.len() == g.len(),
        forall|i: int| 0 <= i < f.len() ==> (#[trigger] f[i]).zuteilung == g[i].zuteilung,
    ensures
        start_score(f, s, d) == start_score(g, s, d),
    decreases f.len(),
{
    if f.len() > 0 {
        lemma_score_placements(f.drop_last(), g.drop_last(), s, d);
        assert(f.last().zuteilung == g.last().zuteilung);
    }
}

/// Solvability is the same for activities that agree up to the order of
/// start points.
proof fn lemma_solvable_same(f: Seq<Fraktivitaet>, g: Seq<Fraktivitaet>)
    requires
        alike(f, g),
    ensures
        solvable(f) == solvable(g),
        all_legal(f) == all_legal(g),
{
    lemma_kept_unplaced(f, g, Seq::empty());
    if solvable(f) {
        let c = choose|c: Seq<(Raum, Zeitraum)>| completes(f, c) && plan_legal(f, c);
        lemma_kept_unplaced(f, g, c);
    }
    if solvable(g) {
        let c = choose|c: Seq<(Raum, Zeitraum)>| completes(g, c) && plan_legal(g, c);
        lemma_kept_unplaced(f, g, c);
    }
}

/// Placing the same activity at the same place keeps two sequences that
/// agree up to the order of start points in agreement.
proof fn lemma_place_at_alike(f: Seq<Fraktivitaet>, g: Seq<Fraktivitaet>, k: int, r: Raum, s: Zeitpunkt)
    requires
        alike(f, g),
        0 <= k < f.len(),
    ensures
        alike(place_at(f, k, r, s), place_at(g, k, r, s)),
{
    let f1 = place_at(f, k, r, s);
    let g1 = place_at(g, k, r, s);
    assert(same_frame(f[k], g[k]));
    assert forall|i: int| 0 <= i < f1.len() implies same_frame(#[trigger] f1[i], g1[i]) by {
        assert(same_frame(f[i], g[i]));
    }
    assert forall|i: int| 0 <= i < f1.len() implies (#[trigger] g1[i]).zuteilung == f1[i].zuteilung by {
        assert(g[i].zuteilung == f[i].zuteilung);
    }
}

/// The choice of the search does not depend on the order of the start
/// points of the activities.
proof fn lemma_choice_frame(f: Seq<Fraktivitaet>, g: Seq<Fraktivitaet>, k: int, order: Seq<Zeitpunkt>, z: (Raum, Zeitraum))
    requires
        alike(f, g),
        0 <= k < f.len(),
    ensures
        search_order(f, k, order) == search_order(g, k, order),
        first_viable(f, k, order, z) == first_viable(g, k, order, z),
{
    assert(same_frame(f[k], g[k]));
    assert forall|s: Zeitpunkt, d: Zeitdauer| #[trigger] start_score(f, s, d) == start_score(g, s, d) by {
        lemma_score_placements(f, g, s, d);
    }
    assert forall|r: Raum, s: Zeitpunkt| #[trigger] viable(f, k, r, s) == viable(g, k, r, s) by {
        lemma_same_starts(f[k].starts@, g[k].starts@, s);
        lemma_place_at_alike(f, g, k, r, s);
        lemma_solvable_same(place_at(f, k, r, s), place_at(g, k, r, s));
    }
    if first_viable(f, k, order, z) {
        lemma_first_viable_transfer(f, g, k, order, z);
    }
    if first_viable(g, k, order, z) {
        lemma_first_viable_transfer(g, f, k, order, z);
    }
}

/// `first_viable` carries over between sequences with the same viable
/// placements and scores.
proof fn lemma_first_viable_transfer(f: Seq<Fraktivitaet>, g: Seq<Fraktivitaet>, k: int, order: Seq<Zeitpunkt>, z: (Raum, Zeitraum))
    requires
        0 <= k < f.len(),
        f.len() == g.len(),
        f[k].raume == g[k].raume,
        f[k].dauer == g[k].dauer,
        forall|s: Zeitpunkt, d: Zeitdauer| #[trigger] start_score(f, s, d) == start_score(g, s, d),
        forall|r: Raum, s: Zeitpunkt| #[trigger] viable(f, k, r, s) == viable(g, k, r, s),
        first_viable(f, k, order, z),
    ensures
        first_viable(g, k, order, z),
{
    let (a, b) = choose|a: int, b: int|
        0 <= a < order.len() && 0 <= b < f[k].raume@.len() && #[trigger] order[a] == z.1.0
            && #[trigger] f[k].raume@[b] == z.0 && forall|a2: int, b2: int|
            0 <= a2 < order.len() && 0 <= b2 < f[k].raume@.len() && (a2 < a || (a2 == a && b2 < b))
                ==> !viable(f, k, #[trigger] f[k].raume@[b2], #[trigger] order[a2]);
    assert forall|a2: int, b2: int|
        0 <= a2 < order.len() && 0 <= b2 < g[k].raume@.len() && (a2 < a || (a2 == a && b2 < b)) implies !viable(
        g,
        k,
        #[trigger] g[k].raume@[b2],
        #[trigger] order[a2],
    ) by {
        assert(!viable(f, k, f[k].raume@[b2], order[a2]));
    }
    assert(viable(g, k, z.0, z.1.0) == viable(f, k, z.0, z.1.0));
    assert forall|r: Raum, s: Zeitpunkt| #[trigger] viable(g, k, r, s) implies start_score(g, z.1.0, g[k].dauer)
        <= start_score(g, s, g[k].dauer) by {
        assert(viable(f, k, r, s));
        assert(start_score(f, z.1.0, f[k].dauer) <= start_score(f, s, f[k].dauer));
        assert(start_score(f, z.1.0, f[k].dauer) == start_score(g, z.1.0, f[k].dauer));
        assert(start_score(f, s, f[k].dauer) == start_score(g, s, f[k].dauer));
    }
}

/// A viable placement of activity `k` of `f` comes from a legal completion
/// of `f` that places `k` there.
proof fn lemma_viable_completion(f: Seq<Fraktivitaet>, k: int, r: Raum, s: Zeitpunkt) -> (c: Seq<(Raum, Zeitraum)>)
    requires
        0 <= k < f.len(),
        f[k].zuteilung is None,
        viable(f, k, r, s),
    ensures
        completes(f, c),
        plan_legal(f, c),
        c[k] == (r, Zeitraum(s, f[k].dauer)),
{
    let z = (r, Zeitraum(s, f[k].dauer));
    let g = place_at(f, k, r, s);
    let c = choose|c: Seq<(Raum, Zeitraum)>| completes(g, c) && plan_legal(g, c);
    lemma_place(f, k, z, g, c);
    c
}

/// One successful step of the search: activity `index`, the first unplaced
/// one of `f0`, placed at the first placement (`zi`, `ri`) of the order
/// that admits a legal completion, followed by a search from there that
/// ended with `f2`, makes the choices of a search from `f0`.
proof fn lemma_search_step(
    f0: Seq<Fraktivitaet>,
    f_cur: Seq<Fraktivitaet>,
    f1: Seq<Fraktivitaet>,
    f2: Seq<Fraktivitaet>,
    index: int,
    sorted_seq: Seq<Zeitpunkt>,
    zi: int,
    ri: int,
)
    requires
        first_unplaced_at(f0, index),
        alike(f0, f_cur),
        f_cur[index].starts@ == sorted_seq,
        stably_sorted(sorted_seq, f0[index].starts@, f0, f0[index].dauer),
        sorted_seq.to_multiset() == f0[index].starts@.to_multiset(),
        0 <= zi < sorted_seq.len(),
        0 <= ri < f0[index].raume@.len(),
        f1 == place_at(f_cur, index, f0[index].raume@[ri], sorted_seq[zi]),
        all_legal(f1),
        solvable(f1),
        kept(f1, f2),
        kept(f0, f2),
        search_choices(f1, f2),
        forall|c: Seq<(Raum, Zeitraum)>|
            completes(f0, c) && plan_legal(f0, c) ==> !tried(c[index], sorted_seq, f0[index].raume@, zi, ri),
    ensures
        search_choices(f0, f2),
        forall|k: int|
            first_unplaced_at(f0, k) ==> stably_sorted(f2[k].starts@, f0[k].starts@, f0, f0[k].dauer),
{
    let raume_seq = f0[index].raume@;
    let d = f0[index].dauer;
    let r = raume_seq[ri];
    let s = sorted_seq[zi];
    let z = (r, Zeitraum(s, d));
    assert(same_frame(f0[index], f_cur[index]));
    // activity `index` keeps its placement and order
    assert(f1[index].zuteilung is Some);
    assert(f2[index] == f1[index]);
    assert(f2[index].starts@ == sorted_seq);
    assert(f2[index].zuteilung == Some(z));
    // the stage of `index` is `f0`
    assert(stage(f0, f2, index) =~= f0) by {
        assert forall|i: int| 0 <= i < f0.len() implies stage(f0, f2, index)[i] == f0[i] by {
            if !(i >= index && f0[i].zuteilung is None) {
                assert(f0[i].zuteilung is Some);
                assert(same_frame(f0[i], f2[i]));
            }
        }
    }
    // the choice for `index`
    assert(search_order(f0, index, sorted_seq));
    assert(viable(f0, index, r, s)) by {
        lemma_same_starts(sorted_seq, f0[index].starts@, s);
        assert(sorted_seq.contains(s));
        lemma_place_at_alike(f0, f_cur, index, r, s);
        lemma_solvable_same(place_at(f0, index, r, s), f1);
    }
    assert forall|a2: int, b2: int|
        0 <= a2 < sorted_seq.len() && 0 <= b2 < raume_seq.len() && (a2 < zi || (a2 == zi && b2 < ri)) implies !viable(
        f0,
        index,
        #[trigger] f0[index].raume@[b2],
        #[trigger] sorted_seq[a2],
    ) by {
        if viable(f0, index, raume_seq[b2], sorted_seq[a2]) {
            let c = lemma_viable_completion(f0, index, raume_seq[b2], sorted_seq[a2]);
            assert(tried(c[index], sorted_seq, raume_seq, zi, ri));
        }
    }
    assert forall|r2: Raum, s2: Zeitpunkt| #[trigger] viable(f0, index, r2, s2) implies start_score(f0, s, d)
        <= start_score(f0, s2, d) by {
        let c = lemma_viable_completion(f0, index, r2, s2);
        let b2 = choose|b2: int| 0 <= b2 < raume_seq.len() && raume_seq[b2] == r2;
        lemma_same_starts(sorted_seq, f0[index].starts@, s2);
        let a2 = choose|a2: int| 0 <= a2 < sorted_seq.len() && sorted_seq[a2] == s2;
        if a2 < zi || (a2 == zi && b2 < ri) {
            assert(tried(c[index], sorted_seq, raume_seq, zi, ri));
        }
        if a2 > zi {
            assert(start_score(f0, sorted_seq[zi], d) <= start_score(f0, sorted_seq[a2], d));
        }
    }
    assert(first_viable(f0, index, sorted_seq, z));
    // the later choices carry over from the search from `f1`
    assert forall|j: int| 0 <= j < f0.len() && (#[trigger] f0[j]).zuteilung is None implies {
        &&& f2[j].zuteilung is Some
        &&& search_order(stage(f0, f2, j), j, f2[j].starts@)
        &&& first_viable(stage(f0, f2, j), j, f2[j].starts@, f2[j].zuteilung.unwrap())
    } by {
        if j != index {
            assert(j > index);
            assert(f1[j] == f_cur[j]);
            assert(f1[j].zuteilung is None);
            let s1 = stage(f1, f2, j);
            let s0 = stage(f0, f2, j);
            assert(alike(s1, s0)) by {
                assert forall|i: int| 0 <= i < s1.len() implies same_frame(#[trigger] s1[i], s0[i]) && s0[i].zuteilung
                    == s1[i].zuteilung by {
                    if i != index {
                        assert(f1[i] == f_cur[i]);
                        assert(same_frame(f0[i], f_cur[i]));
                    }
                }
            }
            lemma_choice_frame(s1, s0, j, f2[j].starts@, f2[j].zuteilung.unwrap());
        }
    }
    assert forall|k: int| first_unplaced_at(f0, k) implies stably_sorted(f2[k].starts@, f0[k].starts@, f0, f0[k].dauer) by {
        if k < index {
            assert(f0[k].zuteilung is Some);
        }
        if k > index {
            assert(f0[index].zuteilung is Some);
        }
    }
}

impl FraktivitaetManager {
    /// Places every activity without a placement by backtracking: the first
    /// unplaced activity tries its start points (ordered by how little they
    /// compete with placed activities) and rooms in turn, and the search
    /// goes on with the rest whenever the placement so far is legal.
    ///
    /// Returns whether a legal placement of all activities exists that keeps
    /// the present placements; if so, the activities hold the one the search
    /// meets first: each unplaced activity in list order takes the first
    /// start point, in the order by `start_score` against the activities
    /// placed before it, and for it the first room, that keeps the
    /// placements legal and still admits a legal placement of all. The first
    /// unplaced activity keeps the order of its start points among those of
    /// equal score.
    pub fn verteilen(&mut self) -> (res: bool)
        requires
            old(self).wf(),
        ensures
            final(self).wf(),
            final(self).personen == old(self).personen,
            final(self).raume == old(self).raume,
            final(self).manager == old(self).manager,
            kept(old(self).fraktivitaeten@, final(self).fraktivitaeten@),
            res == solvable(old(self).fraktivitaeten@),
            res ==> all_placed(final(self).fraktivitaeten@) && all_legal(final(self).fraktivitaeten@)
                && completes(old(self).fraktivitaeten@, placements(final(self).fraktivitaeten@)),
            !res ==> kept_unplaced(old(self).fraktivitaeten@, final(self).fraktivitaeten@),
            res ==> search_choices(old(self).fraktivitaeten@, final(self).fraktivitaeten@),
            res ==> forall|k: int|
                first_unplaced_at(old(self).fraktivitaeten@, k) ==> stably_sorted(
                    final(self).fraktivitaeten@[k].starts@,
                    old(self).fraktivitaeten@[k].starts@,
                    old(self).fraktivitaeten@,
                    old(self).fraktivitaeten@[k].dauer,
                ),
        decreases unplaced(old(self).fraktivitaeten@),
    {
        let ghost f0 = self.fraktivitaeten@;
        let n = self.fraktivitaeten.len();
        let index = first_unplaced(&self.fraktivitaeten);
        if index == n {
            proof {
                lemma_all_placed(f0);
                assert(kept(f0, f0));
            }
            return self.legal();
        }
        let d = self.fraktivitaeten[index].dauer;
        proof {
            assert(f0[index as int].fits());
        }
        let sorted = sorted_starts(&self.fraktivitaeten[index].starts, &self.fraktivitaeten, d);
        let ghost sorted_seq = sorted@;
        proof {
            assert forall|k: int| 0 <= k < sorted_seq.len() implies (#[trigger] sorted_seq[k]).0 < SLOT_LIMIT by {
                lemma_same_starts(sorted_seq, f0[index as int].starts@, sorted_seq[k]);
                assert(sorted_seq.contains(sorted_seq[k]));
                let j = choose|j: int| 0 <= j < f0[index as int].starts@.len() && f0[index as int].starts@[j] == sorted_seq[k];
                assert(f0[index as int].starts@[j].0 < SLOT_LIMIT);
            }
        }
        self.fraktivitaeten[index].starts = sorted;
        proof {
            assert(kept_unplaced(f0, self.fraktivitaeten@)) by {
                assert forall|i: int| 0 <= i < f0.len() implies same_frame(#[trigger] f0[i], self.fraktivitaeten@[i]) by {}
            }
            assert forall|i: int| 0 <= i < self.fraktivitaeten@.len() implies (#[trigger] self.fraktivitaeten@[i]).fits() by {
                if i != index {
                    assert(self.fraktivitaeten@[i] == f0[i]);
                }
            }
            lemma_kept_unplaced(f0, self.fraktivitaeten@, Seq::empty());
        }
        let ns = self.fraktivitaeten[index].starts.len();
        let nr = self.fraktivitaeten[index].raume.len();
        let ghost raume_seq = f0[index as int].raume@;
        let mut zi: usize = 0;
        while zi < ns
            invariant
                self.wf(),
                self.personen == old(self).personen,
                self.raume == old(self).raume,
                self.manager == old(self).manager,
                f0 == old(self).fraktivitaeten@,
                n == f0.len(),
                index < n,
                f0[index as int].zuteilung is None,
                f0[index as int].dauer == d,
                kept_unplaced(f0, self.fraktivitaeten@),
                self.fraktivitaeten@[index as int].starts@ == sorted_seq,
                sorted_seq.to_multiset() == f0[index as int].starts@.to_multiset(),
                stably_sorted(sorted_seq, f0[index as int].starts@, f0, d),
                forall|i: int| 0 <= i < index ==> (#[trigger] f0[i]).zuteilung is Some,
                ns == sorted_seq.len(),
                nr == raume_seq.len(),
                self.fraktivitaeten@[index as int].raume@ == raume_seq,
                zi <= ns,
                forall|c: Seq<(Raum, Zeitraum)>|
                    completes(f0, c) && plan_legal(f0, c) ==> !tried(c[index as int], sorted_seq, raume_seq, zi as int, 0),
            decreases ns - zi,
        {
            let zeitraum = Zeitraum::new(self.fraktivitaeten[index].starts[zi], d);
            let mut ri: usize = 0;
            proof {
                assert forall|c: Seq<(Raum, Zeitraum)>|
                    completes(f0, c) && plan_legal(f0, c) implies !tried(c[index as int], sorted_seq, raume_seq, zi as int, 0) by {}
            }
            while ri < nr
                invariant
                    self.wf(),
                    self.personen == old(self).personen,
                    self.raume == old(self).raume,
                    self.manager == old(self).manager,
                    f0 == old(self).fraktivitaeten@,
                    n == f0.len(),
                    index < n,
                    f0[index as int].zuteilung is None,
                    f0[index as int].dauer == d,
                    kept_unplaced(f0, self.fraktivitaeten@),
                    self.fraktivitaeten@[index as int].starts@ == sorted_seq,
                    sorted_seq.to_multiset() == f0[index as int].starts@.to_multiset(),
                    stably_sorted(sorted_seq, f0[index as int].starts@, f0, d),
                    forall|i: int| 0 <= i < index ==> (#[trigger] f0[i]).zuteilung is Some,
                    ns == sorted_seq.len(),
                    nr == raume_seq.len(),
                    self.fraktivitaeten@[index as int].raume@ == raume_seq,
                    zi < ns,
                    ri <= nr,
                    zeitraum.0 == sorted_seq[zi as int],
                    zeitraum.1 == d,
                    forall|c: Seq<(Raum, Zeitraum)>|
                        completes(f0, c) && plan_legal(f0, c) ==> !tried(c[index as int], sorted_seq, raume_seq, zi as int, ri as int),
                decreases nr - ri,
            {
                let ghost f_cur = self.fraktivitaeten@;
                let r = self.fraktivitaeten[index].raume[ri].clone();
                let ghost z = (r, zeitraum);
                proof {
                    assert(r == raume_seq[ri as int]);
                    assert(f0[index as int].raume@ == raume_seq);
                    assert(raume_seq.contains(r));
                    assert(sorted_seq.contains(zeitraum.0));
                    lemma_same_starts(sorted_seq, f0[index as int].starts@, zeitraum.0);
                    assert(is_option(f0[index as int], z));
                    assert(f_cur[index as int].fits());
                }
                self.fraktivitaeten[index].zuteilung = Some((r, zeitraum));
                let ghost f1 = self.fraktivitaeten@;
                proof {
                    assert(f1 == f_cur.update(index as int, Fraktivitaet { zuteilung: Some(z), ..f_cur[index as int] }));
                    assert(same_frame(f0[index as int], f_cur[index as int]));
                    assert(is_option(f_cur[index as int], z)) by {
                        lemma_same_starts(f0[index as int].starts@, f_cur[index as int].starts@, zeitraum.0);
                    }
                    assert forall|i: int| 0 <= i < f1.len() implies (#[trigger] f1[i]).fits() by {
                        if i != index {
                            assert(f1[i] == f_cur[i]);
                        }
                    }
                    lemma_kept_unplaced(f0, f_cur, Seq::empty());
                    assert(by_duration(f1)) by {
                        assert forall|i: int| 0 <= i < f1.len() implies #[trigger] f1[i].dauer == f_cur[i].dauer by {}
                    }
                    lemma_unplaced_place(f_cur, index as int, Fraktivitaet { zuteilung: Some(z), ..f_cur[index as int] });
                    lemma_unplaced_same(f0, f_cur);
                }
                if self.legal() {
                    if self.verteilen() {
                        proof {
                            let f2 = self.fraktivitaeten@;
                            let c = placements(f2);
                            lemma_place(f_cur, index as int, z, f1, c);
                            lemma_kept_unplaced(f0, f_cur, c);
                            assert(kept(f0, f_cur));
                            lemma_kept_trans(f0, f_cur, f1);
                            lemma_kept_trans(f0, f1, f2);
                            lemma_all_placed(f2);
                            lemma_kept_unplaced(f1, f1, c);
                            // the placement found completes f0 and is legal there
                            assert(plan_legal(f2, c));
                            assert(plan_legal(f1, c)) by {
                                assert forall|i: int, j: int| 0 <= i < j < f1.len() implies !clash(f1[i], c[i], f1[j], c[j]) by {
                                    assert(same_frame(f1[i], f2[i]));
                                    assert(same_frame(f1[j], f2[j]));
                                    assert(!clash(f2[i], c[i], f2[j], c[j]));
                                }
                            }
                            assert(plan_legal(f0, c));
                            assert(completes(f0, c));
                            assert(zeitraum == Zeitraum(sorted_seq[zi as int], f_cur[index as int].dauer));
                            assert(f1 == place_at(f_cur, index as int, raume_seq[ri as int], sorted_seq[zi as int]));
                            lemma_search_step(f0, f_cur, f1, f2, index as int, sorted_seq, zi as int, ri as int);
                        }
                        return true;
                    }
                }
                proof {
                    let f2 = self.fraktivitaeten@;
                    assert forall|c: Seq<(Raum, Zeitraum)>|
                        completes(f0, c) && plan_legal(f0, c) implies !tried(c[index as int], sorted_seq, raume_seq, zi as int, ri + 1) by {
                        lemma_kept_unplaced(f0, f_cur, c);
                        lemma_place(f_cur, index as int, z, f1, c);
                        if c[index as int] == z {
                            assert(completes(f1, c));
                            assert(plan_legal(f1, c));
                            if !all_legal(f1) {
                                lemma_illegal(f1, c);
                            } else {
                                assert(!solvable(f1));
                            }
                        }
                        if tried(c[index as int], sorted_seq, raume_seq, zi as int, ri + 1) {
                            let (a, b) = choose|a: int, b: int|
                                0 <= b < raume_seq.len() && 0 <= a && (a < zi || (a == zi && b < ri + 1)) && c[index as int].0 == raume_seq[b] && c[index as int].1.0 == sorted_seq[a];
                            if a == zi && b == ri {
                                assert(c[index as int].1.1 == d) by {
                                    assert(is_option(f0[index as int], c[index as int]));
                                }
                                assert(c[index as int] == z);
                            } else {
                                assert(tried(c[index as int], sorted_seq, raume_seq, zi as int, ri as int));
                            }
                        }
                    }
                }
                let ghost f2 = self.fraktivitaeten@;
                proof {
                    assert(kept_unplaced(f1, f2)) by {
                        assert forall|i: int| 0 <= i < f1.len() implies same_frame(#[trigger] f1[i], f2[i]) by {}
                    }
                    assert(f2[index as int] == f1[index as int]);
                }
                self.fraktivitaeten[index].zuteilung = None;
                proof {
                    let f3 = self.fraktivitaeten@;
                    assert(f3[index as int] == f_cur[index as int]);
                    assert(kept_unplaced(f_cur, f3)) by {
                        assert forall|i: int| 0 <= i < f_cur.len() implies same_frame(#[trigger] f_cur[i], f3[i]) by {
                            if i != index {
                                assert(f1[i] == f_cur[i]);
                                assert(same_frame(f1[i], f2[i]));
                            }
                        }
                        assert forall|i: int| 0 <= i < f_cur.len() && (#[trigger] f_cur[i]).zuteilung is Some implies f3[i] == f_cur[i] by {
                            assert(f1[i] == f_cur[i]);
                        }
                        assert forall|i: int| 0 <= i < f_cur.len() implies (#[trigger] f3[i]).zuteilung == f_cur[i].zuteilung by {
                            if i != index {
                                assert(f1[i] == f_cur[i]);
                            }
                        }
                    }
                    lemma_kept_trans(f0, f_cur, f3);
                    assert forall|i: int| 0 <= i < f3.len() implies (#[trigger] f3[i]).fits() by {
                        if i != index {
                            assert(f3[i] == f2[i]);
                        }
                    }
                    lemma_kept_unplaced(f0, f3, Seq::empty());
                }
                ri = ri + 1;
            }
            proof {
                assert forall|c: Seq<(Raum, Zeitraum)>|
                    completes(f0, c) && plan_legal(f0, c) implies !tried(c[index as int], sorted_seq, raume_seq, zi + 1, 0) by {
                    if tried(c[index as int], sorted_seq, raume_seq, zi + 1, 0) {
                        let (a, b) = choose|a: int, b: int|
                            0 <= b < raume_seq.len() && 0 <= a && (a < zi + 1 || (a == zi + 1 && b < 0)) && c[index as int].0 == raume_seq[b] && c[index as int].1.0 == sorted_seq[a];
                        assert(tried(c[index as int], sorted_seq, raume_seq, zi as int, nr as int));
                    }
                }
            }
            zi = zi + 1;
        }
        proof {
            lemma_kept_unplaced(f0, f0, Seq::empty());
            if solvable(f0) {
                let c = choose|c: Seq<(Raum, Zeitraum)>| completes(f0, c) && plan_legal(f0, c);
                let zc = c[index as int];
                assert(is_option(f0[index as int], zc));
                let b = choose|b: int| 0 <= b < raume_seq.len() && raume_seq[b] == zc.0;
                lemma_same_starts(sorted_seq, f0[index as int].starts@, zc.1.0);
                let a = choose|a: int| 0 <= a < sorted_seq.len() && sorted_seq[a] == zc.1.0;
                assert(tried(zc, sorted_seq, raume_seq, ns as int, 0));
            }
        }
        false
    }
}

/// The default day plan runs from `08:00` to `22:00` in steps of 15 minutes.
proof fn lemma_default_day()
    ensures
        time_ok(START@),
        time_ok(END@),
        clock(START@) == (8nat, 0nat),
        clock(END@) == (22nat, 0nat),
        STEP == 15,
        walk((8, 0), 15, 56) == (22nat, 0nat),
        reaches(clock(START@), STEP as nat, clock(END@)),
{
    reveal_strlit("08:00");
    reveal_strlit("22:00");
    assert(crate::text::decimal(0) =~= seq!['0']);
    assert(crate::text::decimal(8) =~= seq!['8']);
    assert(crate::text::decimal(2) =~= seq!['2']);
    assert(crate::text::decimal(22) =~= seq!['2', '2']);
    assert(START@ =~= time_text((8, 0)));
    assert(END@ =~= time_text((22, 0)));
    lemma_time_text((8, 0));
    lemma_time_text((22, 0));
    lemma_walk_quarters(8, 14);
}

/// Four steps of 15 minutes from a full hour before 23:00 reach the next hour.
proof fn lemma_walk_hour(g: nat)
    requires
        g < 23,
    ensures
        walk((g, 0), 15, 4) == (g + 1, 0nat),
{
    assert(walk((g, 0), 15, 0) == (g, 0nat));
    assert(walk((g, 0), 15, 1) == (g, 15nat));
    assert(walk((g, 0), 15, 2) == (g, 30nat));
    assert(walk((g, 0), 15, 3) == (g, 45nat));
    assert(((g + 1) as nat) % 24 == g + 1);
}

/// `4 k` steps of 15 minutes from the full hour `h` reach the hour `h + k`.
proof fn lemma_walk_quarters(h: nat, k: nat)
    requires
        h + k < 24,
    ensures
        walk((h, 0), 15, 4 * k) == (h + k, 0nat),
    decreases k,
{
    if k > 0 {
        lemma_walk_quarters(h, (k - 1) as nat);
        zeit::lemma_walk_split((h, 0), 15, (4 * (k - 1)) as nat, 4);
        assert((4 * (k - 1)) as nat + 4 == 4 * k);
        lemma_walk_hour((h + k - 1) as nat);
    }
}

/// Each name of `names` is the name of a person of `known`.
pub open spec fn persons_known(known: Seq<Person>, names: Seq<&str>) -> bool {
    forall|i: int|
        0 <= i < names.len() ==> exists|j: int| 0 <= j < known.len() && known[j]@ == (#[trigger] names[i])@
}

/// Each name of `names` is the name of a room of `known`.
pub open spec fn rooms_known(known: Seq<Raum>, names: Seq<&str>) -> bool {
    forall|i: int|
        0 <= i < names.len() ==> exists|j: int| 0 <= j < known.len() && known[j]@ == (#[trigger] names[i])@
}

/// `s` names a duration that can be reached in steps of `step` minutes.
pub open spec fn duration_ok(step: nat, s: Seq<char>) -> bool {
    time_ok(s) && reaches((0, 0), step, clock(s))
}

/// The person of `known` named `name`.
pub fn find_person(known: &Vec<Person>, name: &str) -> (res: Person)
    requires
        exists|j: int| 0 <= j < known@.len() && known@[j]@ == name@,
    ensures
        res@ == name@,
{
    let mut i: usize = 0;
    while i < known.len()
        invariant
            i <= known@.len(),
            forall|j: int| 0 <= j < i ==> known@[j]@ != name@,
            exists|j: int| 0 <= j < known@.len() && known@[j]@ == name@,
        decreases known@.len() - i,
    {
        if known[i].is(name) {
            return known[i].clone();
        }
        i = i + 1;
    }
    assert(false);
    Person::new(name)
}

/// The room of `known` named `name`.
pub fn find_raum(known: &Vec<Raum>, name: &str) -> (res: Raum)
    requires
        exists|j: int| 0 <= j < known@.len() && known@[j]@ == name@,
    ensures
        res@ == name@,
{
    let mut i: usize = 0;
    while i < known.len()
        invariant
            i <= known@.len(),
            forall|j: int| 0 <= j < i ==> known@[j]@ != name@,
            exists|j: int| 0 <= j < known@.len() && known@[j]@ == name@,
        decreases known@.len() - i,
    {
        if known[i].is(name) {
            return known[i].clone();
        }
        i = i + 1;
    }
    assert(false);
    Raum::new(name)
}

/// The persons named `names`, in order.
fn lookup_persons(known: &Vec<Person>, names: &Vec<&str>) -> (res: Vec<Person>)
    requires
        persons_known(known@, names@),
    ensures
        res@.len() == names@.len(),
        forall|i: int| 0 <= i < names@.len() ==> (#[trigger] res@[i])@ == names@[i]@,
{
    let mut res: Vec<Person> = Vec::new();
    let mut i: usize = 0;
    while i < names.len()
        invariant
            i <= names@.len(),
            persons_known(known@, names@),
            res@.len() == i,
            forall|k: int| 0 <= k < i ==> (#[trigger] res@[k])@ == names@[k]@,
        decreases names@.len() - i,
    {
        let name = names[i];
        assert(name == names@[i as int]);
        assert(exists|j: int| 0 <= j < known@.len() && known@[j]@ == name@);
        res.push(find_person(known, name));
        i = i + 1;
    }
    res
}

/// The rooms named `names`, in order.
fn lookup_raume(known: &Vec<Raum>, names: &Vec<&str>) -> (res: Vec<Raum>)
    requires
        rooms_known(known@, names@),
    ensures
        res@.len() == names@.len(),
        forall|i: int| 0 <= i < names@.len() ==> (#[trigger] res@[i])@ == names@[i]@,
{
    let mut res: Vec<Raum> = Vec::new();
    let mut i: usize = 0;
    while i < names.len()
        invariant
            i <= names@.len(),
            rooms_known(known@, names@),
            res@.len() == i,
            forall|k: int| 0 <= k < i ==> (#[trigger] res@[k])@ == names@[k]@,
        decreases names@.len() - i,
    {
        let name = names[i];
        assert(name == names@[i as int]);
        assert(exists|j: int| 0 <= j < known@.len() && known@[j]@ == name@);
        res.push(find_raum(known, name));
        i = i + 1;
    }
    res
}

impl FraktivitaetManager {
    /// A manager of the persons and rooms named, with the default day plan
    /// (`START` to `END` in steps of `STEP` minutes, without exclusions)
    /// and no activities.
    pub fn new(personen: Vec<&str>, raume: Vec<&str>) -> (res: Self)
        ensures
            res.wf(),
            res.personen@.len() == personen@.len(),
            forall|i: int| 0 <= i < personen@.len() ==> (#[trigger] res.personen@[i])@ == personen@[i]@,
            res.raume@.len() == raume@.len(),
            forall|i: int| 0 <= i < raume@.len() ==> (#[trigger] res.raume@[i])@ == raume@[i]@,
            res.fraktivitaeten@.len() == 0,
            res.manager.points() == day_points((8, 0), (22, 0), 15),
            res.manager.durations() == duration_texts(15, 1),
            res.manager.step_size() == 15,
            res.manager.exclusions().len() == 0,
    {
        let mut ps: Vec<Person> = Vec::new();
        for i in 0..personen.len()
            invariant
                ps@.len() == i,
                forall|k: int| 0 <= k < i ==> (#[trigger] ps@[k])@ == personen@[k]@,
        {
            ps.push(Person::new(personen[i]));
        }
        let mut rs: Vec<Raum> = Vec::new();
        for i in 0..raume.len()
            invariant
                rs@.len() == i,
                forall|k: int| 0 <= k < i ==> (#[trigger] rs@[k])@ == raume@[k]@,
        {
            rs.push(Raum::new(raume[i]));
        }
        proof {
            lemma_default_day();
        }
        let manager = Zeitmanager::new(START, END, STEP, excluded());
        Self { personen: ps, raume: rs, manager, fraktivitaeten: Vec::new() }
    }

    /// `other` is the name of a known person.
    pub fn is_person(&self, other: String) -> (res: bool)
        ensures
            res == exists|j: int| 0 <= j < self.personen@.len() && self.personen@[j]@ == other@,
    {
        for j in 0..self.personen.len()
            invariant
                forall|k: int| 0 <= k < j ==> self.personen@[k]@ != other@,
        {
            if self.personen[j].is(other.as_str()) {
                return true;
            }
        }
        false
    }

    /// `other` is the name of a known room.
    pub fn is_raum(&self, other: String) -> (res: bool)
        ensures
            res == exists|j: int| 0 <= j < self.raume@.len() && self.raume@[j]@ == other@,
    {
        for j in 0..self.raume.len()
            invariant
                forall|k: int| 0 <= k < j ==> self.raume@[k]@ != other@,
        {
            if self.raume[j].is(other.as_str()) {
                return true;
            }
        }
        false
    }
}

/// `k` is a start point of the day for an activity lasting `d`: both ends
/// are slots of the day and the period meets neither an excluded period of
/// the day (`excl`) nor one of the activity (`aus`).
pub open spec fn start_allowed(
    points: Seq<Seq<char>>,
    excl: Seq<Zeitraum>,
    aus: Seq<Zeitraum>,
    k: int,
    d: nat,
) -> bool {
    let z = Zeitraum(Zeitpunkt(k as usize), Zeitdauer(d as usize));
    &&& is_slot(points, k)
    &&& is_slot(points, k + d)
    &&& forall|j: int| 0 <= j < excl.len() ==> !(#[trigger] excl[j]).meets(z)
    &&& forall|j: int| 0 <= j < aus.len() ==> !(#[trigger] aus[j]).meets(z)
}

/// `res` lists, in increasing order, exactly the allowed start points.
pub open spec fn lists_allowed(
    res: Seq<Zeitpunkt>,
    points: Seq<Seq<char>>,
    excl: Seq<Zeitraum>,
    aus: Seq<Zeitraum>,
    d: nat,
) -> bool {
    &&& forall|a: int, b: int| 0 <= a < b < res.len() ==> res[a].0 < res[b].0
    &&& forall|j: int| 0 <= j < res.len() ==> start_allowed(points, excl, aus, (#[trigger] res[j]).0 as int, d)
    &&& forall|k: int|
        start_allowed(points, excl, aus, k, d) ==> exists|j: int| 0 <= j < res.len() && res[j].0 == k
}

/// The periods of the activity to exclude, from pairs of clock strings.
pub open spec fn excluded_periods(points: Seq<Seq<char>>, aus: Seq<(&str, &str)>) -> Seq<Zeitraum> {
    Seq::new(
        aus.len(),
        |j: int|
            Zeitraum(
                Zeitpunkt(position_of(points, aus[j].0@) as usize),
                Zeitdauer((position_of(points, aus[j].1@) - position_of(points, aus[j].0@)) as usize),
            ),
    )
}

/// The pairs of `aus` name positions of the day, the first not after the second.
pub open spec fn exclusions_ok(points: Seq<Seq<char>>, aus: Seq<(&str, &str)>) -> bool {
    forall|j: int|
        0 <= j < aus.len() ==> {
            &&& names_position(points, (#[trigger] aus[j]).0@)
            &&& names_position(points, aus[j].1@)
            &&& position_of(points, aus[j].0@) <= position_of(points, aus[j].1@)
        }
}

/// The periods named by `aus`.
fn periods_of(mgr: &Zeitmanager, aus: &Vec<(&str, &str)>) -> (res: Vec<Zeitraum>)
    requires
        mgr.wf(),
        exclusions_ok(mgr.points(), aus@),
    ensures
        res@ == excluded_periods(mgr.points(), aus@),
        forall|j: int| 0 <= j < res@.len() ==> 0 <= (#[trigger] res@[j]).finish() < mgr.points().len(),
{
    let mut res: Vec<Zeitraum> = Vec::new();
    let mut j: usize = 0;
    while j < aus.len()
        invariant
            j <= aus@.len(),
            mgr.wf(),
            exclusions_ok(mgr.points(), aus@),
            res@ == excluded_periods(mgr.points(), aus@).subrange(0, j as int),
            forall|k: int| 0 <= k < res@.len() ==> 0 <= (#[trigger] res@[k]).finish() < mgr.points().len(),
        decreases aus@.len() - j,
    {
        let (a, b) = aus[j];
        assert(a@ == aus@[j as int].0@ && b@ == aus@[j as int].1@);
        let s = mgr.string_to_punkt(a);
        let e = mgr.string_to_punkt(b);
        proof {
            zeit::lemma_last_index_of(mgr.points(), time_text(clock(b@)));
        }
        res.push(Zeitraum::new_punkte(s, e));
        j = j + 1;
        assert(res@ =~= excluded_periods(mgr.points(), aus@).subrange(0, j as int));
    }
    assert(excluded_periods(mgr.points(), aus@).subrange(0, j as int) =~= excluded_periods(mgr.points(), aus@));
    res
}

/// The start points of the day allowed for an activity lasting `d` that
/// must not meet the periods `aus`, in increasing order.
fn allowed_starts(mgr: &Zeitmanager, aus: &Vec<Zeitraum>, d: Zeitdauer) -> (res: Vec<Zeitpunkt>)
    requires
        mgr.wf(),
        d.0 < SLOT_LIMIT,
        forall|j: int| 0 <= j < aus@.len() ==> 0 <= (#[trigger] aus@[j]).finish() < mgr.points().len(),
    ensures
        lists_allowed(res@, mgr.points(), mgr.exclusions(), aus@, d.0 as nat),
        forall|j: int| 0 <= j < res@.len() ==> (#[trigger] res@[j]).0 < mgr.points().len(),
{
    let t = mgr.all_time();
    let mut res: Vec<Zeitpunkt> = Vec::new();
    let ghost points = mgr.points();
    let ghost excl = mgr.exclusions();
    let mut i: usize = 0;
    while i < t.len()
        invariant
            i <= t@.len(),
            mgr.wf(),
            d.0 < SLOT_LIMIT,
            points == mgr.points(),
            excl == mgr.exclusions(),
            forall|j: int| 0 <= j < aus@.len() ==> 0 <= (#[trigger] aus@[j]).finish() < points.len(),
            lists_slots(points, t@),
            forall|a: int, b: int| 0 <= a < b < res@.len() ==> res@[a].0 < res@[b].0,
            forall|j: int| 0 <= j < res@.len() ==> start_allowed(points, excl, aus@, (#[trigger] res@[j]).0 as int, d.0 as nat),
            forall|j: int| 0 <= j < res@.len() ==> (#[trigger] res@[j]).0 < points.len(),
            i < t@.len() ==> forall|j: int| 0 <= j < res@.len() ==> (#[trigger] res@[j]).0 < t@[i as int].0,
            forall|k: int| 0 <= k < i ==> start_allowed(points, excl, aus@, (#[trigger] t@[k]).0 as int, d.0 as nat)
                ==> exists|j: int| 0 <= j < res@.len() && res@[j].0 == t@[k].0,
        decreases t@.len() - i,
    {
        let k = t[i];
        assert(is_slot(points, k.0 as int));
        let current = Zeitraum::new(k, d);
        let ghost prev = res@;
        if mgr.inside(&current) {
            let mut hit = false;
            let mut j: usize = 0;
            while j < aus.len()
                invariant
                    j <= aus@.len(),
                    current.fits(),
                    forall|q: int| 0 <= q < aus@.len() ==> 0 <= (#[trigger] aus@[q]).finish() < points.len(),
                    points.len() <= SLOT_LIMIT,
                    hit == exists|q: int| 0 <= q < j && aus@[q].meets(current),
                decreases aus@.len() - j,
            {
                assert(0 <= aus@[j as int].finish() < points.len());
                if aus[j].overlapping(&current) {
                    hit = true;
                }
                j = j + 1;
            }
            if !hit {
                res.push(k);
                assert(res@[res@.len() - 1] == k);
            }
        }
        proof {
            assert(current == Zeitraum(Zeitpunkt(k.0), Zeitdauer(d.0)));
            assert forall|q: int| 0 <= q < i + 1 && start_allowed(points, excl, aus@, (#[trigger] t@[q]).0 as int, d.0 as nat)
                implies exists|j: int| 0 <= j < res@.len() && res@[j].0 == t@[q].0 by {
                if q < i {
                    let j = choose|j: int| 0 <= j < prev.len() && prev[j].0 == t@[q].0;
                    assert(res@[j] == prev[j]);
                } else {
                    assert(res@[res@.len() - 1].0 == t@[q].0);
                }
            }
            if i + 1 < t@.len() {
                assert(t@[i as int].0 < t@[i + 1].0);
            }
        }
        i = i + 1;
    }
    proof {
        assert forall|k: int| start_allowed(points, excl, aus@, k, d.0 as nat) implies exists|j: int|
            0 <= j < res@.len() && res@[j].0 == k by {
            let q = choose|q: int| 0 <= q < t@.len() && t@[q].0 == k;
            assert(start_allowed(points, excl, aus@, t@[q].0 as int, d.0 as nat));
        }
    }
    res
}

/// Inserts `f` into `fs` before the first activity of smaller duration.
fn insert_by_duration(fs: &mut Vec<Fraktivitaet>, f: Fraktivitaet) -> (p: usize)
    requires
        by_duration(old(fs)@),
    ensures
        p <= old(fs)@.len(),
        final(fs)@ == old(fs)@.insert(p as int, f),
        by_duration(final(fs)@),
{
    let mut p: usize = 0;
    while p < fs.len() && fs[p].dauer.0 >= f.dauer.0
        invariant
            p <= fs@.len(),
            forall|q: int| 0 <= q < p ==> fs@[q].dauer.0 >= f.dauer.0,
        decreases fs@.len() - p,
    {
        p = p + 1;
    }
    let ghost old_fs = fs@;
    fs.insert(p, f);
    proof {
        old_fs.insert_ensures(p as int, f);
        assert forall|i: int, j: int| 0 <= i < j < fs@.len() implies fs@[i].dauer.0 >= fs@[j].dauer.0 by {
            if j < p {
            } else if j == p {
            } else if i < p {
                assert(fs@[j] == old_fs[j - 1]);
                assert(old_fs[p as int].dauer.0 < f.dauer.0);
                assert(old_fs[p as int].dauer.0 >= old_fs[j - 1].dauer.0);
            } else if i == p {
                assert(fs@[j] == old_fs[j - 1]);
                assert(old_fs[p as int].dauer.0 < f.dauer.0);
                assert(old_fs[p as int].dauer.0 >= old_fs[j - 1].dauer.0);
            } else {
                assert(fs@[i] == old_fs[i - 1]);
                assert(fs@[j] == old_fs[j - 1]);
            }
        }
    }
    p
}

/// Inserting a fitting activity into fitting activities keeps them fitting.
proof fn lemma_insert_fits(fs: Seq<Fraktivitaet>, p: int, f: Fraktivitaet)
    requires
        0 <= p <= fs.len(),
        forall|i: int| 0 <= i < fs.len() ==> (#[trigger] fs[i]).fits(),
        f.fits(),
    ensures
        forall|i: int| 0 <= i < fs.insert(p, f).len() ==> (#[trigger] fs.insert(p, f)[i]).fits(),
{
    fs.insert_ensures(p, f);
    assert forall|i: int| 0 <= i < fs.insert(p, f).len() implies (#[trigger] fs.insert(p, f)[i]).fits() by {
        if i < p {
            assert(fs.insert(p, f)[i] == fs[i]);
        } else if i > p {
            assert(fs.insert(p, f)[i] == fs[i - 1]);
        }
    }
}

/// The text of an optional set-up time: 15 minutes when absent.
pub open spec fn or_set_up(t: Option<&str>) -> Seq<char> {
    match t {
        Some(v) => v@,
        None => "00:15"@,
    }
}

/// The text of an optional clear-up time: `0` when absent.
pub open spec fn or_zero(t: Option<&str>) -> Seq<char> {
    match t {
        Some(v) => v@,
        None => "0"@,
    }
}

/// `"0"` names the duration of zero steps.
proof fn lemma_zero_duration(step: nat)
    ensures
        duration_ok(step, "0"@),
        clock("0"@) == (0nat, 0nat),
{
    reveal_strlit("0");
    let s = "0"@;
    assert(s =~= seq!['0']);
    assert(crate::text::colon_from(s, 1) == 1);
    assert(crate::text::colon_from(s, 0) == 1);
    assert(crate::text::field0(s) =~= s);
    assert(crate::text::unsigned_digits(s) =~= s);
    assert(crate::text::digit_value(s[0]) == Some(0nat));
    assert(s.drop_last() =~= Seq::<char>::empty());
    assert(s.last() == '0');
    assert(crate::text::digits_value(s.drop_last()) == 0);
    assert(crate::text::digits_value(s) == 0);
    assert(walk((0, 0), step, 0) == (0nat, 0nat));
}

/// `f` is the activity that `add_fraktivitaet_all_info` makes from its
/// arguments, for a manager with day `points`, day exclusions `excl`,
/// grid step `step` and duration texts `ds`.
pub open spec fn added_as(
    f: Fraktivitaet,
    points: Seq<Seq<char>>,
    excl: Seq<Zeitraum>,
    step: nat,
    ds: Seq<Seq<char>>,
    name: &str,
    dauer: &str,
    teilnehmer: Seq<&str>,
    raume: Seq<&str>,
    ausgeschlossen: Seq<(&str, &str)>,
    zeit: Option<&str>,
    vorbereitung: Option<&str>,
    nachbereitung: Option<&str>,
) -> bool {
    let d = dauer_position(ds, step, dauer@);
    let ds1 = durations_after(ds, step, dauer@);
    let v = dauer_position(ds1, step, or_set_up(vorbereitung));
    let ds2 = durations_after(ds1, step, or_set_up(vorbereitung));
    let n = dauer_position(ds2, step, or_zero(nachbereitung));
    &&& f.name@ == name@
    &&& f.dauer.0 == d
    &&& f.vorbereitung.0 == v
    &&& f.nachbereitung.0 == n
    &&& f.teilnehmer@.len() == teilnehmer.len()
    &&& forall|i: int| 0 <= i < teilnehmer.len() ==> (#[trigger] f.teilnehmer@[i])@ == teilnehmer[i]@
    &&& match zeit {
        Some(z) => {
            let start = Zeitpunkt(position_of(points, z@) as usize);
            if raume.len() == 1 {
                &&& f.zuteilung matches Some(zu) && zu.0@ == raume[0]@ && zu.1 == Zeitraum(
                    start,
                    Zeitdauer(d as usize),
                )
                &&& f.starts@.len() == 0
                &&& f.raume@.len() == 0
            } else {
                &&& f.zuteilung is None
                &&& f.starts@ == seq![start]
                &&& f.raume@.len() == raume.len()
                &&& forall|i: int| 0 <= i < raume.len() ==> (#[trigger] f.raume@[i])@ == raume[i]@
            }
        },
        None => {
            &&& f.zuteilung is None
            &&& f.raume@.len() == raume.len()
            &&& forall|i: int| 0 <= i < raume.len() ==> (#[trigger] f.raume@[i])@ == raume[i]@
            &&& lists_allowed(f.starts@, points, excl, excluded_periods(points, ausgeschlossen), d)
        },
    }
}

impl FraktivitaetManager {
    /// Adds the activity `name` lasting `dauer` with the participants and
    /// rooms named. With a time `zeit` it starts then (in its room, if it has
    /// exactly one); otherwise it may start at each slot of the day at which
    /// it fits the day and meets no period of `ausgeschlossen`. The set-up
    /// time defaults to 15 minutes, the clear-up time to `0`. The activities
    /// stay ordered by non-increasing duration.
    pub fn add_fraktivitaet_all_info(
        &mut self,
        name: &str,
        dauer: &str,
        teilnehmer: Vec<&str>,
        raume: &Vec<&str>,
        ausgeschlossen: Vec<(&str, &str)>,
        zeit: Option<&str>,
        vorbereitung: Option<&str>,
        nachbereitung: Option<&str>,
    )
        requires
            old(self).wf(),
            old(self).fraktivitaeten@.len() < SLOT_LIMIT,
            duration_ok(old(self).manager.step_size(), dauer@),
            vorbereitung matches Some(v) ==> duration_ok(old(self).manager.step_size(), v@),
            vorbereitung is None ==> duration_ok(old(self).manager.step_size(), "00:15"@),
            nachbereitung matches Some(v) ==> duration_ok(old(self).manager.step_size(), v@),
            persons_known(old(self).personen@, teilnehmer@),
            rooms_known(old(self).raume@, raume@),
            zeit matches Some(z) ==> names_position(old(self).manager.points(), z@),
            zeit is None ==> exclusions_ok(old(self).manager.points(), ausgeschlossen@),
        ensures
            final(self).wf(),
            final(self).personen == old(self).personen,
            final(self).raume == old(self).raume,
            final(self).manager.points() == old(self).manager.points(),
            final(self).manager.step_size() == old(self).manager.step_size(),
            final(self).manager.exclusions() == old(self).manager.exclusions(),
            final(self).manager.durations() == ({
                let st = old(self).manager.step_size();
                let ds1 = durations_after(old(self).manager.durations(), st, dauer@);
                let ds2 = durations_after(ds1, st, or_set_up(vorbereitung));
                durations_after(ds2, st, or_zero(nachbereitung))
            }),
            exists|p: int|
                0 <= p <= old(self).fraktivitaeten@.len() && final(self).fraktivitaeten@
                    == old(self).fraktivitaeten@.insert(p, final(self).fraktivitaeten@[p]) && added_as(
                    final(self).fraktivitaeten@[p],
                    old(self).manager.points(),
                    old(self).manager.exclusions(),
                    old(self).manager.step_size(),
                    old(self).manager.durations(),
                    name,
                    dauer,
                    teilnehmer@,
                    raume@,
                    ausgeschlossen@,
                    zeit,
                    vorbereitung,
                    nachbereitung,
                ),
    {
        let ghost st = self.manager.step_size();
        let ghost points = self.manager.points();
        let ghost excl = self.manager.exclusions();
        let ghost ds0 = self.manager.durations();
        proof {
            lemma_zero_duration(st);
        }
        let vorbereitung = match vorbereitung {
            Some(v) => v,
            None => "00:15",
        };
        let nachbereitung = match nachbereitung {
            Some(v) => v,
            None => "0",
        };
        let dauer = self.manager.string_to_dauer(dauer);
        let teilnehmer: Vec<Person> = lookup_persons(&self.personen, &teilnehmer);
        let raume: Vec<Raum> = lookup_raume(&self.raume, raume);
        match zeit {
            Some(z) => {
                proof {
                    zeit::lemma_last_index_of(points, time_text(clock(z@)));
                }
                let zeitraum = Zeitraum::new(self.manager.string_to_punkt(z), dauer);
                if raume.len() == 1 {
                    let r = raume[0].clone();
                    let v = self.manager.string_to_dauer(vorbereitung);
                    let n = self.manager.string_to_dauer(nachbereitung);
                    let f = Fraktivitaet::new(
                        name,
                        dauer,
                        teilnehmer,
                        Some((r, zeitraum)),
                        Vec::new(),
                        Vec::new(),
                        v,
                        n,
                    );
                    let ghost fv = f;
                    let p = insert_by_duration(&mut self.fraktivitaeten, f);
                    proof {
                        assert(self.fraktivitaeten@[p as int] == fv);
                        lemma_insert_fits(old(self).fraktivitaeten@, p as int, fv);
                    }
                    return ;
                } else {
                    let v = self.manager.string_to_dauer(vorbereitung);
                    let n = self.manager.string_to_dauer(nachbereitung);
                    let mut starts: Vec<Zeitpunkt> = Vec::new();
                    starts.push(self.manager.string_to_punkt(z));
                    let f = Fraktivitaet::new(name, dauer, teilnehmer, None, starts, raume, v, n);
                    let ghost fv = f;
                    let p = insert_by_duration(&mut self.fraktivitaeten, f);
                    proof {
                        assert(self.fraktivitaeten@[p as int] == fv);
                        assert(fv.starts@ =~= seq![Zeitpunkt(position_of(points, z@) as usize)]);
                        lemma_insert_fits(old(self).fraktivitaeten@, p as int, fv);
                    }
                    return ;
                }
            },
            None => {},
        }
        let aus = periods_of(&self.manager, &ausgeschlossen);
        let zeiten = allowed_starts(&self.manager, &aus, dauer);
        let v = self.manager.string_to_dauer(vorbereitung);
        let n = self.manager.string_to_dauer(nachbereitung);
        let f = Fraktivitaet::new(name, dauer, teilnehmer, None, zeiten, raume, v, n);
        let ghost fv = f;
        let p = insert_by_duration(&mut self.fraktivitaeten, f);
        proof {
            assert(self.fraktivitaeten@[p as int] == fv);
            lemma_insert_fits(old(self).fraktivitaeten@, p as int, fv);
        }
    }
}

impl FraktivitaetManager {
    /// Adds an activity with a fixed room and start time.
    pub fn add_fix_fraktivitaet(
        &mut self,
        name: &str,
        dauer: &str,
        teilnehmer: Vec<&str>,
        raum: &str,
        zeit: &str,
    )
        requires
            old(self).wf(),
            old(self).fraktivitaeten@.len() < SLOT_LIMIT,
            duration_ok(old(self).manager.step_size(), dauer@),
            duration_ok(old(self).manager.step_size(), "00:15"@),
            persons_known(old(self).personen@, teilnehmer@),
            exists|j: int| 0 <= j < old(self).raume@.len() && old(self).raume@[j]@ == raum@,
            names_position(old(self).manager.points(), zeit@),
        ensures
            final(self).wf(),
            final(self).personen == old(self).personen,
            final(self).raume == old(self).raume,
            final(self).manager.points() == old(self).manager.points(),
            final(self).manager.step_size() == old(self).manager.step_size(),
            final(self).manager.exclusions() == old(self).manager.exclusions(),
            final(self).manager.durations() == ({
                let st = old(self).manager.step_size();
                let ds1 = durations_after(old(self).manager.durations(), st, dauer@);
                let ds2 = durations_after(ds1, st, "00:15"@);
                durations_after(ds2, st, "0"@)
            }),
            exists|p: int|
                0 <= p <= old(self).fraktivitaeten@.len() && final(self).fraktivitaeten@
                    == old(self).fraktivitaeten@.insert(p, final(self).fraktivitaeten@[p]) && added_as(
                    final(self).fraktivitaeten@[p],
                    old(self).manager.points(),
                    old(self).manager.exclusions(),
                    old(self).manager.step_size(),
                    old(self).manager.durations(),
                    name,
                    dauer,
                    teilnehmer@,
                    seq![raum],
                    Seq::empty(),
                    Some(zeit),
                    None,
                    None,
                ),
    {
        let raume = vec![raum];
        assert(raume@ =~= seq![raum]);
        assert(rooms_known(old(self).raume@, raume@)) by {
            assert(raume@[0] == raum);
        }
        let aus: Vec<(&str, &str)> = Vec::new();
        assert(aus@ =~= Seq::<(&str, &str)>::empty());
        self.add_fraktivitaet_all_info(name, dauer, teilnehmer, &raume, aus, Some(zeit), None, None);
    }

    /// Adds an activity that may start at any allowed slot of the day, in
    /// any of its rooms, outside the periods `ausgeschlossen`.
    pub fn add_fraktivitaet(
        &mut self,
        name: &str,
        dauer: &str,
        teilnehmer: Vec<&str>,
        raume: &Vec<&str>,
        ausgeschlossen: Vec<(&str, &str)>,
    )
        requires
            old(self).wf(),
            old(self).fraktivitaeten@.len() < SLOT_LIMIT,
            duration_ok(old(self).manager.step_size(), dauer@),
            duration_ok(old(self).manager.step_size(), "00:15"@),
            persons_known(old(self).personen@, teilnehmer@),
            rooms_known(old(self).raume@, raume@),
            exclusions_ok(old(self).manager.points(), ausgeschlossen@),
        ensures
            final(self).wf(),
            final(self).personen == old(self).personen,
            final(self).raume == old(self).raume,
            final(self).manager.points() == old(self).manager.points(),
            final(self).manager.step_size() == old(self).manager.step_size(),
            final(self).manager.exclusions() == old(self).manager.exclusions(),
            final(self).manager.durations() == ({
                let st = old(self).manager.step_size();
                let ds1 = durations_after(old(self).manager.durations(), st, dauer@);
                let ds2 = durations_after(ds1, st, "00:15"@);
                durations_after(ds2, st, "0"@)
            }),
            exists|p: int|
                0 <= p <= old(self).fraktivitaeten@.len() && final(self).fraktivitaeten@
                    == old(self).fraktivitaeten@.insert(p, final(self).fraktivitaeten@[p]) && added_as(
                    final(self).fraktivitaeten@[p],
                    old(self).manager.points(),
                    old(self).manager.exclusions(),
                    old(self).manager.step_size(),
                    old(self).manager.durations(),
                    name,
                    dauer,
                    teilnehmer@,
                    raume@,
                    ausgeschlossen@,
                    None,
                    None,
                    None,
                ),
    {
        self.add_fraktivitaet_all_info(name, dauer, teilnehmer, raume, ausgeschlossen, None, None, None);
    }
}

} // verus!
