//! What a distribution starts from: the entries are checked, their people
//! gathered, and the grid of start times laid over their allowed starts;
//! and what it ends with: the placements, with the entries themselves.
use vstd::prelude::*;

use super::{contains_id, same_entry, FractivityEntry, FractivityRoom};
use super::variables::Entry;

verus! {

/// The entry cannot be placed at all: it has no allowed room or no allowed
/// start.
pub open spec fn unplaceable(e: Entry) -> bool {
    e.0.allowed_rooms@.len() == 0 || e.0.allowed_starts@.len() == 0
}

/// The first of the entries before `k` that cannot be placed.
pub open spec fn first_unplaceable(entries: Seq<Entry>, k: int) -> Option<int>
    decreases k,
{
    if k <= 0 {
        None
    } else {
        match first_unplaceable(entries, k - 1) {
            Some(i) => Some(i),
            None => if unplaceable(entries[k - 1]) {
                Some(k - 1)
            } else {
                None
            },
        }
    }
}

/// `ids` added to `acc` in order, each unless already there.
pub open spec fn add_new(acc: Seq<u128>, ids: Seq<u128>) -> Seq<u128>
    decreases ids.len(),
{
    if ids.len() == 0 {
        acc
    } else {
        let prev = add_new(acc, ids.drop_last());
        if prev.contains(ids.last()) {
            prev
        } else {
            prev.push(ids.last())
        }
    }
}

/// The instructors and visitors of the entries before `k`, each once, in
/// order of first appearance (an entry's instructors before its visitors).
pub open spec fn people(entries: Seq<Entry>, k: int) -> Seq<u128>
    decreases k,
{
    if k <= 0 {
        Seq::empty()
    } else {
        add_new(
            add_new(people(entries, k - 1), entries[k - 1].0.instructor_extension_uuids@),
            entries[k - 1].0.visitor_extension_uuids@,
        )
    }
}

/// The earliest first allowed start of the entries before `k`
/// (`i32::MAX` for none).
pub open spec fn earliest_start(entries: Seq<Entry>, k: int) -> int
    decreases k,
{
    if k <= 0 {
        i32::MAX as int
    } else {
        let prev = earliest_start(entries, k - 1);
        let s = entries[k - 1].0.allowed_starts@[0] as int;
        if s < prev {
            s
        } else {
            prev
        }
    }
}

/// The latest last allowed start of the entries before `k` (`i32::MIN`
/// for none).
pub open spec fn latest_start(entries: Seq<Entry>, k: int) -> int
    decreases k,
{
    if k <= 0 {
        i32::MIN as int
    } else {
        let prev = latest_start(entries, k - 1);
        let starts = entries[k - 1].0.allowed_starts@;
        let s = starts[starts.len() - 1] as int;
        if s > prev {
            s
        } else {
            prev
        }
    }
}

/// `x / 15`, rounded toward zero.
pub open spec fn slots_between(x: int) -> int {
    if x >= 0 {
        x / 15
    } else {
        -((-x) / 15)
    }
}

/// The time span from the earliest to the latest start fits in `i32` when
/// all entries can be placed.
pub open spec fn span_fits(entries: Seq<Entry>) -> bool {
    first_unplaceable(entries, entries.len() as int) is None ==> i32::MIN <= latest_start(
        entries,
        entries.len() as int,
    ) - earliest_start(entries, entries.len() as int) <= i32::MAX
}

/// The people and the grid of a distribution.
#[derive(Debug)]
pub struct DistributionPlan {
    pub all_instructors: Vec<u128>,
    pub first_start: i32,
    pub num_starts: i32,
}

/// `id` added to `acc` unless already there.
fn push_new(acc: &mut Vec<u128>, id: u128)
    ensures
        final(acc)@ == (if old(acc)@.contains(id) {
            old(acc)@
        } else {
            old(acc)@.push(id)
        }),
{
    if !contains_id(acc, id) {
        acc.push(id);
    }
}

/// The ids of `ids` added to `acc` in order, each unless already there.
fn push_all_new(acc: &mut Vec<u128>, ids: &Vec<u128>)
    ensures
        final(acc)@ == add_new(old(acc)@, ids@),
{
    let ghost start = acc@;
    let mut i: usize = 0;
    while i < ids.len()
        invariant
            i <= ids@.len(),
            acc@ == add_new(start, ids@.subrange(0, i as int)),
        decreases ids@.len() - i,
    {
        assert(ids@.subrange(0, i + 1).drop_last() =~= ids@.subrange(0, i as int));
        push_new(acc, ids[i]);
        i = i + 1;
    }
    assert(ids@.subrange(0, i as int) =~= ids@);
}

/// Checks the entries and lays out the distribution: the first entry
/// without an allowed room or start is returned as an error; otherwise the
/// plan holds the entries' people and the grid from the earliest allowed
/// start, with one position per 15 minutes up to the latest.
pub fn plan_distribution(fractivity_entries: &Vec<Entry>) -> (res: Result<DistributionPlan, Vec<FractivityEntry>>)
    requires
        span_fits(fractivity_entries@),
    ensures
        ({
            let n = fractivity_entries@.len() as int;
            match first_unplaceable(fractivity_entries@, n) {
                Some(i) => res matches Err(list) && list@.len() == 1 && same_entry(list@[0], fractivity_entries@[i].0),
                None => res matches Ok(plan) && {
                    &&& plan.all_instructors@ == people(fractivity_entries@, n)
                    &&& plan.first_start == earliest_start(fractivity_entries@, n)
                    &&& plan.num_starts == slots_between(
                        latest_start(fractivity_entries@, n) - earliest_start(fractivity_entries@, n),
                    ) + 1
                },
            }
        }),
{
    let n = fractivity_entries.len();
    let mut all_instructors: Vec<u128> = Vec::new();
    let mut first_start: i32 = i32::MAX;
    let mut last_start: i32 = i32::MIN;
    let mut k: usize = 0;
    while k < n
        invariant
            k <= n,
            n == fractivity_entries@.len(),
            first_unplaceable(fractivity_entries@, k as int) is None,
            all_instructors@ == people(fractivity_entries@, k as int),
            first_start == earliest_start(fractivity_entries@, k as int),
            last_start == latest_start(fractivity_entries@, k as int),
        decreases n - k,
    {
        let e = &fractivity_entries[k].0;
        if e.allowed_rooms.len() == 0 || e.allowed_starts.len() == 0 {
            assert(first_unplaceable(fractivity_entries@, k + 1) == Some(k as int));
            proof {
                lemma_first_unplaceable_stays(fractivity_entries@, k + 1, n as int);
            }
            let mut list: Vec<FractivityEntry> = Vec::new();
            list.push(e.clone());
            return Err(list);
        }
        push_all_new(&mut all_instructors, &e.instructor_extension_uuids);
        push_all_new(&mut all_instructors, &e.visitor_extension_uuids);
        let s = e.allowed_starts[0];
        if s < first_start {
            first_start = s;
        }
        let t = e.allowed_starts[e.allowed_starts.len() - 1];
        if t > last_start {
            last_start = t;
        }
        k = k + 1;
    }
    let diff: i32 = last_start - first_start;
    let slots: i32 = if diff >= 0 {
        diff / 15
    } else {
        let m: i64 = -(diff as i64);
        let q: i64 = m / 15;
        -(q as i32)
    };
    Ok(DistributionPlan { all_instructors, first_start, num_starts: slots + 1 })
}

/// The first unplaceable entry stays the first as entries follow.
proof fn lemma_first_unplaceable_stays(entries: Seq<Entry>, k: int, m: int)
    requires
        0 <= k <= m,
        first_unplaceable(entries, k) is Some,
    ensures
        first_unplaceable(entries, m) == first_unplaceable(entries, k),
    decreases m - k,
{
    if k < m {
        lemma_first_unplaceable_stays(entries, k, m - 1);
    }
}

/// Whether `plan_distribution` can run on these entries (`span_fits`).
pub fn starts_span_fits(fractivity_entries: &Vec<Entry>) -> (res: bool)
    ensures
        res == span_fits(fractivity_entries@),
{
    let n = fractivity_entries.len();
    let mut first_start: i64 = i32::MAX as i64;
    let mut last_start: i64 = i32::MIN as i64;
    let mut k: usize = 0;
    while k < n
        invariant
            k <= n,
            n == fractivity_entries@.len(),
            first_unplaceable(fractivity_entries@, k as int) is None,
            first_start == earliest_start(fractivity_entries@, k as int),
            last_start == latest_start(fractivity_entries@, k as int),
            i32::MIN <= first_start <= i32::MAX,
            i32::MIN <= last_start <= i32::MAX,
        decreases n - k,
    {
        let e = &fractivity_entries[k].0;
        if e.allowed_rooms.len() == 0 || e.allowed_starts.len() == 0 {
            assert(first_unplaceable(fractivity_entries@, k + 1) == Some(k as int));
            proof {
                lemma_first_unplaceable_stays(fractivity_entries@, k + 1, n as int);
            }
            return true;
        }
        let s = e.allowed_starts[0] as i64;
        if s < first_start {
            first_start = s;
        }
        let t = e.allowed_starts[e.allowed_starts.len() - 1] as i64;
        if t > last_start {
            last_start = t;
        }
        k = k + 1;
    }
    let diff = last_start - first_start;
    i32::MIN as i64 <= diff && diff <= i32::MAX as i64
}

/// The placements with copies of the entries in place of their numbers.
pub fn collect_assignments(
    fractivity_entries: &Vec<Entry>,
    placements: &Vec<(usize, u128, i32)>,
) -> (res: Vec<(FractivityEntry, u128, i32)>)
    requires
        forall|i: int| 0 <= i < placements@.len() ==> (#[trigger] placements@[i]).0 < fractivity_entries@.len(),
    ensures
        res@.len() == placements@.len(),
        forall|i: int|
            0 <= i < placements@.len() ==> #[trigger] same_entry(res@[i].0, fractivity_entries@[placements@[i].0 as int].0)
                && res@[i].1 == placements@[i].1 && res@[i].2 == placements@[i].2,
{
    let mut res: Vec<(FractivityEntry, u128, i32)> = Vec::new();
    let mut i: usize = 0;
    while i < placements.len()
        invariant
            i <= placements@.len(),
            forall|j: int| 0 <= j < placements@.len() ==> (#[trigger] placements@[j]).0 < fractivity_entries@.len(),
            res@.len() == i,
            forall|j: int|
                0 <= j < i ==> #[trigger] same_entry(res@[j].0, fractivity_entries@[placements@[j].0 as int].0)
                    && res@[j].1 == placements@[j].1 && res@[j].2 == placements@[j].2,
        decreases placements@.len() - i,
    {
        let (a, room, start) = placements[i];
        assert(placements@[i as int].0 < fractivity_entries@.len());
        res.push((fractivity_entries[a].0.clone(), room, start));
        i = i + 1;
    }
    res
}

/// Adding ids keeps a list free of repetitions and holds exactly the ids
/// of both.
pub proof fn lemma_add_new(acc: Seq<u128>, ids: Seq<u128>)
    ensures
        acc.no_duplicates() ==> add_new(acc, ids).no_duplicates(),
        forall|x: u128| #[trigger] add_new(acc, ids).contains(x) <==> acc.contains(x) || ids.contains(x),
    decreases ids.len(),
{
    if ids.len() > 0 {
        lemma_add_new(acc, ids.drop_last());
        let prev = add_new(acc, ids.drop_last());
        assert forall|x: u128| #[trigger] add_new(acc, ids).contains(x) <==> acc.contains(x) || ids.contains(x) by {
            if ids.contains(x) && !ids.drop_last().contains(x) {
                let j = choose|j: int| 0 <= j < ids.len() && ids[j] == x;
                if j < ids.len() - 1 {
                    assert(ids.drop_last()[j] == x);
                }
                assert(x == ids.last());
            }
            if ids.drop_last().contains(x) {
                let j = choose|j: int| 0 <= j < ids.len() - 1 && ids.drop_last()[j] == x;
                assert(ids[j] == x);
            }
            if !prev.contains(ids.last()) {
                assert(prev.push(ids.last()).last() == ids.last());
                if prev.push(ids.last()).contains(x) && x != ids.last() {
                    let j = choose|j: int| 0 <= j < prev.len() + 1 && prev.push(ids.last())[j] == x;
                    assert(prev[j] == x);
                }
                if prev.contains(x) {
                    let j = choose|j: int| 0 <= j < prev.len() && prev[j] == x;
                    assert(prev.push(ids.last())[j] == x);
                }
            }
        }
        if acc.no_duplicates() && !prev.contains(ids.last()) {
            let q = prev.push(ids.last());
            assert forall|i: int, j: int| 0 <= i < j < q.len() implies q[i] != q[j] by {
                if j == q.len() - 1 {
                    assert(q[i] == prev[i]);
                }
            }
        }
    }
}

/// The people of a distribution are listed once each, and they are exactly
/// the instructors and visitors of its entries.
pub proof fn lemma_people(entries: Seq<Entry>, k: int)
    requires
        0 <= k <= entries.len(),
    ensures
        people(entries, k).no_duplicates(),
        forall|x: u128|
            #[trigger] people(entries, k).contains(x) <==> exists|a: int|
                0 <= a < k && (entries[a].0.instructor_extension_uuids@.contains(x)
                    || entries[a].0.visitor_extension_uuids@.contains(x)),
    decreases k,
{
    if k > 0 {
        lemma_people(entries, k - 1);
        let p0 = people(entries, k - 1);
        let p1 = add_new(p0, entries[k - 1].0.instructor_extension_uuids@);
        lemma_add_new(p0, entries[k - 1].0.instructor_extension_uuids@);
        lemma_add_new(p1, entries[k - 1].0.visitor_extension_uuids@);
        assert forall|x: u128|
            #[trigger] people(entries, k).contains(x) <==> exists|a: int|
                0 <= a < k && (entries[a].0.instructor_extension_uuids@.contains(x)
                    || entries[a].0.visitor_extension_uuids@.contains(x)) by {
            if p0.contains(x) {
                let a = choose|a: int|
                    0 <= a < k - 1 && (entries[a].0.instructor_extension_uuids@.contains(x)
                        || entries[a].0.visitor_extension_uuids@.contains(x));
            }
            if exists|a: int|
                0 <= a < k && (entries[a].0.instructor_extension_uuids@.contains(x)
                    || entries[a].0.visitor_extension_uuids@.contains(x)) {
                let a = choose|a: int|
                    0 <= a < k && (entries[a].0.instructor_extension_uuids@.contains(x)
                        || entries[a].0.visitor_extension_uuids@.contains(x));
                if a < k - 1 {
                    assert(p0.contains(x));
                }
            }
        }
    } else {
        assert(people(entries, k) =~= Seq::<u128>::empty());
    }
}

/// The allowed rooms of the entries before `k`, each once, in order of
/// first appearance.
pub open spec fn room_ids(entries: Seq<Entry>, k: int) -> Seq<u128>
    decreases k,
{
    if k <= 0 {
        Seq::empty()
    } else {
        add_new(room_ids(entries, k - 1), entries[k - 1].0.allowed_rooms@)
    }
}

/// The position of the last room of `known` with id `id`, or -1.
pub open spec fn last_with(known: Seq<FractivityRoom>, id: u128) -> int
    decreases known.len(),
{
    if known.len() == 0 {
        -1
    } else if known.last().id == id {
        known.len() - 1
    } else {
        last_with(known.drop_last(), id)
    }
}

/// The position of the last room of `known` with id `id`.
fn find_last_room(known: &Vec<FractivityRoom>, id: u128) -> (res: Option<usize>)
    ensures
        match res {
            Some(j) => j as int == last_with(known@, id),
            None => last_with(known@, id) == -1,
        },
{
    let mut j = known.len();
    assert(known@.subrange(0, j as int) =~= known@);
    while j > 0
        invariant
            j <= known@.len(),
            last_with(known@, id) == last_with(known@.subrange(0, j as int), id),
        decreases j,
    {
        let ghost w = known@.subrange(0, j as int);
        assert(w.last() == known@[j - 1]);
        if known[j - 1].id == id {
            return Some(j - 1);
        }
        assert(w.drop_last() =~= known@.subrange(0, j - 1));
        j = j - 1;
    }
    None
}

/// The rooms that the entries allow, each once and in order of first
/// appearance, as `known` describes them (its last description of a room
/// counts); the first allowed room that `known` does not describe is the
/// error.
pub fn rooms_of(fractivity_entries: &Vec<Entry>, known: &Vec<FractivityRoom>) -> (res: Result<Vec<FractivityRoom>, u128>)
    ensures
        ({
            let ids = room_ids(fractivity_entries@, fractivity_entries@.len() as int);
            match res {
                Ok(rooms) => {
                    &&& rooms@.len() == ids.len()
                    &&& forall|j: int| 0 <= j < ids.len() ==> last_with(known@, #[trigger] ids[j]) >= 0
                        && rooms@[j] == known@[last_with(known@, ids[j])]
                },
                Err(id) => exists|j: int|
                    0 <= j < ids.len() && #[trigger] ids[j] == id && last_with(known@, id) == -1 && forall|i: int|
                        0 <= i < j ==> last_with(known@, #[trigger] ids[i]) >= 0,
            }
        }),
{
    let n = fractivity_entries.len();
    let mut ids: Vec<u128> = Vec::new();
    let mut k: usize = 0;
    while k < n
        invariant
            k <= n,
            n == fractivity_entries@.len(),
            ids@ == room_ids(fractivity_entries@, k as int),
        decreases n - k,
    {
        push_all_new(&mut ids, &fractivity_entries[k].0.allowed_rooms);
        k = k + 1;
    }
    let mut rooms: Vec<FractivityRoom> = Vec::new();
    let mut j: usize = 0;
    while j < ids.len()
        invariant
            j <= ids@.len(),
            n == fractivity_entries@.len(),
            ids@ == room_ids(fractivity_entries@, n as int),
            rooms@.len() == j,
            forall|i: int| 0 <= i < j ==> last_with(known@, #[trigger] ids@[i]) >= 0 && rooms@[i] == known@[last_with(known@, ids@[i])],
        decreases ids@.len() - j,
    {
        match find_last_room(known, ids[j]) {
            Some(q) => {
                proof {
                    lemma_last_with(known@, ids@[j as int]);
                }
                rooms.push(known[q].clone());
            },
            None => {
                let id = ids[j];
                proof {
                    let w = j as int;
                    assert forall|i: int| 0 <= i < w implies last_with(known@, #[trigger] ids@[i]) >= 0 by {}
                    assert(0 <= w < ids@.len() && ids@[w] == id && last_with(known@, id) == -1);
                }
                return Err(id);
            },
        }
        j = j + 1;
    }
    Ok(rooms)
}

/// `last_with` is a position of `known` when it is not -1.
proof fn lemma_last_with(known: Seq<FractivityRoom>, id: u128)
    ensures
        -1 <= last_with(known, id) < known.len(),
        last_with(known, id) >= 0 ==> known[last_with(known, id)].id == id,
    decreases known.len(),
{
    if known.len() > 0 && known.last().id != id {
        lemma_last_with(known.drop_last(), id);
    }
}

} // verus!
