//! Distribution of activities by integer programs: the entries and rooms,
//! the variables of the programs, their constraints, and the sequence of
//! programs whose solutions give the distribution.
use vstd::prelude::*;

pub mod constraints;
pub mod drive;
pub mod model;
pub mod plan;
pub mod run;
pub mod slot_constraints;
pub mod slot_run;
pub mod slot_variables;
pub mod variables;

verus! {

/// A calendar date, carried along with an entry.
#[verifier::external_type_specification]
#[verifier::external_body]
pub struct ExNaiveDate(chrono::NaiveDate);

/// A room that activities can be distributed to.
#[derive(Debug)]
pub struct FractivityRoom {
    pub id: u128,
    pub priority: i32,
}

impl Clone for FractivityRoom {
    fn clone(&self) -> (res: Self)
        ensures
            res == *self,
    {
        FractivityRoom { id: self.id, priority: self.priority }
    }
}

/// An activity to distribute: its participants (instructors and visitors),
/// duration, allowed rooms and start times (minutes), and set-up and
/// clear-up times.
#[derive(Debug, PartialEq, Eq)]
pub struct FractivityEntry {
    pub id: u128,
    pub topic: String,
    pub instructor_extension_uuids: Vec<u128>,
    pub visitor_extension_uuids: Vec<u128>,
    pub duration: i32,
    pub allowed_rooms: Vec<u128>,
    pub allowed_starts: Vec<i32>,
    pub preparation_time: i32,
    pub follow_up_time: i32,
    pub start_day: chrono::NaiveDate,
}

/// `a` and `b` hold the same values.
pub open spec fn same_entry(a: FractivityEntry, b: FractivityEntry) -> bool {
    &&& a.id == b.id
    &&& a.topic@ == b.topic@
    &&& a.instructor_extension_uuids@ == b.instructor_extension_uuids@
    &&& a.visitor_extension_uuids@ == b.visitor_extension_uuids@
    &&& a.duration == b.duration
    &&& a.allowed_rooms@ == b.allowed_rooms@
    &&& a.allowed_starts@ == b.allowed_starts@
    &&& a.preparation_time == b.preparation_time
    &&& a.follow_up_time == b.follow_up_time
    &&& a.start_day == b.start_day
}

/// A copy of a list of ids.
pub fn copy_ids(v: &Vec<u128>) -> (res: Vec<u128>)
    ensures
        res@ == v@,
{
    let mut res: Vec<u128> = Vec::new();
    for i in 0..v.len()
        invariant
            res@ == v@.subrange(0, i as int),
    {
        res.push(v[i]);
        assert(res@ =~= v@.subrange(0, i + 1));
    }
    assert(v@.subrange(0, v@.len() as int) =~= v@);
    res
}

/// A copy of a list of times.
pub fn copy_times(v: &Vec<i32>) -> (res: Vec<i32>)
    ensures
        res@ == v@,
{
    let mut res: Vec<i32> = Vec::new();
    for i in 0..v.len()
        invariant
            res@ == v@.subrange(0, i as int),
    {
        res.push(v[i]);
        assert(res@ =~= v@.subrange(0, i + 1));
    }
    assert(v@.subrange(0, v@.len() as int) =~= v@);
    res
}

impl Clone for FractivityEntry {
    fn clone(&self) -> (res: Self)
        ensures
            same_entry(res, *self),
    {
        FractivityEntry {
            id: self.id,
            topic: self.topic.clone(),
            instructor_extension_uuids: copy_ids(&self.instructor_extension_uuids),
            visitor_extension_uuids: copy_ids(&self.visitor_extension_uuids),
            duration: self.duration,
            allowed_rooms: copy_ids(&self.allowed_rooms),
            allowed_starts: copy_times(&self.allowed_starts),
            preparation_time: self.preparation_time,
            follow_up_time: self.follow_up_time,
            start_day: self.start_day,
        }
    }
}

/// `id` occurs in `v`.
pub fn contains_id(v: &Vec<u128>, id: u128) -> (res: bool)
    ensures
        res == v@.contains(id),
{
    for i in 0..v.len()
        invariant
            forall|k: int| 0 <= k < i ==> v@[k] != id,
    {
        if v[i] == id {
            assert(v@[i as int] == id);
            return true;
        }
    }
    false
}

/// `t` occurs in `v`.
pub fn contains_time(v: &Vec<i32>, t: i32) -> (res: bool)
    ensures
        res == v@.contains(t),
{
    for i in 0..v.len()
        invariant
            forall|k: int| 0 <= k < i ==> v@[k] != t,
    {
        if v[i] == t {
            assert(v@[i as int] == t);
            return true;
        }
    }
    false
}

/// The start time of grid position `s`.
pub open spec fn grid_time(first_start: i32, s: int) -> int {
    first_start + 15 * s
}

/// The times that `occupies` computes for an entry starting at `s` fit in
/// `i32`.
pub open spec fn times_fit(a: FractivityEntry, s: int) -> bool {
    &&& i32::MIN <= s - a.preparation_time <= i32::MAX
    &&& i32::MIN <= s + a.duration <= i32::MAX
    &&& i32::MIN <= s + a.duration + a.follow_up_time <= i32::MAX
}

/// The entry, started at `s`, keeps its rooms and people busy at time `t`
/// (from its set-up until its clear-up ends).
pub open spec fn occupies_spec(a: FractivityEntry, s: int, t: int) -> bool {
    t >= s - a.preparation_time && t < s + a.duration + a.follow_up_time
}

/// Entry `a1` started at `s1` and entry `a2` started at `s2` overlap,
/// set-up times included.
pub open spec fn overlap_spec(a1: FractivityEntry, s1: int, a2: FractivityEntry, s2: int) -> bool {
    occupies_spec(a1, s1, s2 - a2.preparation_time) || occupies_spec(
        a2,
        s2,
        s1 - a1.preparation_time,
    )
}

/// The entry, started at `s`, keeps its rooms and people busy at time `t`.
pub fn occupies(a: &FractivityEntry, s: i32, t: i32) -> (res: bool)
    requires
        times_fit(*a, s as int),
    ensures
        res == occupies_spec(*a, s as int, t as int),
{
    t >= s - a.preparation_time && t < s + a.duration + a.follow_up_time
}

/// Entry `a1` started at `s1` and entry `a2` started at `s2` overlap.
pub fn overlap(a1: &FractivityEntry, s1: i32, a2: &FractivityEntry, s2: i32) -> (res: bool)
    requires
        times_fit(*a1, s1 as int),
        times_fit(*a2, s2 as int),
    ensures
        res == overlap_spec(*a1, s1 as int, *a2, s2 as int),
{
    occupies(a1, s1, s2 - a2.preparation_time) || occupies(a2, s2, s1 - a1.preparation_time)
}

} // verus!
