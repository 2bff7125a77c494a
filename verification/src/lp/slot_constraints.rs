//! The constraints of the slot programs.
use vstd::prelude::*;

use super::{contains_id, contains_time, grid_time, occupies, occupies_spec, times_fit, FractivityRoom};
use super::constraints::{
    copy_expr, count_set, cv, expr, lemma_count_pairs, lemma_count_set, lemma_ones_count, ones, push_constraint, row_sum,
    same_frame_lp, set_at, term1,
};
use super::model::{
    constraint_views, eval, eval_terms, holds, lemma_sat_split, lemma_unit_concat, lemma_unit_sum, satisfies, unit_terms, value,
    ConstraintV, LinConstraint, LinExpr, LpProblem, Relation,
};
use super::run::{all_ones, rows_sum};
use super::slot_variables::{cube, Cube, SlotGoal};
use super::variables::{grid, grid_fits, grid_len, max_parallel, Entry};

verus! {

/// Everything the slot constraints are made from.
pub struct SlotProgram {
    pub entries: Seq<Entry>,
    pub rooms: Seq<FractivityRoom>,
    pub instructors: Seq<u128>,
    pub first_start: i32,
    pub slots: nat,
    pub x: Cube,
    pub v: Cube,
    pub b: Seq<Seq<usize>>,
}

/// The slot program read from the arguments of `add_slot_constraints`.
pub open spec fn slot_program_of(
    entries: Seq<Entry>,
    rooms: Seq<FractivityRoom>,
    instructors: Seq<u128>,
    first_start: i32,
    num_starts: i32,
    x: Seq<Vec<Vec<Option<usize>>>>,
    v: Seq<Vec<Vec<Option<usize>>>>,
    b: Seq<Vec<usize>>,
) -> SlotProgram {
    SlotProgram {
        entries,
        rooms,
        instructors,
        first_start,
        slots: grid_len(num_starts),
        x: cube(x),
        v: cube(v),
        b: b.map_values(|r: Vec<usize>| r@),
    }
}

/// The tables of the slot program have the shapes the constraints read (the
/// visitor and parallelism tables only for a distribution), and the busy
/// times of the entries fit in `i32`.
pub open spec fn slot_program_wf(p: SlotProgram, goal: SlotGoal) -> bool {
    let n = p.entries.len();
    &&& p.x.len() == n
    &&& forall|a: int| 0 <= a < n ==> (#[trigger] p.x[a]).len() == p.slots
    &&& forall|a: int, s: int| 0 <= a < n && 0 <= s < p.slots ==> (#[trigger] p.x[a][s]).len() == p.rooms.len()
    &&& p.slots <= i32::MAX
    &&& forall|a: int, s: int|
        0 <= a < n && 0 <= s < p.slots ==> #[trigger] times_fit(p.entries[a].0, grid_time(p.first_start, s))
    &&& goal == SlotGoal::Distribution ==> {
        &&& p.v.len() == n
        &&& forall|a: int| 0 <= a < n ==> (#[trigger] p.v[a]).len() == p.instructors.len()
        &&& forall|a: int, i: int|
            0 <= a < n && 0 <= i < p.instructors.len() ==> (#[trigger] p.v[a][i]).len() == p.slots
        &&& p.b.len() == p.slots
        &&& forall|t: int| 0 <= t < p.slots ==> (#[trigger] p.b[t]).len() == max_parallel(n, p.rooms.len())
        &&& max_parallel(n, p.rooms.len()) <= i128::MAX
    }
}

/// Entry `a` takes exactly one slot (at most one when searching for
/// placeable entries).
pub open spec fn place_c(p: SlotProgram, a: int, goal: SlotGoal) -> ConstraintV {
    cv(
        expr(all_ones(p.x[a], p.x[a].len() as int), 0),
        if goal == SlotGoal::Distribution {
            Relation::Exactly
        } else {
            Relation::AtMost
        },
        expr(Seq::empty(), 1),
    )
}

/// A visitor of entry `a` at grid position `s` needs the entry to start at
/// `s`: `v <= sum of x[a][s]`.
pub open spec fn visit_c(p: SlotProgram, a: int, i: int, s: int) -> ConstraintV {
    cv(expr(seq![(p.v[a][i][s]->0, 1i128)], 0), Relation::AtMost, expr(ones(p.x[a][s]), 0))
}

/// The visitor constraints of entry `a` and instructor `i` for the grid
/// positions before `s_end`.
pub open spec fn visit_row(p: SlotProgram, a: int, i: int, s_end: int) -> Seq<ConstraintV>
    decreases s_end,
{
    if s_end <= 0 {
        Seq::empty()
    } else {
        visit_row(p, a, i, s_end - 1) + if p.v[a][i][s_end - 1] is Some {
            seq![visit_c(p, a, i, s_end - 1)]
        } else {
            Seq::empty()
        }
    }
}

/// The visitor constraints of entry `a` for the instructors before `i_end`.
pub open spec fn visit_all(p: SlotProgram, a: int, i_end: int) -> Seq<ConstraintV>
    decreases i_end,
{
    if i_end <= 0 {
        Seq::empty()
    } else {
        visit_all(p, a, i_end - 1) + visit_row(p, a, i_end - 1, p.slots as int)
    }
}

/// The constraints of the entries before `k`.
pub open spec fn entries_part(p: SlotProgram, k: int, goal: SlotGoal) -> Seq<ConstraintV>
    decreases k,
{
    if k <= 0 {
        Seq::empty()
    } else {
        entries_part(p, k - 1, goal) + seq![place_c(p, k - 1, goal)] + if goal == SlotGoal::Distribution {
            visit_all(p, k - 1, p.instructors.len() as int)
        } else {
            Seq::empty()
        }
    }
}

/// Entry `a` started at grid position `s` keeps its room and people busy at
/// grid position `t`.
pub open spec fn busy_at(p: SlotProgram, a: int, s: int, t: int) -> bool {
    occupies_spec(p.entries[a].0, grid_time(p.first_start, s), grid_time(p.first_start, t))
}

/// The slot variables of entry `a` in room `r` at the grid positions before
/// `s_end` that keep it busy at `t`.
pub open spec fn room_terms_of(p: SlotProgram, t: int, r: int, a: int, s_end: int) -> Seq<(usize, i128)>
    decreases s_end,
{
    if s_end <= 0 {
        Seq::empty()
    } else {
        room_terms_of(p, t, r, a, s_end - 1) + if busy_at(p, a, s_end - 1, t) && p.x[a][s_end - 1][r] is Some {
            seq![(p.x[a][s_end - 1][r]->0, 1i128)]
        } else {
            Seq::empty()
        }
    }
}

/// The slot variables in room `r` of the entries before `a_end` that keep
/// the room busy at `t`.
pub open spec fn room_terms(p: SlotProgram, t: int, r: int, a_end: int) -> Seq<(usize, i128)>
    decreases a_end,
{
    if a_end <= 0 {
        Seq::empty()
    } else {
        room_terms(p, t, r, a_end - 1) + room_terms_of(p, t, r, a_end - 1, p.slots as int)
    }
}

/// At most one of `terms` is set, when there are several.
pub open spec fn at_most_one(terms: Seq<(usize, i128)>) -> Seq<ConstraintV> {
    if terms.len() > 1 {
        seq![cv(expr(terms, 0), Relation::AtMost, expr(Seq::empty(), 1))]
    } else {
        Seq::empty()
    }
}

/// One entry at a time in each room before `r_end` at grid position `t`.
pub open spec fn room_cs(p: SlotProgram, t: int, r_end: int) -> Seq<ConstraintV>
    decreases r_end,
{
    if r_end <= 0 {
        Seq::empty()
    } else {
        room_cs(p, t, r_end - 1) + at_most_one(room_terms(p, t, r_end - 1, p.entries.len() as int))
    }
}

/// The slot variables of entry `a` in room `r`, at its allowed start times
/// before `s_end`, that keep it busy at `t`.
pub open spec fn teach_terms_r(p: SlotProgram, t: int, a: int, r: int, s_end: int) -> Seq<(usize, i128)>
    decreases s_end,
{
    if s_end <= 0 {
        Seq::empty()
    } else {
        let s = s_end - 1;
        teach_terms_r(p, t, a, r, s) + if p.entries[a].0.allowed_starts@.contains(grid_time(p.first_start, s) as i32)
            && busy_at(p, a, s, t) && p.x[a][s][r] is Some {
            seq![(p.x[a][s][r]->0, 1i128)]
        } else {
            Seq::empty()
        }
    }
}

/// The slot variables of entry `a`, in its allowed rooms before `r_end` and
/// at its allowed start times, that keep it busy at `t`.
pub open spec fn teach_terms(p: SlotProgram, t: int, a: int, r_end: int) -> Seq<(usize, i128)>
    decreases r_end,
{
    if r_end <= 0 {
        Seq::empty()
    } else {
        teach_terms(p, t, a, r_end - 1) + if p.entries[a].0.allowed_rooms@.contains(p.rooms[r_end - 1].id) {
            teach_terms_r(p, t, a, r_end - 1, p.slots as int)
        } else {
            Seq::empty()
        }
    }
}

/// The visitor variables of instructor `i` at entry `a`, at its allowed
/// start times before `s_end`, that keep the visitor busy at `t`.
pub open spec fn visit_terms(p: SlotProgram, t: int, i: int, a: int, s_end: int) -> Seq<(usize, i128)>
    decreases s_end,
{
    if s_end <= 0 {
        Seq::empty()
    } else {
        let s = s_end - 1;
        visit_terms(p, t, i, a, s) + if p.entries[a].0.allowed_starts@.contains(grid_time(p.first_start, s) as i32)
            && busy_at(p, a, s, t) && p.v[a][i][s] is Some {
            seq![(p.v[a][i][s]->0, 1i128)]
        } else {
            Seq::empty()
        }
    }
}

/// The variables of the entries before `a_end` that keep instructor `i`
/// busy at `t`: as an instructor of the entry, or (for a distribution) as
/// one of its visitors.
pub open spec fn instr_terms(p: SlotProgram, t: int, i: int, goal: SlotGoal, a_end: int) -> Seq<(usize, i128)>
    decreases a_end,
{
    if a_end <= 0 {
        Seq::empty()
    } else {
        let a = a_end - 1;
        let id = p.instructors[i];
        instr_terms(p, t, i, goal, a) + (if p.entries[a].0.instructor_extension_uuids@.contains(id) {
            teach_terms(p, t, a, p.rooms.len() as int)
        } else {
            Seq::empty()
        }) + (if goal == SlotGoal::Distribution && p.entries[a].0.visitor_extension_uuids@.contains(id) {
            visit_terms(p, t, i, a, p.slots as int)
        } else {
            Seq::empty()
        })
    }
}

/// One place at a time for each instructor before `i_end` at grid position
/// `t`.
pub open spec fn instr_cs(p: SlotProgram, t: int, goal: SlotGoal, i_end: int) -> Seq<ConstraintV>
    decreases i_end,
{
    if i_end <= 0 {
        Seq::empty()
    } else {
        instr_cs(p, t, goal, i_end - 1) + at_most_one(
            instr_terms(p, t, i_end - 1, goal, p.entries.len() as int),
        )
    }
}

/// The slot variables of the entries before `a_end`, in allowed rooms and
/// at allowed start times, that keep them busy at `t`.
pub open spec fn par_terms(p: SlotProgram, t: int, a_end: int) -> Seq<(usize, i128)>
    decreases a_end,
{
    if a_end <= 0 {
        Seq::empty()
    } else {
        par_terms(p, t, a_end - 1) + teach_terms(p, t, a_end - 1, p.rooms.len() as int)
    }
}

/// `busy <= mp b[t][k] + k - 1` for `k` below `k_end`.
pub open spec fn par_cs(p: SlotProgram, t: int, k_end: int, mp: int) -> Seq<ConstraintV>
    decreases k_end,
{
    if k_end <= 0 {
        Seq::empty()
    } else {
        par_cs(p, t, k_end - 1, mp) + seq![
            cv(
                expr(par_terms(p, t, p.entries.len() as int), 0),
                Relation::AtMost,
                expr(seq![(p.b[t][k_end - 1], mp as i128)], k_end - 2),
            ),
        ]
    }
}

/// The constraints of grid position `t`.
pub open spec fn time_part(p: SlotProgram, t: int, goal: SlotGoal) -> Seq<ConstraintV> {
    let mp = max_parallel(p.entries.len(), p.rooms.len()) as int;
    room_cs(p, t, p.rooms.len() as int) + instr_cs(p, t, goal, p.instructors.len() as int) + if goal
        == SlotGoal::Distribution {
        par_cs(p, t, mp, mp)
    } else {
        Seq::empty()
    }
}

/// The constraints of the grid positions before `t_end`.
pub open spec fn times_part(p: SlotProgram, t_end: int, goal: SlotGoal) -> Seq<ConstraintV>
    decreases t_end,
{
    if t_end <= 0 {
        Seq::empty()
    } else {
        times_part(p, t_end - 1, goal) + time_part(p, t_end - 1, goal)
    }
}

/// All constraints that `add_slot_constraints` adds.
pub open spec fn all_slot_constraints(p: SlotProgram, goal: SlotGoal) -> Seq<ConstraintV> {
    entries_part(p, p.entries.len() as int, goal) + times_part(p, p.slots as int, goal)
}

/// The sum of `teach_terms` for entry `a` at grid position `t`.
fn teach_sum(
    entries: &Vec<Entry>,
    rooms: &Vec<FractivityRoom>,
    x: &Vec<Vec<Vec<Option<usize>>>>,
    first_start: i32,
    num_starts: i32,
    t: i32,
    a: usize,
    Ghost(p): Ghost<SlotProgram>,
    Ghost(goal): Ghost<SlotGoal>,
) -> (res: Vec<(usize, i128)>)
    requires
        slot_program_wf(p, goal),
        p.entries == entries@,
        p.rooms == rooms@,
        p.first_start == first_start,
        p.slots == grid_len(num_starts),
        p.x == cube(x@),
        grid_fits(first_start, num_starts),
        0 <= t < num_starts,
        a < entries@.len(),
    ensures
        res@ == teach_terms(p, t as int, a as int, rooms@.len() as int),
{
    let e = &entries[a].0;
    let nr = rooms.len();
    let cur_time = first_start + 15 * t;
    let mut terms: Vec<(usize, i128)> = Vec::new();
    assert(x@[a as int]@.len() == p.slots) by {
        assert(p.x[a as int] == x@[a as int]@.map_values(|r: Vec<Option<usize>>| r@));
    }
    let mut r: usize = 0;
    while r < nr
        invariant
            r <= nr,
            nr == rooms@.len(),
            slot_program_wf(p, goal),
            p.entries == entries@,
            p.rooms == rooms@,
            p.first_start == first_start,
            p.slots == grid_len(num_starts),
            p.x == cube(x@),
            grid_fits(first_start, num_starts),
            0 <= t < num_starts,
            a < entries@.len(),
            *e == entries@[a as int].0,
            x@[a as int]@.len() == p.slots,
            cur_time == grid_time(first_start, t as int),
            terms@ == teach_terms(p, t as int, a as int, r as int),
        decreases nr - r,
    {
        let ghost before = terms@;
        if contains_id(&e.allowed_rooms, rooms[r].id) {
            let mut s: i32 = 0;
            while s < num_starts
                invariant
                    0 <= s <= num_starts,
                    r < nr,
                    nr == rooms@.len(),
                    slot_program_wf(p, goal),
                    p.entries == entries@,
                    p.rooms == rooms@,
                    p.first_start == first_start,
                    p.slots == grid_len(num_starts),
                    p.x == cube(x@),
                    grid_fits(first_start, num_starts),
                    0 <= t < num_starts,
                    a < entries@.len(),
                    *e == entries@[a as int].0,
                    x@[a as int]@.len() == p.slots,
                    cur_time == grid_time(first_start, t as int),
                    terms@ == before + teach_terms_r(p, t as int, a as int, r as int, s as int),
                decreases num_starts - s,
            {
                let cur = first_start + 15 * s;
                assert(times_fit(p.entries[a as int].0, grid_time(first_start, s as int)));
                assert(x@[a as int]@[s as int]@.len() == nr) by {
                    assert(p.x[a as int][s as int] == x@[a as int]@[s as int]@);
                }
                let ghost prev = terms@;
                let mut added = false;
                if contains_time(&e.allowed_starts, cur) && occupies(e, cur, cur_time) {
                    match x[a][s as usize][r] {
                        Some(var) => {
                            terms.push((var, 1));
                            added = true;
                        },
                        None => {},
                    }
                }
                proof {
                    assert(p.x[a as int][s as int][r as int] == x@[a as int]@[s as int]@[r as int]);
                    if !added {
                        assert(prev + Seq::<(usize, i128)>::empty() =~= prev);
                    }
                    assert(terms@ =~= before + teach_terms_r(p, t as int, a as int, r as int, s + 1));
                }
                s = s + 1;
            }
        } else {
            assert(before + Seq::<(usize, i128)>::empty() =~= before);
        }
        r = r + 1;
        assert(terms@ =~= teach_terms(p, t as int, a as int, r as int));
    }
    terms
}

/// The sum of `room_terms` for room `r` at grid position `t`.
fn room_sum(
    entries: &Vec<Entry>,
    rooms: &Vec<FractivityRoom>,
    x: &Vec<Vec<Vec<Option<usize>>>>,
    first_start: i32,
    num_starts: i32,
    t: i32,
    r: usize,
    Ghost(p): Ghost<SlotProgram>,
    Ghost(goal): Ghost<SlotGoal>,
) -> (res: Vec<(usize, i128)>)
    requires
        slot_program_wf(p, goal),
        p.entries == entries@,
        p.rooms == rooms@,
        p.first_start == first_start,
        p.slots == grid_len(num_starts),
        p.x == cube(x@),
        grid_fits(first_start, num_starts),
        0 <= t < num_starts,
        r < rooms@.len(),
    ensures
        res@ == room_terms(p, t as int, r as int, entries@.len() as int),
{
    let n = entries.len();
    let cur_time = first_start + 15 * t;
    let mut terms: Vec<(usize, i128)> = Vec::new();
    let mut a: usize = 0;
    while a < n
        invariant
            a <= n,
            n == entries@.len(),
            slot_program_wf(p, goal),
            p.entries == entries@,
            p.rooms == rooms@,
            p.first_start == first_start,
            p.slots == grid_len(num_starts),
            p.x == cube(x@),
            grid_fits(first_start, num_starts),
            0 <= t < num_starts,
            r < rooms@.len(),
            cur_time == grid_time(first_start, t as int),
            terms@ == room_terms(p, t as int, r as int, a as int),
        decreases n - a,
    {
        let ghost before = terms@;
        assert(x@[a as int]@.len() == p.slots) by {
            assert(p.x[a as int] == x@[a as int]@.map_values(|q: Vec<Option<usize>>| q@));
        }
        let mut s: i32 = 0;
        while s < num_starts
            invariant
                0 <= s <= num_starts,
                a < n,
                n == entries@.len(),
                slot_program_wf(p, goal),
                p.entries == entries@,
                p.rooms == rooms@,
                p.first_start == first_start,
                p.slots == grid_len(num_starts),
                p.x == cube(x@),
                grid_fits(first_start, num_starts),
                0 <= t < num_starts,
                r < rooms@.len(),
                x@[a as int]@.len() == p.slots,
                cur_time == grid_time(first_start, t as int),
                terms@ == before + room_terms_of(p, t as int, r as int, a as int, s as int),
            decreases num_starts - s,
        {
            let cur = first_start + 15 * s;
            assert(times_fit(p.entries[a as int].0, grid_time(first_start, s as int)));
            assert(x@[a as int]@[s as int]@.len() == rooms@.len()) by {
                assert(p.x[a as int][s as int] == x@[a as int]@[s as int]@);
            }
            let ghost prev = terms@;
            let mut added = false;
            if occupies(&entries[a].0, cur, cur_time) {
                match x[a][s as usize][r] {
                    Some(var) => {
                        terms.push((var, 1));
                        added = true;
                    },
                    None => {},
                }
            }
            proof {
                assert(p.x[a as int][s as int][r as int] == x@[a as int]@[s as int]@[r as int]);
                if !added {
                    assert(prev + Seq::<(usize, i128)>::empty() =~= prev);
                }
                assert(terms@ =~= before + room_terms_of(p, t as int, r as int, a as int, s + 1));
            }
            s = s + 1;
        }
        a = a + 1;
        assert(terms@ =~= room_terms(p, t as int, r as int, a as int));
    }
    terms
}

/// The sum of `visit_terms` for instructor `i` at entry `a` at grid
/// position `t`.
fn visit_sum(
    entries: &Vec<Entry>,
    v: &Vec<Vec<Vec<Option<usize>>>>,
    first_start: i32,
    num_starts: i32,
    t: i32,
    i: usize,
    a: usize,
    Ghost(p): Ghost<SlotProgram>,
) -> (res: Vec<(usize, i128)>)
    requires
        slot_program_wf(p, SlotGoal::Distribution),
        p.entries == entries@,
        p.first_start == first_start,
        p.slots == grid_len(num_starts),
        p.v == cube(v@),
        grid_fits(first_start, num_starts),
        0 <= t < num_starts,
        a < entries@.len(),
        i < p.instructors.len(),
    ensures
        res@ == visit_terms(p, t as int, i as int, a as int, p.slots as int),
{
    let e = &entries[a].0;
    let cur_time = first_start + 15 * t;
    let mut terms: Vec<(usize, i128)> = Vec::new();
    assert(v@[a as int]@.len() == p.instructors.len()) by {
        assert(p.v[a as int] == v@[a as int]@.map_values(|q: Vec<Option<usize>>| q@));
    }
    assert(v@[a as int]@[i as int]@.len() == p.slots) by {
        assert(p.v[a as int][i as int] == v@[a as int]@[i as int]@);
    }
    let mut s: i32 = 0;
    while s < num_starts
        invariant
            0 <= s <= num_starts,
            slot_program_wf(p, SlotGoal::Distribution),
            p.entries == entries@,
            p.first_start == first_start,
            p.slots == grid_len(num_starts),
            p.v == cube(v@),
            grid_fits(first_start, num_starts),
            0 <= t < num_starts,
            a < entries@.len(),
            i < p.instructors.len(),
            *e == entries@[a as int].0,
            v@[a as int]@.len() == p.instructors.len(),
            v@[a as int]@[i as int]@.len() == p.slots,
            cur_time == grid_time(first_start, t as int),
            terms@ == visit_terms(p, t as int, i as int, a as int, s as int),
        decreases num_starts - s,
    {
        let cur = first_start + 15 * s;
        assert(times_fit(p.entries[a as int].0, grid_time(first_start, s as int)));
        let ghost prev = terms@;
        let mut added = false;
        if contains_time(&e.allowed_starts, cur) && occupies(e, cur, cur_time) {
            match v[a][i][s as usize] {
                Some(var) => {
                    terms.push((var, 1));
                    added = true;
                },
                None => {},
            }
        }
        proof {
            assert(p.v[a as int][i as int][s as int] == v@[a as int]@[i as int]@[s as int]);
            if !added {
                assert(prev + Seq::<(usize, i128)>::empty() =~= prev);
            }
            assert(terms@ =~= visit_terms(p, t as int, i as int, a as int, s + 1));
        }
        s = s + 1;
    }
    terms
}

/// The sum of `instr_terms` for instructor `i` at grid position `t`.
fn instr_sum(
    entries: &Vec<Entry>,
    rooms: &Vec<FractivityRoom>,
    instructors: &Vec<u128>,
    x: &Vec<Vec<Vec<Option<usize>>>>,
    v: &Vec<Vec<Vec<Option<usize>>>>,
    first_start: i32,
    num_starts: i32,
    t: i32,
    i: usize,
    goal: SlotGoal,
    Ghost(p): Ghost<SlotProgram>,
) -> (res: Vec<(usize, i128)>)
    requires
        slot_program_wf(p, goal),
        p.entries == entries@,
        p.rooms == rooms@,
        p.instructors == instructors@,
        p.first_start == first_start,
        p.slots == grid_len(num_starts),
        p.x == cube(x@),
        p.v == cube(v@),
        grid_fits(first_start, num_starts),
        0 <= t < num_starts,
        i < instructors@.len(),
    ensures
        res@ == instr_terms(p, t as int, i as int, goal, entries@.len() as int),
{
    let n = entries.len();
    let id = instructors[i];
    let mut terms: Vec<(usize, i128)> = Vec::new();
    let mut a: usize = 0;
    while a < n
        invariant
            a <= n,
            n == entries@.len(),
            slot_program_wf(p, goal),
            p.entries == entries@,
            p.rooms == rooms@,
            p.instructors == instructors@,
            p.first_start == first_start,
            p.slots == grid_len(num_starts),
            p.x == cube(x@),
            p.v == cube(v@),
            grid_fits(first_start, num_starts),
            0 <= t < num_starts,
            i < instructors@.len(),
            id == instructors@[i as int],
            terms@ == instr_terms(p, t as int, i as int, goal, a as int),
        decreases n - a,
    {
        let ghost t0 = terms@;
        let teaches = contains_id(&entries[a].0.instructor_extension_uuids, id);
        if teaches {
            let mut more = teach_sum(entries, rooms, x, first_start, num_starts, t, a, Ghost(p), Ghost(goal));
            terms.append(&mut more);
        }
        let ghost t1 = terms@;
        let visits = match goal {
            SlotGoal::Distribution => contains_id(&entries[a].0.visitor_extension_uuids, id),
            SlotGoal::Placeable => false,
        };
        if visits {
            let mut more = visit_sum(entries, v, first_start, num_starts, t, i, a, Ghost(p));
            terms.append(&mut more);
        }
        proof {
            if !teaches {
                assert(t1 =~= t0 + Seq::<(usize, i128)>::empty());
            }
            if !visits {
                assert(terms@ =~= t1 + Seq::<(usize, i128)>::empty());
            }
        }
        a = a + 1;
        assert(terms@ =~= instr_terms(p, t as int, i as int, goal, a as int));
    }
    terms
}

/// The sum of `par_terms` at grid position `t`.
fn par_sum(
    entries: &Vec<Entry>,
    rooms: &Vec<FractivityRoom>,
    x: &Vec<Vec<Vec<Option<usize>>>>,
    first_start: i32,
    num_starts: i32,
    t: i32,
    Ghost(p): Ghost<SlotProgram>,
    Ghost(goal): Ghost<SlotGoal>,
) -> (res: LinExpr)
    requires
        slot_program_wf(p, goal),
        p.entries == entries@,
        p.rooms == rooms@,
        p.first_start == first_start,
        p.slots == grid_len(num_starts),
        p.x == cube(x@),
        grid_fits(first_start, num_starts),
        0 <= t < num_starts,
    ensures
        res@ == expr(par_terms(p, t as int, entries@.len() as int), 0),
{
    let n = entries.len();
    let mut terms: Vec<(usize, i128)> = Vec::new();
    let mut a: usize = 0;
    while a < n
        invariant
            a <= n,
            n == entries@.len(),
            slot_program_wf(p, goal),
            p.entries == entries@,
            p.rooms == rooms@,
            p.first_start == first_start,
            p.slots == grid_len(num_starts),
            p.x == cube(x@),
            grid_fits(first_start, num_starts),
            0 <= t < num_starts,
            terms@ == par_terms(p, t as int, a as int),
        decreases n - a,
    {
        let mut more = teach_sum(entries, rooms, x, first_start, num_starts, t, a, Ghost(p), Ghost(goal));
        terms.append(&mut more);
        a = a + 1;
    }
    LinExpr { terms, constant: 0 }
}

/// At most one of the variables of `terms` is set, when there are several.
fn push_at_most_one(problem: &mut LpProblem, terms: Vec<(usize, i128)>)
    ensures
        same_frame_lp(*final(problem), *old(problem)),
        constraint_views(final(problem).constraints@) == constraint_views(old(problem).constraints@)
            + at_most_one(terms@),
{
    let ghost base = constraint_views(problem.constraints@);
    let ghost tv = terms@;
    if terms.len() > 1 {
        let c = LinConstraint {
            lhs: LinExpr { terms, constant: 0 },
            relation: Relation::AtMost,
            rhs: LinExpr { terms: Vec::new(), constant: 1 },
        };
        assert(c@ =~= cv(expr(tv, 0), Relation::AtMost, expr(Seq::empty(), 1)));
        push_constraint(problem, c);
    } else {
        assert(base + Seq::<ConstraintV>::empty() =~= base);
    }
}

/// Adds the constraints of a slot program to `problem`.
///
/// For each entry: it takes exactly one slot (at most one when searching
/// for placeable entries); for a distribution, each visitor variable of the
/// entry at a grid position is at most the sum of the entry's slot variables
/// there. For each grid position `t`: each room holds at most one entry at
/// `t`, and each instructor is busy with at most one entry at `t` (counting
/// the entries the instructor teaches in allowed rooms and at allowed start
/// times, and for a distribution those the instructor visits), where more
/// than one variable could count; for a distribution, the entries busy at
/// `t` number at most `max_parallel b[t][k] + k - 1` for each `k` below the
/// largest parallelism.
pub fn add_slot_constraints(
    fractivity_entries: &Vec<Entry>,
    all_rooms: &Vec<FractivityRoom>,
    all_instructors: &Vec<u128>,
    first_start: i32,
    num_starts: i32,
    problem: &mut LpProblem,
    x: &Vec<Vec<Vec<Option<usize>>>>,
    v: &Vec<Vec<Vec<Option<usize>>>>,
    b: &Vec<Vec<usize>>,
    goal: SlotGoal,
)
    requires
        slot_program_wf(
            slot_program_of(fractivity_entries@, all_rooms@, all_instructors@, first_start, num_starts, x@, v@, b@),
            goal,
        ),
        grid_fits(first_start, num_starts),
    ensures
        same_frame_lp(*final(problem), *old(problem)),
        constraint_views(final(problem).constraints@) == constraint_views(old(problem).constraints@)
            + all_slot_constraints(
            slot_program_of(fractivity_entries@, all_rooms@, all_instructors@, first_start, num_starts, x@, v@, b@),
            goal,
        ),
{
    let ghost p = slot_program_of(fractivity_entries@, all_rooms@, all_instructors@, first_start, num_starts, x@, v@, b@);
    let ghost base = constraint_views(problem.constraints@);
    let n = fractivity_entries.len();
    let nr = all_rooms.len();
    let ni = all_instructors.len();
    let mut a: usize = 0;
    assert(constraint_views(problem.constraints@) =~= base + entries_part(p, 0, goal));
    while a < n
        invariant
            a <= n,
            n == fractivity_entries@.len(),
            ni == all_instructors@.len(),
            p == slot_program_of(fractivity_entries@, all_rooms@, all_instructors@, first_start, num_starts, x@, v@, b@),
            slot_program_wf(p, goal),
            grid_fits(first_start, num_starts),
            same_frame_lp(*problem, *old(problem)),
            constraint_views(problem.constraints@) == base + entries_part(p, a as int, goal),
        decreases n - a,
    {
        assert(p.x[a as int] == grid(x@[a as int]@));
        let lhs = rows_sum(&x[a]);
        let relation = match goal {
            SlotGoal::Distribution => Relation::Exactly,
            SlotGoal::Placeable => Relation::AtMost,
        };
        let c = LinConstraint { lhs, relation, rhs: LinExpr { terms: Vec::new(), constant: 1 } };
        assert(c@ =~= place_c(p, a as int, goal));
        push_constraint(problem, c);
        let ghost head = base + entries_part(p, a as int, goal) + seq![place_c(p, a as int, goal)];
        match goal {
            SlotGoal::Distribution => {
                assert(v@[a as int]@.len() == ni) by {
                    assert(p.v[a as int] == v@[a as int]@.map_values(|q: Vec<Option<usize>>| q@));
                }
                let mut i: usize = 0;
                assert(constraint_views(problem.constraints@) =~= head + visit_all(p, a as int, 0));
                while i < ni
                    invariant
                        i <= ni,
                        a < n,
                        n == fractivity_entries@.len(),
                        ni == all_instructors@.len(),
                        goal == SlotGoal::Distribution,
                        p == slot_program_of(fractivity_entries@, all_rooms@, all_instructors@, first_start, num_starts, x@, v@, b@),
                        slot_program_wf(p, goal),
                        grid_fits(first_start, num_starts),
                        v@[a as int]@.len() == ni,
                        same_frame_lp(*problem, *old(problem)),
                        constraint_views(problem.constraints@) == head + visit_all(p, a as int, i as int),
                    decreases ni - i,
                {
                    let ghost mid = constraint_views(problem.constraints@);
                    assert(v@[a as int]@[i as int]@.len() == p.slots) by {
                        assert(p.v[a as int][i as int] == v@[a as int]@[i as int]@);
                    }
                    assert(x@[a as int]@.len() == p.slots) by {
                        assert(p.x[a as int] == x@[a as int]@.map_values(|q: Vec<Option<usize>>| q@));
                    }
                    let mut s: i32 = 0;
                    assert(mid =~= mid + visit_row(p, a as int, i as int, 0));
                    while s < num_starts
                        invariant
                            0 <= s,
                            s <= num_starts || num_starts <= 0,
                            num_starts <= 0 ==> s == 0,
                            p.slots == grid_len(num_starts),
                            i < ni,
                            a < n,
                            n == fractivity_entries@.len(),
                            ni == all_instructors@.len(),
                            p == slot_program_of(fractivity_entries@, all_rooms@, all_instructors@, first_start, num_starts, x@, v@, b@),
                            slot_program_wf(p, goal),
                            goal == SlotGoal::Distribution,
                            v@[a as int]@.len() == ni,
                            v@[a as int]@[i as int]@.len() == p.slots,
                            x@[a as int]@.len() == p.slots,
                            same_frame_lp(*problem, *old(problem)),
                            constraint_views(problem.constraints@) == mid + visit_row(p, a as int, i as int, s as int),
                        decreases num_starts - s,
                    {
                        let ghost prev = constraint_views(problem.constraints@);
                        assert(p.v[a as int][i as int][s as int] == v@[a as int]@[i as int]@[s as int]);
                        assert(p.x[a as int][s as int] == x@[a as int]@[s as int]@);
                        match v[a][i][s as usize] {
                            Some(var) => {
                                let rhs = row_sum(&x[a][s as usize]);
                                let c = LinConstraint {
                                    lhs: LinExpr { terms: term1(var, 1), constant: 0 },
                                    relation: Relation::AtMost,
                                    rhs,
                                };
                                assert(c@ =~= visit_c(p, a as int, i as int, s as int));
                                push_constraint(problem, c);
                            },
                            None => {
                                assert(prev + Seq::<ConstraintV>::empty() =~= prev);
                            },
                        }
                        s = s + 1;
                        assert(constraint_views(problem.constraints@) =~= mid + visit_row(p, a as int, i as int, s as int));
                    }
                    i = i + 1;
                    assert(constraint_views(problem.constraints@) =~= head + visit_all(p, a as int, i as int));
                }
            },
            SlotGoal::Placeable => {
                assert(constraint_views(problem.constraints@) =~= head + Seq::<ConstraintV>::empty());
            },
        }
        a = a + 1;
        assert(constraint_views(problem.constraints@) =~= base + entries_part(p, a as int, goal));
    }
    let ghost mid = base + entries_part(p, n as int, goal);
    let mp = if n < nr {
        n
    } else {
        nr
    };
    let mut t: i32 = 0;
    assert(constraint_views(problem.constraints@) =~= mid + times_part(p, 0, goal));
    while t < num_starts
        invariant
            0 <= t,
            t <= num_starts || num_starts <= 0,
            num_starts <= 0 ==> t == 0,
            n == fractivity_entries@.len(),
            nr == all_rooms@.len(),
            ni == all_instructors@.len(),
            mp == max_parallel(n as nat, nr as nat),
            p == slot_program_of(fractivity_entries@, all_rooms@, all_instructors@, first_start, num_starts, x@, v@, b@),
            slot_program_wf(p, goal),
            grid_fits(first_start, num_starts),
            same_frame_lp(*problem, *old(problem)),
            constraint_views(problem.constraints@) == mid + times_part(p, t as int, goal),
        decreases num_starts - t,
    {
        let ghost t0 = constraint_views(problem.constraints@);
        let mut r: usize = 0;
        assert(t0 =~= t0 + room_cs(p, t as int, 0));
        while r < nr
            invariant
                r <= nr,
                0 <= t < num_starts,
                nr == all_rooms@.len(),
                p == slot_program_of(fractivity_entries@, all_rooms@, all_instructors@, first_start, num_starts, x@, v@, b@),
                slot_program_wf(p, goal),
                grid_fits(first_start, num_starts),
                same_frame_lp(*problem, *old(problem)),
                constraint_views(problem.constraints@) == t0 + room_cs(p, t as int, r as int),
            decreases nr - r,
        {
            let terms = room_sum(fractivity_entries, all_rooms, x, first_start, num_starts, t, r, Ghost(p), Ghost(goal));
            push_at_most_one(problem, terms);
            r = r + 1;
        }
        let ghost t1 = constraint_views(problem.constraints@);
        let mut i: usize = 0;
        assert(t1 =~= t1 + instr_cs(p, t as int, goal, 0));
        while i < ni
            invariant
                i <= ni,
                0 <= t < num_starts,
                ni == all_instructors@.len(),
                p == slot_program_of(fractivity_entries@, all_rooms@, all_instructors@, first_start, num_starts, x@, v@, b@),
                slot_program_wf(p, goal),
                grid_fits(first_start, num_starts),
                same_frame_lp(*problem, *old(problem)),
                constraint_views(problem.constraints@) == t1 + instr_cs(p, t as int, goal, i as int),
            decreases ni - i,
        {
            let terms = instr_sum(fractivity_entries, all_rooms, all_instructors, x, v, first_start, num_starts, t, i, goal, Ghost(p));
            push_at_most_one(problem, terms);
            i = i + 1;
        }
        let ghost t2 = constraint_views(problem.constraints@);
        match goal {
            SlotGoal::Distribution => {
                let busy = par_sum(fractivity_entries, all_rooms, x, first_start, num_starts, t, Ghost(p), Ghost(goal));
                assert(b@[t as int]@ == p.b[t as int]);
                let mut k: usize = 0;
                assert(t2 =~= t2 + par_cs(p, t as int, 0, mp as int));
                while k < mp
                    invariant
                        k <= mp,
                        0 <= t < num_starts,
                        goal == SlotGoal::Distribution,
                        mp == max_parallel(p.entries.len(), p.rooms.len()),
                        p == slot_program_of(fractivity_entries@, all_rooms@, all_instructors@, first_start, num_starts, x@, v@, b@),
                        slot_program_wf(p, goal),
                        b@[t as int]@ == p.b[t as int],
                        busy@ == expr(par_terms(p, t as int, p.entries.len() as int), 0),
                        same_frame_lp(*problem, *old(problem)),
                        constraint_views(problem.constraints@) == t2 + par_cs(p, t as int, k as int, mp as int),
                    decreases mp - k,
                {
                    let lhs = copy_expr(&busy);
                    let c = LinConstraint {
                        lhs,
                        relation: Relation::AtMost,
                        rhs: LinExpr { terms: term1(b[t as usize][k], mp as i128), constant: (k as i128) - 1 },
                    };
                    assert(c@ =~= cv(
                        expr(par_terms(p, t as int, p.entries.len() as int), 0),
                        Relation::AtMost,
                        expr(seq![(p.b[t as int][k as int], mp as i128)], k - 1),
                    ));
                    push_constraint(problem, c);
                    k = k + 1;
                    assert(constraint_views(problem.constraints@) =~= t2 + par_cs(p, t as int, k as int, mp as int));
                }
            },
            SlotGoal::Placeable => {},
        }
        t = t + 1;
        assert(constraint_views(problem.constraints@) =~= mid + times_part(p, t as int, goal));
    }
    assert(constraint_views(problem.constraints@) =~= base + all_slot_constraints(p, goal));
}

/// The room terms of entry `a` have coefficient 1 and hold each slot
/// variable of `a` in room `r` whose start keeps it busy at `t`.
proof fn lemma_room_terms_of(p: SlotProgram, t: int, r: int, a: int, s_end: int)
    ensures
        unit_terms(room_terms_of(p, t, r, a, s_end)),
        forall|s: int|
            0 <= s < s_end && busy_at(p, a, s, t) && p.x[a][s][r] is Some ==> #[trigger] room_terms_of(
                p,
                t,
                r,
                a,
                s_end,
            ).contains((p.x[a][s][r]->0, 1i128)),
    decreases s_end,
{
    if s_end > 0 {
        lemma_room_terms_of(p, t, r, a, s_end - 1);
        let prev = room_terms_of(p, t, r, a, s_end - 1);
        let step = if busy_at(p, a, s_end - 1, t) && p.x[a][s_end - 1][r] is Some {
            seq![(p.x[a][s_end - 1][r]->0, 1i128)]
        } else {
            Seq::<(usize, i128)>::empty()
        };
        assert(unit_terms(step));
        lemma_unit_concat(prev, step);
        assert(room_terms_of(p, t, r, a, s_end) == prev + step);
        if busy_at(p, a, s_end - 1, t) && p.x[a][s_end - 1][r] is Some {
            assert(step[0] == (p.x[a][s_end - 1][r]->0, 1i128));
            assert(step.contains((p.x[a][s_end - 1][r]->0, 1i128)));
        }
    }
}

/// The room terms of the entries before `a_end` have coefficient 1 and
/// hold each slot variable in room `r` whose start keeps its entry busy at
/// `t`.
proof fn lemma_room_terms(p: SlotProgram, t: int, r: int, a_end: int)
    ensures
        unit_terms(room_terms(p, t, r, a_end)),
        forall|a: int, s: int|
            0 <= a < a_end && 0 <= s < p.slots && busy_at(p, a, s, t) && p.x[a][s][r] is Some
                ==> #[trigger] room_terms(p, t, r, a_end).contains((p.x[a][s][r]->0, 1i128)),
    decreases a_end,
{
    if a_end > 0 {
        lemma_room_terms(p, t, r, a_end - 1);
        lemma_room_terms_of(p, t, r, a_end - 1, p.slots as int);
        lemma_unit_concat(room_terms(p, t, r, a_end - 1), room_terms_of(p, t, r, a_end - 1, p.slots as int));
    }
}

/// The teaching terms of entry `a` in room `r` have coefficient 1 and hold
/// each slot variable at an allowed start that keeps it busy at `t`.
proof fn lemma_teach_terms_r(p: SlotProgram, t: int, a: int, r: int, s_end: int)
    ensures
        unit_terms(teach_terms_r(p, t, a, r, s_end)),
        forall|s: int|
            0 <= s < s_end && p.entries[a].0.allowed_starts@.contains(grid_time(p.first_start, s) as i32)
                && busy_at(p, a, s, t) && p.x[a][s][r] is Some ==> #[trigger] teach_terms_r(
                p,
                t,
                a,
                r,
                s_end,
            ).contains((p.x[a][s][r]->0, 1i128)),
    decreases s_end,
{
    if s_end > 0 {
        let s = s_end - 1;
        lemma_teach_terms_r(p, t, a, r, s);
        let prev = teach_terms_r(p, t, a, r, s);
        let step = if p.entries[a].0.allowed_starts@.contains(grid_time(p.first_start, s) as i32) && busy_at(p, a, s, t)
            && p.x[a][s][r] is Some {
            seq![(p.x[a][s][r]->0, 1i128)]
        } else {
            Seq::<(usize, i128)>::empty()
        };
        assert(unit_terms(step));
        lemma_unit_concat(prev, step);
        assert(teach_terms_r(p, t, a, r, s_end) == prev + step);
        if p.entries[a].0.allowed_starts@.contains(grid_time(p.first_start, s) as i32) && busy_at(p, a, s, t)
            && p.x[a][s][r] is Some {
            assert(step[0] == (p.x[a][s][r]->0, 1i128));
            assert(step.contains((p.x[a][s][r]->0, 1i128)));
        }
    }
}

/// The teaching terms of entry `a` have coefficient 1 and hold each slot
/// variable in an allowed room at an allowed start that keeps it busy at
/// `t`.
proof fn lemma_teach_terms(p: SlotProgram, t: int, a: int, r_end: int)
    ensures
        unit_terms(teach_terms(p, t, a, r_end)),
        forall|r: int, s: int|
            0 <= r < r_end && 0 <= s < p.slots && p.entries[a].0.allowed_rooms@.contains(p.rooms[r].id)
                && p.entries[a].0.allowed_starts@.contains(grid_time(p.first_start, s) as i32) && busy_at(p, a, s, t)
                && p.x[a][s][r] is Some ==> #[trigger] teach_terms(p, t, a, r_end).contains((p.x[a][s][r]->0, 1i128)),
    decreases r_end,
{
    if r_end > 0 {
        lemma_teach_terms(p, t, a, r_end - 1);
        let prev = teach_terms(p, t, a, r_end - 1);
        if p.entries[a].0.allowed_rooms@.contains(p.rooms[r_end - 1].id) {
            lemma_teach_terms_r(p, t, a, r_end - 1, p.slots as int);
            lemma_unit_concat(prev, teach_terms_r(p, t, a, r_end - 1, p.slots as int));
        } else {
            assert(teach_terms(p, t, a, r_end) =~= prev);
        }
    }
}

/// The visiting terms have coefficient 1 and hold each visitor variable at
/// an allowed start that keeps the entry busy at `t`.
proof fn lemma_visit_terms(p: SlotProgram, t: int, i: int, a: int, s_end: int)
    ensures
        unit_terms(visit_terms(p, t, i, a, s_end)),
        forall|s: int|
            0 <= s < s_end && p.entries[a].0.allowed_starts@.contains(grid_time(p.first_start, s) as i32)
                && busy_at(p, a, s, t) && p.v[a][i][s] is Some ==> #[trigger] visit_terms(p, t, i, a, s_end).contains(
                (p.v[a][i][s]->0, 1i128),
            ),
    decreases s_end,
{
    if s_end > 0 {
        let s = s_end - 1;
        lemma_visit_terms(p, t, i, a, s);
        let step = if p.entries[a].0.allowed_starts@.contains(grid_time(p.first_start, s) as i32) && busy_at(p, a, s, t)
            && p.v[a][i][s] is Some {
            seq![(p.v[a][i][s]->0, 1i128)]
        } else {
            Seq::<(usize, i128)>::empty()
        };
        assert(unit_terms(step));
        lemma_unit_concat(visit_terms(p, t, i, a, s), step);
        assert(visit_terms(p, t, i, a, s_end) == visit_terms(p, t, i, a, s) + step);
        if p.entries[a].0.allowed_starts@.contains(grid_time(p.first_start, s) as i32) && busy_at(p, a, s, t)
            && p.v[a][i][s] is Some {
            assert(step[0] == (p.v[a][i][s]->0, 1i128));
            assert(step.contains((p.v[a][i][s]->0, 1i128)));
        }
    }
}

/// The terms of person `i` have coefficient 1 and hold each slot variable
/// of an entry that `i` teaches, in an allowed room at an allowed start that
/// keeps the entry busy at `t`.
proof fn lemma_instr_terms(p: SlotProgram, t: int, i: int, goal: SlotGoal, a_end: int)
    ensures
        unit_terms(instr_terms(p, t, i, goal, a_end)),
        forall|a: int, r: int, s: int|
            0 <= a < a_end && 0 <= r < p.rooms.len() && 0 <= s < p.slots
                && p.entries[a].0.instructor_extension_uuids@.contains(p.instructors[i])
                && p.entries[a].0.allowed_rooms@.contains(p.rooms[r].id) && p.entries[a].0.allowed_starts@.contains(
                grid_time(p.first_start, s) as i32,
            ) && busy_at(p, a, s, t) && p.x[a][s][r] is Some ==> #[trigger] instr_terms(p, t, i, goal, a_end).contains(
                (p.x[a][s][r]->0, 1i128),
            ),
        forall|a: int, s: int|
            0 <= a < a_end && 0 <= s < p.slots && goal == SlotGoal::Distribution
                && p.entries[a].0.visitor_extension_uuids@.contains(p.instructors[i])
                && p.entries[a].0.allowed_starts@.contains(grid_time(p.first_start, s) as i32) && busy_at(p, a, s, t)
                && p.v[a][i][s] is Some ==> #[trigger] instr_terms(p, t, i, goal, a_end).contains(
                (p.v[a][i][s]->0, 1i128),
            ),
    decreases a_end,
{
    if a_end > 0 {
        let a = a_end - 1;
        let id = p.instructors[i];
        lemma_instr_terms(p, t, i, goal, a);
        let prev = instr_terms(p, t, i, goal, a);
        let teach = if p.entries[a].0.instructor_extension_uuids@.contains(id) {
            teach_terms(p, t, a, p.rooms.len() as int)
        } else {
            Seq::<(usize, i128)>::empty()
        };
        let visit = if goal == SlotGoal::Distribution && p.entries[a].0.visitor_extension_uuids@.contains(id) {
            visit_terms(p, t, i, a, p.slots as int)
        } else {
            Seq::<(usize, i128)>::empty()
        };
        lemma_teach_terms(p, t, a, p.rooms.len() as int);
        lemma_visit_terms(p, t, i, a, p.slots as int);
        assert(unit_terms(teach));
        assert(unit_terms(visit));
        lemma_unit_concat(prev, teach);
        lemma_unit_concat(prev + teach, visit);
        assert(instr_terms(p, t, i, goal, a_end) == prev + teach + visit);
    }
}

/// A solution of the slot constraints meets the constraints of each grid
/// position.
proof fn lemma_time_part_sat(p: SlotProgram, goal: SlotGoal, vals: Seq<bool>, t_end: int, t: int)
    requires
        0 <= t < t_end,
        satisfies(times_part(p, t_end, goal), vals),
    ensures
        satisfies(time_part(p, t, goal), vals),
    decreases t_end,
{
    lemma_sat_split(times_part(p, t_end - 1, goal), time_part(p, t_end - 1, goal), vals);
    if t < t_end - 1 {
        lemma_time_part_sat(p, goal, vals, t_end - 1, t);
    }
}

/// A solution of the room constraints of a grid position meets each.
proof fn lemma_room_cs_sat(p: SlotProgram, vals: Seq<bool>, t: int, r_end: int, r: int)
    requires
        0 <= r < r_end,
        satisfies(room_cs(p, t, r_end), vals),
    ensures
        satisfies(at_most_one(room_terms(p, t, r, p.entries.len() as int)), vals),
    decreases r_end,
{
    lemma_sat_split(room_cs(p, t, r_end - 1), at_most_one(room_terms(p, t, r_end - 1, p.entries.len() as int)), vals);
    if r < r_end - 1 {
        lemma_room_cs_sat(p, vals, t, r_end - 1, r);
    }
}

/// A solution of the person constraints of a grid position meets each.
proof fn lemma_instr_cs_sat(p: SlotProgram, goal: SlotGoal, vals: Seq<bool>, t: int, i_end: int, i: int)
    requires
        0 <= i < i_end,
        satisfies(instr_cs(p, t, goal, i_end), vals),
    ensures
        satisfies(at_most_one(instr_terms(p, t, i, goal, p.entries.len() as int)), vals),
    decreases i_end,
{
    lemma_sat_split(
        instr_cs(p, t, goal, i_end - 1),
        at_most_one(instr_terms(p, t, i_end - 1, goal, p.entries.len() as int)),
        vals,
    );
    if i < i_end - 1 {
        lemma_instr_cs_sat(p, goal, vals, t, i_end - 1, i);
    }
}

/// A solution of the slot constraints meets the constraints of grid
/// position `t`.
proof fn lemma_slot_time_sat(p: SlotProgram, goal: SlotGoal, vals: Seq<bool>, t: int)
    requires
        0 <= t < p.slots,
        satisfies(all_slot_constraints(p, goal), vals),
    ensures
        satisfies(room_cs(p, t, p.rooms.len() as int), vals),
        satisfies(instr_cs(p, t, goal, p.instructors.len() as int), vals),
{
    lemma_sat_split(entries_part(p, p.entries.len() as int, goal), times_part(p, p.slots as int, goal), vals);
    lemma_time_part_sat(p, goal, vals, p.slots as int, t);
    let mp = max_parallel(p.entries.len(), p.rooms.len()) as int;
    let par = if goal == SlotGoal::Distribution {
        par_cs(p, t, mp, mp)
    } else {
        Seq::<ConstraintV>::empty()
    };
    assert(time_part(p, t, goal) == room_cs(p, t, p.rooms.len() as int) + instr_cs(p, t, goal, p.instructors.len() as int)
        + par);
    lemma_sat_split(room_cs(p, t, p.rooms.len() as int) + instr_cs(p, t, goal, p.instructors.len() as int), par, vals);
    lemma_sat_split(room_cs(p, t, p.rooms.len() as int), instr_cs(p, t, goal, p.instructors.len() as int), vals);
}

/// Two different set variables among terms of an at-most-one constraint
/// that a solution meets cannot both be set.
proof fn lemma_at_most_one(terms: Seq<(usize, i128)>, vals: Seq<bool>, x: usize, y: usize)
    requires
        unit_terms(terms),
        satisfies(at_most_one(terms), vals),
        x != y,
        terms.contains((x, 1i128)),
        terms.contains((y, 1i128)),
    ensures
        !(value(vals, x) == 1 && value(vals, y) == 1),
{
    lemma_unit_sum(terms, vals, x, y);
    let c = at_most_one(terms)[0];
    assert(holds(c, vals));
    assert(eval(c.rhs, vals) == 1) by {
        assert(Seq::<(usize, i128)>::empty().len() == 0);
    }
}

/// A room hosts one activity at a time: in every solution of the slot
/// program's constraints, two different set slot variables of the same room
/// never belong to starts whose activities are both busy (from the start of
/// their set-up to the end of their clear-up) at a grid position.
pub proof fn lemma_slot_room_one_at_a_time(
    p: SlotProgram,
    goal: SlotGoal,
    vals: Seq<bool>,
    r: int,
    a1: int,
    s1: int,
    a2: int,
    s2: int,
    t: int,
)
    requires
        satisfies(all_slot_constraints(p, goal), vals),
        0 <= r < p.rooms.len(),
        0 <= a1 < p.entries.len(),
        0 <= a2 < p.entries.len(),
        0 <= s1 < p.slots,
        0 <= s2 < p.slots,
        0 <= t < p.slots,
        p.x[a1][s1][r] is Some,
        p.x[a2][s2][r] is Some,
        p.x[a1][s1][r]->0 != p.x[a2][s2][r]->0,
        value(vals, p.x[a1][s1][r]->0) == 1,
        value(vals, p.x[a2][s2][r]->0) == 1,
    ensures
        !(occupies_spec(p.entries[a1].0, grid_time(p.first_start, s1), grid_time(p.first_start, t)) && occupies_spec(
            p.entries[a2].0,
            grid_time(p.first_start, s2),
            grid_time(p.first_start, t),
        )),
{
    if busy_at(p, a1, s1, t) && busy_at(p, a2, s2, t) {
        let n = p.entries.len() as int;
        lemma_slot_time_sat(p, goal, vals, t);
        lemma_room_cs_sat(p, vals, t, p.rooms.len() as int, r);
        lemma_room_terms(p, t, r, n);
        assert(room_terms(p, t, r, n).contains((p.x[a1][s1][r]->0, 1i128)));
        assert(room_terms(p, t, r, n).contains((p.x[a2][s2][r]->0, 1i128)));
        lemma_unit_sum(room_terms(p, t, r, n), vals, p.x[a1][s1][r]->0, p.x[a2][s2][r]->0);
        lemma_at_most_one(room_terms(p, t, r, n), vals, p.x[a1][s1][r]->0, p.x[a2][s2][r]->0);
    }
}

/// A person teaches one activity at a time: in every solution of the slot
/// program's constraints, two different set slot variables of activities
/// that person `i` teaches, each in an allowed room and at an allowed start,
/// never belong to starts whose activities are both busy (from the start
/// of their set-up to the end of their clear-up) at a grid position.
pub proof fn lemma_slot_teacher_one_at_a_time(
    p: SlotProgram,
    goal: SlotGoal,
    vals: Seq<bool>,
    i: int,
    a1: int,
    s1: int,
    r1: int,
    a2: int,
    s2: int,
    r2: int,
    t: int,
)
    requires
        satisfies(all_slot_constraints(p, goal), vals),
        0 <= i < p.instructors.len(),
        0 <= a1 < p.entries.len(),
        0 <= a2 < p.entries.len(),
        0 <= s1 < p.slots,
        0 <= s2 < p.slots,
        0 <= r1 < p.rooms.len(),
        0 <= r2 < p.rooms.len(),
        0 <= t < p.slots,
        p.entries[a1].0.instructor_extension_uuids@.contains(p.instructors[i]),
        p.entries[a2].0.instructor_extension_uuids@.contains(p.instructors[i]),
        p.entries[a1].0.allowed_rooms@.contains(p.rooms[r1].id),
        p.entries[a2].0.allowed_rooms@.contains(p.rooms[r2].id),
        p.entries[a1].0.allowed_starts@.contains(grid_time(p.first_start, s1) as i32),
        p.entries[a2].0.allowed_starts@.contains(grid_time(p.first_start, s2) as i32),
        p.x[a1][s1][r1] is Some,
        p.x[a2][s2][r2] is Some,
        p.x[a1][s1][r1]->0 != p.x[a2][s2][r2]->0,
        value(vals, p.x[a1][s1][r1]->0) == 1,
        value(vals, p.x[a2][s2][r2]->0) == 1,
    ensures
        !(occupies_spec(p.entries[a1].0, grid_time(p.first_start, s1), grid_time(p.first_start, t)) && occupies_spec(
            p.entries[a2].0,
            grid_time(p.first_start, s2),
            grid_time(p.first_start, t),
        )),
{
    if busy_at(p, a1, s1, t) && busy_at(p, a2, s2, t) {
        let n = p.entries.len() as int;
        lemma_slot_time_sat(p, goal, vals, t);
        lemma_instr_cs_sat(p, goal, vals, t, p.instructors.len() as int, i);
        lemma_instr_terms(p, t, i, goal, n);
        let terms = instr_terms(p, t, i, goal, n);
        assert(terms.contains((p.x[a1][s1][r1]->0, 1i128)));
        assert(terms.contains((p.x[a2][s2][r2]->0, 1i128)));
        lemma_unit_sum(terms, vals, p.x[a1][s1][r1]->0, p.x[a2][s2][r2]->0);
        lemma_at_most_one(terms, vals, p.x[a1][s1][r1]->0, p.x[a2][s2][r2]->0);
    }
}

/// The number of set positions in the rows before `k`.
pub open spec fn count_rows(rows: Seq<Seq<Option<usize>>>, vals: Seq<bool>, k: int) -> int
    decreases k,
{
    if k <= 0 {
        0
    } else {
        count_rows(rows, vals, k - 1) + count_set(rows[k - 1], vals)
    }
}

/// Position (`s`, `r`) of `rows` holds a variable that is set in `vals`.
pub open spec fn set_cell(rows: Seq<Seq<Option<usize>>>, vals: Seq<bool>, s: int, r: int) -> bool {
    0 <= s < rows.len() && set_at(rows[s], vals, r)
}

/// The sum of all variables of the rows before `k` counts their set
/// positions; a count of at most one leaves at most one set position, and a
/// count of one leaves exactly one.
proof fn lemma_rows_count(rows: Seq<Seq<Option<usize>>>, vals: Seq<bool>, k: int)
    requires
        0 <= k <= rows.len(),
    ensures
        eval_terms(all_ones(rows, k), vals) == count_rows(rows, vals, k),
        count_rows(rows, vals, k) >= 0,
        count_rows(rows, vals, k) == 0 ==> forall|s: int, r: int| 0 <= s < k ==> !set_cell(rows, vals, s, r),
        count_rows(rows, vals, k) <= 1 ==> forall|s: int, r: int, s2: int, r2: int|
            0 <= s < k && 0 <= s2 < k && set_cell(rows, vals, s, r) && set_cell(rows, vals, s2, r2) ==> s == s2 && r
                == r2,
        count_rows(rows, vals, k) == 1 ==> exists|s: int, r: int| 0 <= s < k && set_cell(rows, vals, s, r),
    decreases k,
{
    if k > 0 {
        let row = rows[k - 1];
        lemma_rows_count(rows, vals, k - 1);
        lemma_ones_count(row, vals);
        lemma_count_set(row, vals);
        lemma_count_pairs(row, vals);
        super::model::lemma_eval_concat(all_ones(rows, k - 1), ones(row), vals);
        if count_rows(rows, vals, k) == 1 {
            if count_set(row, vals) == 1 {
                let r = choose|i: int| set_at(row, vals, i) && forall|j: int| j != i ==> !#[trigger] set_at(row, vals, j);
                assert(set_cell(rows, vals, k - 1, r));
            } else {
                let (s, r) = choose|s: int, r: int| 0 <= s < k - 1 && set_cell(rows, vals, s, r);
                assert(set_cell(rows, vals, s, r));
            }
        }
    }
}

/// A solution of the constraints of the entries before `k` meets the
/// placing constraint of each.
proof fn lemma_place_sat(p: SlotProgram, goal: SlotGoal, vals: Seq<bool>, k: int, a: int)
    requires
        0 <= a < k,
        satisfies(entries_part(p, k, goal), vals),
    ensures
        holds(place_c(p, a, goal), vals),
    decreases k,
{
    let visits = if goal == SlotGoal::Distribution {
        visit_all(p, k - 1, p.instructors.len() as int)
    } else {
        Seq::<ConstraintV>::empty()
    };
    assert(entries_part(p, k, goal) == entries_part(p, k - 1, goal) + seq![place_c(p, k - 1, goal)] + visits);
    lemma_sat_split(entries_part(p, k - 1, goal) + seq![place_c(p, k - 1, goal)], visits, vals);
    lemma_sat_split(entries_part(p, k - 1, goal), seq![place_c(p, k - 1, goal)], vals);
    if a < k - 1 {
        lemma_place_sat(p, goal, vals, k - 1, a);
    } else {
        assert(holds(seq![place_c(p, k - 1, goal)][0], vals));
    }
}

/// Each entry takes at most one slot (one start in one room) in every
/// solution of the slot constraints, and exactly one for a distribution.
pub proof fn lemma_slot_each_entry_once(p: SlotProgram, goal: SlotGoal, vals: Seq<bool>, a: int)
    requires
        0 <= a < p.entries.len(),
        satisfies(all_slot_constraints(p, goal), vals),
    ensures
        forall|s: int, r: int, s2: int, r2: int|
            set_cell(p.x[a], vals, s, r) && set_cell(p.x[a], vals, s2, r2) ==> s == s2 && r == r2,
        goal == SlotGoal::Distribution ==> exists|s: int, r: int| set_cell(p.x[a], vals, s, r),
{
    lemma_sat_split(entries_part(p, p.entries.len() as int, goal), times_part(p, p.slots as int, goal), vals);
    lemma_place_sat(p, goal, vals, p.entries.len() as int, a);
    lemma_rows_count(p.x[a], vals, p.x[a].len() as int);
    assert(eval(expr(Seq::empty(), 1), vals) == 1);
}

/// A row with a positive count has a set position.
proof fn lemma_count_positive(row: Seq<Option<usize>>, vals: Seq<bool>)
    ensures
        count_set(row, vals) > 0 ==> exists|i: int| set_at(row, vals, i),
    decreases row.len(),
{
    if row.len() > 0 {
        let u = row.drop_last();
        lemma_count_positive(u, vals);
        if count_set(row, vals) > 0 && !set_at(row, vals, row.len() - 1) {
            assert(count_set(u, vals) > 0);
            let i = choose|i: int| set_at(u, vals, i);
            assert(u[i] == row[i]);
            assert(set_at(row, vals, i));
        }
    }
}

/// A solution of the visitor constraints of entry `a` and person `i`
/// meets each.
proof fn lemma_visit_row_sat(p: SlotProgram, vals: Seq<bool>, a: int, i: int, s_end: int, s: int)
    requires
        0 <= s < s_end,
        satisfies(visit_row(p, a, i, s_end), vals),
        p.v[a][i][s] is Some,
    ensures
        holds(visit_c(p, a, i, s), vals),
    decreases s_end,
{
    let prev = visit_row(p, a, i, s_end - 1);
    let step = if p.v[a][i][s_end - 1] is Some {
        seq![visit_c(p, a, i, s_end - 1)]
    } else {
        Seq::<ConstraintV>::empty()
    };
    assert(visit_row(p, a, i, s_end) == prev + step);
    lemma_sat_split(prev, step, vals);
    if s < s_end - 1 {
        lemma_visit_row_sat(p, vals, a, i, s_end - 1, s);
    } else {
        assert(holds(step[0], vals));
    }
}

/// A solution of the visitor constraints of entry `a` meets those of each
/// person.
proof fn lemma_visit_all_sat(p: SlotProgram, vals: Seq<bool>, a: int, i_end: int, i: int)
    requires
        0 <= i < i_end,
        satisfies(visit_all(p, a, i_end), vals),
    ensures
        satisfies(visit_row(p, a, i, p.slots as int), vals),
    decreases i_end,
{
    lemma_sat_split(visit_all(p, a, i_end - 1), visit_row(p, a, i_end - 1, p.slots as int), vals);
    if i < i_end - 1 {
        lemma_visit_all_sat(p, vals, a, i_end - 1, i);
    }
}

/// A solution of the constraints of the entries before `k` meets the
/// visitor constraints of each (for a distribution).
proof fn lemma_entry_visits_sat(p: SlotProgram, vals: Seq<bool>, k: int, a: int)
    requires
        0 <= a < k,
        satisfies(entries_part(p, k, SlotGoal::Distribution), vals),
    ensures
        satisfies(visit_all(p, a, p.instructors.len() as int), vals),
    decreases k,
{
    let goal = SlotGoal::Distribution;
    let visits = visit_all(p, k - 1, p.instructors.len() as int);
    assert(entries_part(p, k, goal) == entries_part(p, k - 1, goal) + seq![place_c(p, k - 1, goal)] + visits);
    lemma_sat_split(entries_part(p, k - 1, goal) + seq![place_c(p, k - 1, goal)], visits, vals);
    lemma_sat_split(entries_part(p, k - 1, goal), seq![place_c(p, k - 1, goal)], vals);
    if a < k - 1 {
        lemma_entry_visits_sat(p, vals, k - 1, a);
    }
}

/// A visit needs the activity: in every solution of the distribution's slot
/// constraints, a set visitor variable of person `i` at entry `a` for grid
/// position `s` comes with a set slot variable of `a` at `s` in some room.
pub proof fn lemma_slot_visit_needs_start(p: SlotProgram, vals: Seq<bool>, a: int, i: int, s: int)
    requires
        satisfies(all_slot_constraints(p, SlotGoal::Distribution), vals),
        0 <= a < p.entries.len(),
        0 <= i < p.instructors.len(),
        0 <= s < p.slots,
        p.v[a][i][s] is Some,
        value(vals, p.v[a][i][s]->0) == 1,
    ensures
        exists|r: int| set_at(p.x[a][s], vals, r),
{
    let goal = SlotGoal::Distribution;
    lemma_sat_split(entries_part(p, p.entries.len() as int, goal), times_part(p, p.slots as int, goal), vals);
    lemma_entry_visits_sat(p, vals, p.entries.len() as int, a);
    lemma_visit_all_sat(p, vals, a, p.instructors.len() as int, i);
    lemma_visit_row_sat(p, vals, a, i, p.slots as int, s);
    super::constraints::lemma_eval_single(p.v[a][i][s]->0, 1, vals);
    lemma_ones_count(p.x[a][s], vals);
    lemma_count_positive(p.x[a][s], vals);
}

/// A person is at one activity at a time, whether teaching or visiting: in
/// every solution of the distribution's slot constraints, a set visitor
/// variable of person `i` at entry `a1` for an allowed start `s1`, and a
/// different set variable that puts `i` at entry `a2` (a slot variable of
/// an entry `i` teaches, in an allowed room at an allowed start) never have
/// both activities busy at a grid position.
pub proof fn lemma_slot_visitor_one_at_a_time(
    p: SlotProgram,
    vals: Seq<bool>,
    i: int,
    a1: int,
    s1: int,
    a2: int,
    s2: int,
    r2: int,
    t: int,
)
    requires
        satisfies(all_slot_constraints(p, SlotGoal::Distribution), vals),
        0 <= i < p.instructors.len(),
        0 <= a1 < p.entries.len(),
        0 <= a2 < p.entries.len(),
        0 <= s1 < p.slots,
        0 <= s2 < p.slots,
        0 <= r2 < p.rooms.len(),
        0 <= t < p.slots,
        p.entries[a1].0.visitor_extension_uuids@.contains(p.instructors[i]),
        p.entries[a1].0.allowed_starts@.contains(grid_time(p.first_start, s1) as i32),
        p.entries[a2].0.instructor_extension_uuids@.contains(p.instructors[i]),
        p.entries[a2].0.allowed_rooms@.contains(p.rooms[r2].id),
        p.entries[a2].0.allowed_starts@.contains(grid_time(p.first_start, s2) as i32),
        p.v[a1][i][s1] is Some,
        p.x[a2][s2][r2] is Some,
        p.v[a1][i][s1]->0 != p.x[a2][s2][r2]->0,
        value(vals, p.v[a1][i][s1]->0) == 1,
        value(vals, p.x[a2][s2][r2]->0) == 1,
    ensures
        !(occupies_spec(p.entries[a1].0, grid_time(p.first_start, s1), grid_time(p.first_start, t)) && occupies_spec(
            p.entries[a2].0,
            grid_time(p.first_start, s2),
            grid_time(p.first_start, t),
        )),
{
    let goal = SlotGoal::Distribution;
    if busy_at(p, a1, s1, t) && busy_at(p, a2, s2, t) {
        let n = p.entries.len() as int;
        lemma_slot_time_sat(p, goal, vals, t);
        lemma_instr_cs_sat(p, goal, vals, t, p.instructors.len() as int, i);
        lemma_instr_terms(p, t, i, goal, n);
        let terms = instr_terms(p, t, i, goal, n);
        assert(terms.contains((p.v[a1][i][s1]->0, 1i128)));
        assert(terms.contains((p.x[a2][s2][r2]->0, 1i128)));
        lemma_at_most_one(terms, vals, p.v[a1][i][s1]->0, p.x[a2][s2][r2]->0);
    }
}

/// The number of set slot variables of entry `a` in room `r`, at its allowed
/// start times before grid position `s_end`, that keep it busy at grid
/// position `t`.
pub open spec fn slot_busy_r(p: SlotProgram, t: int, vals: Seq<bool>, a: int, r: int, s_end: int) -> int
    decreases s_end,
{
    if s_end <= 0 {
        0
    } else {
        let s = s_end - 1;
        slot_busy_r(p, t, vals, a, r, s) + if p.entries[a].0.allowed_starts@.contains(grid_time(p.first_start, s) as i32)
            && occupies_spec(p.entries[a].0, grid_time(p.first_start, s), grid_time(p.first_start, t))
            && p.x[a][s][r] is Some && value(vals, p.x[a][s][r]->0) == 1 {
            1int
        } else {
            0int
        }
    }
}

/// The number of set slot variables of entry `a`, in its allowed rooms
/// before `r_end`, that keep it busy at grid position `t`.
pub open spec fn slot_busy_of(p: SlotProgram, t: int, vals: Seq<bool>, a: int, r_end: int) -> int
    decreases r_end,
{
    if r_end <= 0 {
        0
    } else {
        slot_busy_of(p, t, vals, a, r_end - 1) + if p.entries[a].0.allowed_rooms@.contains(p.rooms[r_end - 1].id) {
            slot_busy_r(p, t, vals, a, r_end - 1, p.slots as int)
        } else {
            0int
        }
    }
}

/// The number of set slot variables of the entries before `a_end` that
/// keep them busy at grid position `t`.
pub open spec fn slot_busy(p: SlotProgram, t: int, vals: Seq<bool>, a_end: int) -> int
    decreases a_end,
{
    if a_end <= 0 {
        0
    } else {
        slot_busy(p, t, vals, a_end - 1) + slot_busy_of(p, t, vals, a_end - 1, p.rooms.len() as int)
    }
}

proof fn lemma_teach_r_count(p: SlotProgram, t: int, vals: Seq<bool>, a: int, r: int, s_end: int)
    ensures
        eval_terms(teach_terms_r(p, t, a, r, s_end), vals) == slot_busy_r(p, t, vals, a, r, s_end),
    decreases s_end,
{
    if s_end > 0 {
        let s = s_end - 1;
        lemma_teach_r_count(p, t, vals, a, r, s);
        let step = if p.entries[a].0.allowed_starts@.contains(grid_time(p.first_start, s) as i32) && busy_at(p, a, s, t)
            && p.x[a][s][r] is Some {
            seq![(p.x[a][s][r]->0, 1i128)]
        } else {
            Seq::<(usize, i128)>::empty()
        };
        assert(teach_terms_r(p, t, a, r, s_end) == teach_terms_r(p, t, a, r, s) + step);
        super::model::lemma_eval_concat(teach_terms_r(p, t, a, r, s), step, vals);
        if p.x[a][s][r] is Some {
            super::constraints::lemma_eval_single(p.x[a][s][r]->0, 1, vals);
        }
        assert(eval_terms(Seq::<(usize, i128)>::empty(), vals) == 0);
    }
}

proof fn lemma_teach_count(p: SlotProgram, t: int, vals: Seq<bool>, a: int, r_end: int)
    ensures
        eval_terms(teach_terms(p, t, a, r_end), vals) == slot_busy_of(p, t, vals, a, r_end),
    decreases r_end,
{
    if r_end > 0 {
        lemma_teach_count(p, t, vals, a, r_end - 1);
        if p.entries[a].0.allowed_rooms@.contains(p.rooms[r_end - 1].id) {
            lemma_teach_r_count(p, t, vals, a, r_end - 1, p.slots as int);
            super::model::lemma_eval_concat(
                teach_terms(p, t, a, r_end - 1),
                teach_terms_r(p, t, a, r_end - 1, p.slots as int),
                vals,
            );
        } else {
            assert(teach_terms(p, t, a, r_end) =~= teach_terms(p, t, a, r_end - 1));
        }
    }
}

proof fn lemma_par_count(p: SlotProgram, t: int, vals: Seq<bool>, a_end: int)
    ensures
        eval_terms(par_terms(p, t, a_end), vals) == slot_busy(p, t, vals, a_end),
    decreases a_end,
{
    if a_end > 0 {
        lemma_par_count(p, t, vals, a_end - 1);
        lemma_teach_count(p, t, vals, a_end - 1, p.rooms.len() as int);
        super::model::lemma_eval_concat(
            par_terms(p, t, a_end - 1),
            teach_terms(p, t, a_end - 1, p.rooms.len() as int),
            vals,
        );
    }
}

proof fn lemma_par_cs_sat(p: SlotProgram, vals: Seq<bool>, t: int, k_end: int, mp: int, k: int)
    requires
        0 <= k < k_end,
        satisfies(par_cs(p, t, k_end, mp), vals),
    ensures
        holds(
            cv(expr(par_terms(p, t, p.entries.len() as int), 0), Relation::AtMost, expr(seq![(p.b[t][k], mp as i128)], k - 1)),
            vals,
        ),
    decreases k_end,
{
    let c = cv(
        expr(par_terms(p, t, p.entries.len() as int), 0),
        Relation::AtMost,
        expr(seq![(p.b[t][k_end - 1], mp as i128)], k_end - 2),
    );
    lemma_sat_split(par_cs(p, t, k_end - 1, mp), seq![c], vals);
    if k < k_end - 1 {
        lemma_par_cs_sat(p, vals, t, k_end - 1, mp, k);
    } else {
        assert(holds(seq![c][0], vals));
    }
}

/// Parallel activities are counted: in every solution of the
/// distribution's slot constraints, the parallelism variable `b[t][k]` is
/// set whenever at least `k` activities are busy at grid position `t`.
pub proof fn lemma_slot_parallel_counted(p: SlotProgram, vals: Seq<bool>, t: int, k: int)
    requires
        satisfies(all_slot_constraints(p, SlotGoal::Distribution), vals),
        0 <= t < p.slots,
        0 <= k < max_parallel(p.entries.len(), p.rooms.len()),
        slot_busy(p, t, vals, p.entries.len() as int) >= k,
    ensures
        value(vals, p.b[t][k]) == 1,
{
    let goal = SlotGoal::Distribution;
    let mp = max_parallel(p.entries.len(), p.rooms.len()) as int;
    lemma_sat_split(entries_part(p, p.entries.len() as int, goal), times_part(p, p.slots as int, goal), vals);
    lemma_time_part_sat(p, goal, vals, p.slots as int, t);
    assert(time_part(p, t, goal) == room_cs(p, t, p.rooms.len() as int) + instr_cs(p, t, goal, p.instructors.len() as int)
        + par_cs(p, t, mp, mp));
    lemma_sat_split(
        room_cs(p, t, p.rooms.len() as int) + instr_cs(p, t, goal, p.instructors.len() as int),
        par_cs(p, t, mp, mp),
        vals,
    );
    lemma_par_cs_sat(p, vals, t, mp, mp, k);
    lemma_par_count(p, t, vals, p.entries.len() as int);
    super::constraints::lemma_eval_single(p.b[t][k], mp as i128, vals);
}

} // verus!
