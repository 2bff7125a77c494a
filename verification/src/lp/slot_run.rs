//! Distribution by a slot program: one variable per entry, grid position
//! and room. The program is handed out to be solved; when it has no
//! solution, a second program finds the entries that cannot be placed.
use vstd::prelude::*;

use super::{grid_time, same_entry, times_fit, FractivityEntry, FractivityRoom};
use super::model::{constraint_views, Coefficient, ConstraintV, LpProblem, VarKind};
use super::run::{copies_of, LpStep};
use super::slot_constraints::{add_slot_constraints, all_slot_constraints, slot_program_of, slot_program_wf, SlotProgram};
use super::slot_variables::{
    Cube, cell_in, create_slot_parallel_variables, create_slot_variables, create_slot_visitor_variables, cube,
    cube_numbered, cube_ones, slot_kind, slot_parallel_weight, slot_terms, slot_wanted, visit_wanted, SlotGoal,
};
use super::variables::{grid_fits, grid_len, max_parallel, Entry};

verus! {

/// The program whose solution a slot distribution waits for.
#[derive(Debug, Clone, Copy, PartialEq, Eq, Structural)]
pub enum SlotPhase {
    /// Place every entry.
    Distribution,
    /// Find the entries that cannot be placed.
    Placeable,
    /// The distribution has its result.
    Finished,
}

/// A slot distribution in progress: its input, the variables of its
/// distribution program (slots `x`, visitors `v`, parallelism `b`), the
/// slot variables of its search program once made, and its phase.
#[derive(Debug)]
pub struct SlotRun {
    pub entries: Vec<Entry>,
    pub all_rooms: Vec<FractivityRoom>,
    pub all_instructors: Vec<u128>,
    pub first_start: i32,
    pub num_starts: i32,
    pub x: Vec<Vec<Vec<Option<usize>>>>,
    pub v: Vec<Vec<Vec<Option<usize>>>>,
    pub b: Vec<Vec<usize>>,
    pub search_x: Vec<Vec<Vec<Option<usize>>>>,
    pub phase: SlotPhase,
}

/// The slot programs for these arguments can be built: the grid times, the
/// weights' denominators, the number of variables and the busy times of the
/// entries fit the machine's integers.
pub open spec fn slot_run_fits(
    entries: Seq<Entry>,
    rooms: Seq<FractivityRoom>,
    instructors: Seq<u128>,
    first_start: i32,
    num_starts: i32,
) -> bool {
    let n = entries.len();
    let sl = grid_len(num_starts);
    let nr = rooms.len();
    let ni = instructors.len();
    let mp = max_parallel(n, nr);
    &&& grid_fits(first_start, num_starts)
    &&& n * ni <= usize::MAX
    &&& n * ni * mp <= usize::MAX
    &&& n * ni * mp * mp <= usize::MAX
    &&& n * sl * nr + n * ni * sl + sl * mp < usize::MAX
    &&& forall|a: int, s: int|
        0 <= a < n && 0 <= s < sl ==> #[trigger] times_fit(entries[a].0, grid_time(first_start, s))
}

impl SlotRun {
    /// The data of the distribution program's constraints.
    pub open spec fn program(&self) -> SlotProgram {
        slot_program_of(
            self.entries@,
            self.all_rooms@,
            self.all_instructors@,
            self.first_start,
            self.num_starts,
            self.x@,
            self.v@,
            self.b@,
        )
    }

    /// The data of the search program's constraints.
    pub open spec fn search_program(&self) -> SlotProgram {
        slot_program_of(
            self.entries@,
            self.all_rooms@,
            self.all_instructors@,
            self.first_start,
            self.num_starts,
            self.search_x@,
            Seq::empty(),
            Seq::empty(),
        )
    }

    /// The run can go on.
    pub open spec fn wf(&self) -> bool {
        &&& slot_program_wf(self.program(), SlotGoal::Distribution)
        &&& grid_fits(self.first_start, self.num_starts)
        &&& self.entries@.len() <= i128::MAX
        &&& self.entries@.len() * grid_len(self.num_starts) * self.all_rooms@.len() < usize::MAX
        &&& self.phase == SlotPhase::Placeable ==> slot_program_wf(self.search_program(), SlotGoal::Placeable)
    }
}

/// The denominator of the slot weights of a distribution: entries times
/// instructors times the square of the largest parallelism.
pub open spec fn slot_den(n: nat, ni: nat, nr: nat) -> nat {
    n * ni * max_parallel(n, nr) * max_parallel(n, nr)
}

/// The denominator of the parallelism weights of a distribution.
pub open spec fn parallel_den(n: nat, ni: nat, nr: nat) -> nat {
    n * ni * max_parallel(n, nr)
}

/// `pr` is the distribution program of `run`, whose slot variables are the
/// numbers below `kx` and whose visitor variables are those from `kx` to
/// `kv`; the parallelism variables follow.
pub open spec fn is_distribution_program(pr: LpProblem, run: SlotRun, kx: int, kv: int) -> bool {
    let n = run.entries@.len();
    let nr = run.all_rooms@.len();
    let ni = run.all_instructors@.len();
    let sl = grid_len(run.num_starts);
    let mp = max_parallel(n, nr);
    let head = slot_terms(run.entries@, run.all_rooms@, SlotGoal::Distribution, slot_den(n, ni, nr), cube(run.x@))
        + cube_ones(cube(run.v@));
    &&& cube_numbered(cube(run.x@), 0, kx)
    &&& cube_numbered(cube(run.v@), kx, kv)
    &&& forall|t: int, k: int| 0 <= t < sl && 0 <= k < mp ==> #[trigger] run.b@[t]@[k] == kv + t * mp + k
    &&& pr.vars@.len() == kv + sl * mp
    &&& forall|a: int, s: int, r: int|
        #[trigger] cell_in(cube(run.x@), a, s, r) ==> pr.vars@[cube(run.x@)[a][s][r]->0 as int] == slot_kind(
            SlotGoal::Distribution,
            run.entries@[a].1 is Some,
        )
    &&& forall|a: int, i: int, s: int|
        #[trigger] cell_in(cube(run.v@), a, i, s) ==> pr.vars@[cube(run.v@)[a][i][s]->0 as int]
            == VarKind::BinaryFrom(false)
    &&& forall|j: int| kv <= j < kv + sl * mp ==> #[trigger] pr.vars@[j] == VarKind::BinaryFrom(true)
    &&& pr.objective@.len() == head.len() + sl * mp
    &&& pr.objective@.subrange(0, head.len() as int) == head
    &&& forall|t: int, k: int|
        0 <= t < sl && 0 <= k < mp ==> #[trigger] pr.objective@[head.len() + t * mp + k] == (
            run.b@[t]@[k],
            slot_parallel_weight(k, parallel_den(n, ni, nr)),
        )
    &&& constraint_views(pr.constraints@) == all_slot_constraints(run.program(), SlotGoal::Distribution)
    &&& pr.mip_gap
    &&& !pr.time_limit
    &&& pr.keep_previous is None
}

/// `pr` is the search program of `run`, whose variables are its slot
/// variables.
pub open spec fn is_search_program(pr: LpProblem, run: SlotRun) -> bool {
    &&& cube_numbered(cube(run.search_x@), 0, pr.vars@.len() as int)
    &&& forall|a: int, s: int, r: int|
        #[trigger] cell_in(cube(run.search_x@), a, s, r) ==> pr.vars@[cube(run.search_x@)[a][s][r]->0 as int]
            == slot_kind(SlotGoal::Placeable, run.entries@[a].1 is Some)
    &&& pr.objective@ == slot_terms(run.entries@, run.all_rooms@, SlotGoal::Placeable, 0, cube(run.search_x@))
    &&& constraint_views(pr.constraints@) == all_slot_constraints(run.search_program(), SlotGoal::Placeable)
    &&& !pr.mip_gap
    &&& !pr.time_limit
    &&& pr.keep_previous is None
}

/// The slot table `x` of `run`'s entries has its shapes and holds a
/// variable exactly where the entry may take place.
pub open spec fn slots_laid_out(run: SlotRun, x: Seq<Vec<Vec<Option<usize>>>>) -> bool {
    let n = run.entries@.len();
    let sl = grid_len(run.num_starts);
    let nr = run.all_rooms@.len();
    &&& x.len() == n
    &&& forall|a: int| 0 <= a < n ==> (#[trigger] x[a])@.len() == sl
    &&& forall|a: int, s: int| 0 <= a < n && 0 <= s < sl ==> (#[trigger] x[a]@[s])@.len() == nr
    &&& forall|a: int, s: int, r: int|
        0 <= a < n && 0 <= s < sl && 0 <= r < nr ==> ((#[trigger] x[a]@[s]@[r]) is Some <==> slot_wanted(
            run.entries@[a],
            grid_time(run.first_start, s),
            run.all_rooms@[r].id,
        ))
}

/// The visitor table of `run` has its shapes and holds a variable exactly
/// for each visitor of an entry at each of its allowed start times.
pub open spec fn visitors_laid_out(run: SlotRun) -> bool {
    let n = run.entries@.len();
    let sl = grid_len(run.num_starts);
    let ni = run.all_instructors@.len();
    &&& run.v@.len() == n
    &&& forall|a: int| 0 <= a < n ==> (#[trigger] run.v@[a])@.len() == ni
    &&& forall|a: int, i: int| 0 <= a < n && 0 <= i < ni ==> (#[trigger] run.v@[a]@[i])@.len() == sl
    &&& forall|a: int, i: int, s: int|
        0 <= a < n && 0 <= i < ni && 0 <= s < sl ==> ((#[trigger] run.v@[a]@[i]@[s]) is Some <==> visit_wanted(
            run.entries@[a],
            run.all_instructors@[i],
            grid_time(run.first_start, s),
        ))
    &&& run.b@.len() == sl
    &&& forall|t: int| 0 <= t < sl ==> (#[trigger] run.b@[t])@.len() == max_parallel(n, run.all_rooms@.len())
}

impl SlotRun {
    /// Creates the variables of the distribution program (slots, visitors,
    /// parallelism) and the program itself: every entry placed exactly
    /// once, rooms of high priority and served visitors preferred,
    /// parallel activities avoided, with a relative gap of one half.
    pub fn new(
        fractivity_entries: Vec<Entry>,
        all_rooms: Vec<FractivityRoom>,
        all_instructors: Vec<u128>,
        first_start: i32,
        num_starts: i32,
    ) -> (res: (SlotRun, LpProblem))
        requires
            slot_run_fits(fractivity_entries@, all_rooms@, all_instructors@, first_start, num_starts),
        ensures
            res.0.entries@ == fractivity_entries@,
            res.0.all_rooms@ == all_rooms@,
            res.0.all_instructors@ == all_instructors@,
            res.0.first_start == first_start,
            res.0.num_starts == num_starts,
            res.0.phase == SlotPhase::Distribution,
            res.0.search_x@.len() == 0,
            res.0.wf(),
            slots_laid_out(res.0, res.0.x@),
            visitors_laid_out(res.0),
            exists|kx: int, kv: int| is_distribution_program(res.1, res.0, kx, kv),
    {
        let n = fractivity_entries.len();
        let nr = all_rooms.len();
        let ni = all_instructors.len();
        let mp = if n < nr {
            n
        } else {
            nr
        };
        let ghost sl = grid_len(num_starts);
        proof {
            assert(n * sl * nr >= 0 && n * ni * sl >= 0 && sl * mp >= 0) by (nonlinear_arith)
                requires n >= 0, sl >= 0, nr >= 0, ni >= 0, mp >= 0;
        }
        let den = n * ni * mp * mp;
        let den_b = n * ni * mp;
        let mut vars: Vec<VarKind> = Vec::new();
        let mut objective: Vec<(usize, Coefficient)> = Vec::new();
        let x = create_slot_variables(
            &fractivity_entries,
            &all_rooms,
            first_start,
            num_starts,
            SlotGoal::Distribution,
            den,
            &mut vars,
            &mut objective,
        );
        let ghost kx = vars@.len() as int;
        let ghost vars_x = vars@;
        let v = create_slot_visitor_variables(
            &fractivity_entries,
            &all_instructors,
            first_start,
            num_starts,
            &mut vars,
            &mut objective,
        );
        let ghost kv = vars@.len() as int;
        let ghost vars_v = vars@;
        let ghost head = objective@;
        let b = create_slot_parallel_variables(&fractivity_entries, &all_rooms, num_starts, den_b, &mut vars, &mut objective);
        let mut problem = LpProblem {
            vars,
            objective,
            constraints: Vec::new(),
            mip_gap: true,
            time_limit: false,
            keep_previous: None,
        };
        let run = SlotRun {
            entries: fractivity_entries,
            all_rooms,
            all_instructors,
            first_start,
            num_starts,
            x,
            v,
            b,
            search_x: Vec::new(),
            phase: SlotPhase::Distribution,
        };
        proof {
            let p = run.program();
            assert forall|a: int| 0 <= a < n implies (#[trigger] p.x[a]).len() == p.slots by {
                assert(p.x[a] == run.x@[a]@.map_values(|q: Vec<Option<usize>>| q@));
            }
            assert forall|a: int, s: int| 0 <= a < n && 0 <= s < p.slots implies (#[trigger] p.x[a][s]).len()
                == p.rooms.len() by {
                assert(p.x[a] == run.x@[a]@.map_values(|q: Vec<Option<usize>>| q@));
                assert(p.x[a][s] == run.x@[a]@[s]@);
            }
            assert forall|a: int| 0 <= a < n implies (#[trigger] p.v[a]).len() == p.instructors.len() by {
                assert(p.v[a] == run.v@[a]@.map_values(|q: Vec<Option<usize>>| q@));
            }
            assert forall|a: int, i: int| 0 <= a < n && 0 <= i < p.instructors.len() implies (#[trigger] p.v[a][i]).len()
                == p.slots by {
                assert(p.v[a] == run.v@[a]@.map_values(|q: Vec<Option<usize>>| q@));
                assert(p.v[a][i] == run.v@[a]@[i]@);
            }
            assert(slot_program_wf(p, SlotGoal::Distribution));
            assert(n * sl * nr < usize::MAX);
            assert(constraint_views(problem.constraints@) =~= Seq::<ConstraintV>::empty());
            // the kinds of the slot and visitor variables stay as created
            assert forall|a: int, s: int, r: int| #[trigger] cell_in(cube(run.x@), a, s, r) implies problem.vars@[cube(
                run.x@,
            )[a][s][r]->0 as int] == slot_kind(SlotGoal::Distribution, run.entries@[a].1 is Some) by {
                let q = cube(run.x@)[a][s][r]->0 as int;
                assert(q < kx);
                assert(vars_v.subrange(0, kx)[q] == vars_x[q]);
                assert(problem.vars@.subrange(0, kv)[q] == vars_v[q]);
            }
            assert forall|a: int, i: int, s: int| #[trigger] cell_in(cube(run.v@), a, i, s) implies problem.vars@[cube(
                run.v@,
            )[a][i][s]->0 as int] == VarKind::BinaryFrom(false) by {
                let q = cube(run.v@)[a][i][s]->0 as int;
                assert(q < kv);
                assert(problem.vars@.subrange(0, kv)[q] == vars_v[q]);
            }
        }
        add_slot_constraints(
            &run.entries,
            &run.all_rooms,
            &run.all_instructors,
            first_start,
            num_starts,
            &mut problem,
            &run.x,
            &run.v,
            &run.b,
            SlotGoal::Distribution,
        );
        proof {
            assert(constraint_views(problem.constraints@) =~= all_slot_constraints(run.program(), SlotGoal::Distribution));
        }
        let res = (run, problem);
        assert(is_distribution_program(res.1, res.0, kx, kv));
        res
    }
}

/// `a * b * c`, where it fits in `usize`.
fn product3(a: usize, b: usize, c: usize) -> (res: Option<usize>)
    ensures
        match res {
            Some(p) => p == a * b * c,
            None => a * b * c > usize::MAX,
        },
{
    if a == 0 || b == 0 || c == 0 {
        assert(a * b * c == 0) by (nonlinear_arith)
            requires a == 0 || b == 0 || c == 0;
        return Some(0);
    }
    match a.checked_mul(b) {
        None => {
            assert(a * b * c >= a * b) by (nonlinear_arith)
                requires c >= 1, a >= 0, b >= 0;
            None
        },
        Some(ab) => ab.checked_mul(c),
    }
}

impl SlotRun {
    /// Whether the slot programs for these arguments can be built
    /// (`slot_run_fits`).
    pub fn can_start(
        fractivity_entries: &Vec<Entry>,
        all_rooms: &Vec<FractivityRoom>,
        all_instructors: &Vec<u128>,
        first_start: i32,
        num_starts: i32,
    ) -> (res: bool)
        ensures
            res == slot_run_fits(fractivity_entries@, all_rooms@, all_instructors@, first_start, num_starts),
    {
        let n = fractivity_entries.len();
        let nr = all_rooms.len();
        let ni = all_instructors.len();
        let sl: usize = if num_starts > 0 {
            num_starts as usize
        } else {
            0
        };
        if num_starts > 0 {
            let last = first_start as i64 + 15 * (num_starts as i64 - 1);
            if last > i32::MAX as i64 || 15 * (num_starts as i64 - 1) > i32::MAX as i64 {
                return false;
            }
        }
        assert(grid_fits(first_start, num_starts));
        let mp = if n < nr {
            n
        } else {
            nr
        };
        let nni = match n.checked_mul(ni) {
            Some(q) => q,
            None => {
                return false;
            },
        };
        let nnimp = match nni.checked_mul(mp) {
            Some(q) => q,
            None => {
                return false;
            },
        };
        match nnimp.checked_mul(mp) {
            Some(_) => {},
            None => {
                return false;
            },
        }
        let c1 = match product3(n, sl, nr) {
            Some(q) => q,
            None => {
                assert(n * sl * nr + n * ni * sl + sl * mp >= n * sl * nr) by (nonlinear_arith)
                    requires n >= 0, ni >= 0, sl >= 0, mp >= 0;
                return false;
            },
        };
        let c2 = match product3(n, ni, sl) {
            Some(q) => q,
            None => {
                assert(n * sl * nr + n * ni * sl + sl * mp >= n * ni * sl) by (nonlinear_arith)
                    requires n >= 0, nr >= 0, sl >= 0, mp >= 0;
                return false;
            },
        };
        let c3 = match sl.checked_mul(mp) {
            Some(q) => q,
            None => {
                assert(n * sl * nr + n * ni * sl + sl * mp >= sl * mp) by (nonlinear_arith)
                    requires n >= 0, ni >= 0, nr >= 0, sl >= 0;
                return false;
            },
        };
        let total = match c1.checked_add(c2) {
            Some(q) => match q.checked_add(c3) {
                Some(q2) => q2,
                None => {
                    return false;
                },
            },
            None => {
                return false;
            },
        };
        if total == usize::MAX {
            return false;
        }
        let ghost fits_before = n * ni <= usize::MAX && n * ni * mp <= usize::MAX && n * ni * mp * mp
            <= usize::MAX && n * sl * nr + n * ni * sl + sl * mp < usize::MAX;
        assert(fits_before);
        let mut ai: usize = 0;
        while ai < n
            invariant
                ai <= n,
                fits_before,
                fits_before == (n * ni <= usize::MAX && n * ni * mp <= usize::MAX && n * ni * mp * mp
                    <= usize::MAX && n * sl * nr + n * ni * sl + sl * mp < usize::MAX),
                n == fractivity_entries@.len(),
                nr == all_rooms@.len(),
                ni == all_instructors@.len(),
                mp == max_parallel(n as nat, nr as nat),
                sl == grid_len(num_starts),
                grid_fits(first_start, num_starts),
                forall|a: int, s: int|
                    0 <= a < ai && 0 <= s < sl ==> #[trigger] times_fit(
                        fractivity_entries@[a].0,
                        grid_time(first_start, s),
                    ),
            decreases n - ai,
        {
            let e = &fractivity_entries[ai].0;
            let mut s: usize = 0;
            while s < sl
                invariant
                    s <= sl,
                    ai < n,
                    n == fractivity_entries@.len(),
                    sl == grid_len(num_starts),
                    grid_fits(first_start, num_starts),
                    *e == fractivity_entries@[ai as int].0,
                    forall|a: int, s2: int|
                        0 <= a < ai && 0 <= s2 < sl ==> #[trigger] times_fit(
                            fractivity_entries@[a].0,
                            grid_time(first_start, s2),
                        ),
                    forall|s2: int| 0 <= s2 < s ==> #[trigger] times_fit(*e, grid_time(first_start, s2)),
                decreases sl - s,
            {
                let t = first_start as i64 + 15 * (s as i64);
                let begin = t - e.preparation_time as i64;
                let end = t + e.duration as i64;
                let end2 = end + e.follow_up_time as i64;
                if begin < i32::MIN as i64 || begin > i32::MAX as i64 || end < i32::MIN as i64
                    || end > i32::MAX as i64 || end2 < i32::MIN as i64 || end2 > i32::MAX as i64 {
                    assert(!times_fit(fractivity_entries@[ai as int].0, grid_time(first_start, s as int)));
                    return false;
                }
                s = s + 1;
            }
            ai = ai + 1;
        }
        true
    }
}

/// The variable at cell `(a, s, r)` of `c` is present and set in `vals`.
pub open spec fn slot_set(c: Cube, vals: Seq<bool>, a: int, s: int, r: int) -> bool {
    &&& c[a][s][r] is Some
    &&& c[a][s][r]->0 < vals.len()
    &&& vals[c[a][s][r]->0 as int]
}

/// The number of set cells of `c` at entry `a` and grid position `s`
/// before room `r_end`.
pub open spec fn row_hits(c: Cube, vals: Seq<bool>, a: int, s: int, r_end: int) -> nat
    decreases r_end,
{
    if r_end <= 0 {
        0
    } else {
        row_hits(c, vals, a, s, r_end - 1) + if slot_set(c, vals, a, s, r_end - 1) {
            1nat
        } else {
            0nat
        }
    }
}

/// The number of set cells of `c` at entry `a` before grid position
/// `s_end`, over `nr` rooms.
pub open spec fn entry_hits(c: Cube, vals: Seq<bool>, a: int, s_end: int, nr: int) -> nat
    decreases s_end,
{
    if s_end <= 0 {
        0
    } else {
        entry_hits(c, vals, a, s_end - 1, nr) + row_hits(c, vals, a, s_end - 1, nr)
    }
}

/// The placements that a solution gives entry `a` at grid position `s` in
/// the rooms before `r_end`: entry number, room and start time.
pub open spec fn row_placements(run: SlotRun, vals: Seq<bool>, a: int, s: int, r_end: int) -> Seq<(usize, u128, i32)>
    decreases r_end,
{
    if r_end <= 0 {
        Seq::empty()
    } else {
        row_placements(run, vals, a, s, r_end - 1) + if slot_set(cube(run.x@), vals, a, s, r_end - 1) {
            seq![(a as usize, run.all_rooms@[r_end - 1].id, grid_time(run.first_start, s) as i32)]
        } else {
            Seq::empty()
        }
    }
}

/// The placements of entry `a` at the grid positions before `s_end`.
pub open spec fn entry_placements(run: SlotRun, vals: Seq<bool>, a: int, s_end: int) -> Seq<(usize, u128, i32)>
    decreases s_end,
{
    if s_end <= 0 {
        Seq::empty()
    } else {
        entry_placements(run, vals, a, s_end - 1) + row_placements(
            run,
            vals,
            a,
            s_end - 1,
            run.all_rooms@.len() as int,
        )
    }
}

/// The placements of the entries before `a_end`, in the order of entries,
/// grid positions and rooms.
pub open spec fn slot_placements(run: SlotRun, vals: Seq<bool>, a_end: int) -> Seq<(usize, u128, i32)>
    decreases a_end,
{
    if a_end <= 0 {
        Seq::empty()
    } else {
        slot_placements(run, vals, a_end - 1) + entry_placements(
            run,
            vals,
            a_end - 1,
            grid_len(run.num_starts) as int,
        )
    }
}

/// The topics of the entries before `a_end` that the solution places
/// nowhere, written one after the other.
pub open spec fn missing_topics(run: SlotRun, vals: Seq<bool>, a_end: int) -> Seq<char>
    decreases a_end,
{
    if a_end <= 0 {
        Seq::empty()
    } else {
        missing_topics(run, vals, a_end - 1) + if entry_hits(
            cube(run.x@),
            vals,
            a_end - 1,
            grid_len(run.num_starts) as int,
            run.all_rooms@.len() as int,
        ) == 0 {
            run.entries@[a_end - 1].0.topic@
        } else {
            Seq::empty()
        }
    }
}

/// The entries before `a_end` with no set cell in `c`.
pub open spec fn unplaced_in(c: Cube, vals: Seq<bool>, a_end: int, sl: int, nr: int) -> Seq<int>
    decreases a_end,
{
    if a_end <= 0 {
        Seq::empty()
    } else if entry_hits(c, vals, a_end - 1, sl, nr) == 0 {
        unplaced_in(c, vals, a_end - 1, sl, nr).push(a_end - 1)
    } else {
        unplaced_in(c, vals, a_end - 1, sl, nr)
    }
}

/// The data of the two runs are the same; the phase and the search
/// program's variables may differ.
pub open spec fn same_slot_data(x: SlotRun, y: SlotRun) -> bool {
    &&& x.entries@ == y.entries@
    &&& x.all_rooms@ == y.all_rooms@
    &&& x.all_instructors@ == y.all_instructors@
    &&& x.first_start == y.first_start
    &&& x.num_starts == y.num_starts
    &&& x.x@ == y.x@
    &&& x.v@ == y.v@
    &&& x.b@ == y.b@
}

impl SlotRun {
    /// Reads a solution of the distribution program: the placements, and
    /// the topics of the entries it places nowhere.
    fn read_distribution(&self, vals: &Vec<bool>) -> (res: (Vec<(usize, u128, i32)>, String))
        requires
            self.wf(),
        ensures
            res.0@ == slot_placements(*self, vals@, self.entries@.len() as int),
            res.1@ == missing_topics(*self, vals@, self.entries@.len() as int),
    {
        let n = self.entries.len();
        let nr = self.all_rooms.len();
        let ghost p = self.program();
        let ghost c = cube(self.x@);
        let mut done: Vec<(usize, u128, i32)> = Vec::new();
        let mut topics = String::new();
        let mut a: usize = 0;
        while a < n
            invariant
                a <= n,
                n == self.entries@.len(),
                nr == self.all_rooms@.len(),
                self.wf(),
                p == self.program(),
                c == cube(self.x@),
                done@ == slot_placements(*self, vals@, a as int),
                topics@ == missing_topics(*self, vals@, a as int),
            decreases n - a,
        {
            assert(self.x@[a as int]@.len() == p.slots) by {
                assert(p.x[a as int] == self.x@[a as int]@.map_values(|q: Vec<Option<usize>>| q@));
            }
            let ghost d0 = done@;
            let mut found = false;
            let mut s: i32 = 0;
            while s < self.num_starts
                invariant
                    0 <= s,
                    s <= self.num_starts || self.num_starts <= 0,
                    self.num_starts <= 0 ==> s == 0,
                    a < n,
                    n == self.entries@.len(),
                    nr == self.all_rooms@.len(),
                    self.wf(),
                    p == self.program(),
                    c == cube(self.x@),
                    self.x@[a as int]@.len() == p.slots,
                    done@ == d0 + entry_placements(*self, vals@, a as int, s as int),
                    found == (entry_hits(c, vals@, a as int, s as int, nr as int) > 0),
                decreases self.num_starts - s,
            {
                let cur = self.first_start + 15 * s;
                assert(self.x@[a as int]@[s as int]@.len() == nr) by {
                    assert(p.x[a as int][s as int] == self.x@[a as int]@[s as int]@);
                }
                let ghost d1 = done@;
                let ghost f1 = found;
                let mut r: usize = 0;
                while r < nr
                    invariant
                        r <= nr,
                        0 <= s < self.num_starts,
                        a < n,
                        n == self.entries@.len(),
                        nr == self.all_rooms@.len(),
                        self.wf(),
                        p == self.program(),
                        c == cube(self.x@),
                        self.x@[a as int]@.len() == p.slots,
                        self.x@[a as int]@[s as int]@.len() == nr,
                        cur == grid_time(self.first_start, s as int),
                        done@ == d1 + row_placements(*self, vals@, a as int, s as int, r as int),
                        found == (f1 || row_hits(c, vals@, a as int, s as int, r as int) > 0),
                    decreases nr - r,
                {
                    let ghost prev = done@;
                    assert(c[a as int][s as int][r as int] == self.x@[a as int]@[s as int]@[r as int]);
                    let mut hit = false;
                    match self.x[a][s as usize][r] {
                        Some(var) => {
                            if var < vals.len() && vals[var] {
                                done.push((a, self.all_rooms[r].id, cur));
                                found = true;
                                hit = true;
                            }
                        },
                        None => {},
                    }
                    proof {
                        if !hit {
                            assert(prev + Seq::<(usize, u128, i32)>::empty() =~= prev);
                        }
                        assert(done@ =~= d1 + row_placements(*self, vals@, a as int, s as int, r + 1));
                    }
                    r = r + 1;
                }
                s = s + 1;
                assert(done@ =~= d0 + entry_placements(*self, vals@, a as int, s as int));
            }
            if !found {
                topics.append(self.entries[a].0.topic.as_str());
            } else {
                assert(topics@ =~= topics@ + Seq::<char>::empty());
            }
            a = a + 1;
            assert(done@ =~= slot_placements(*self, vals@, a as int));
        }
        (done, topics)
    }
}

/// Copies of the entries whose slot variables in `x` the solution `vals`
/// leaves all unset.
fn read_search(
    fractivity_entries: &Vec<Entry>,
    x: &Vec<Vec<Vec<Option<usize>>>>,
    vals: &Vec<bool>,
    Ghost(nr): Ghost<nat>,
    Ghost(sl): Ghost<nat>,
) -> (res: Vec<FractivityEntry>)
    requires
        x@.len() == fractivity_entries@.len(),
        forall|a: int| 0 <= a < x@.len() ==> (#[trigger] x@[a])@.len() == sl,
        forall|a: int, s: int| 0 <= a < x@.len() && 0 <= s < sl ==> (#[trigger] x@[a]@[s])@.len() == nr,
    ensures
        copies_of(res@, fractivity_entries@, unplaced_in(cube(x@), vals@, fractivity_entries@.len() as int, sl as int, nr as int)),
{
    let n = fractivity_entries.len();
    let ghost c = cube(x@);
    let mut missing: Vec<FractivityEntry> = Vec::new();
    let mut a: usize = 0;
    while a < n
        invariant
            a <= n,
            n == fractivity_entries@.len(),
            x@.len() == n,
            forall|b: int| 0 <= b < x@.len() ==> (#[trigger] x@[b])@.len() == sl,
            forall|b: int, s: int| 0 <= b < x@.len() && 0 <= s < sl ==> (#[trigger] x@[b]@[s])@.len() == nr,
            c == cube(x@),
            copies_of(missing@, fractivity_entries@, unplaced_in(c, vals@, a as int, sl as int, nr as int)),
        decreases n - a,
    {
        let xa = &x[a];
        let mut found = false;
        let mut s: usize = 0;
        while s < xa.len()
            invariant
                s <= xa@.len(),
                xa@.len() == sl,
                a < n,
                x@.len() == n,
                *xa == x@[a as int],
                forall|b: int, t: int| 0 <= b < x@.len() && 0 <= t < sl ==> (#[trigger] x@[b]@[t])@.len() == nr,
                c == cube(x@),
                found == (entry_hits(c, vals@, a as int, s as int, nr as int) > 0),
            decreases xa@.len() - s,
        {
            let row = &xa[s];
            let f1 = found;
            let mut r: usize = 0;
            while r < row.len()
                invariant
                    r <= row@.len(),
                    row@.len() == nr,
                    s < sl,
                    a < n,
                    *row == x@[a as int]@[s as int],
                    x@.len() == n,
                    x@[a as int]@.len() == sl,
                    c == cube(x@),
                    found == (f1 || row_hits(c, vals@, a as int, s as int, r as int) > 0),
                decreases row@.len() - r,
            {
                assert(c[a as int] == x@[a as int]@.map_values(|q: Vec<Option<usize>>| q@));
                assert(c[a as int][s as int] == row@);
                match row[r] {
                    Some(var) => {
                        if var < vals.len() && vals[var] {
                            found = true;
                        }
                    },
                    None => {},
                }
                r = r + 1;
            }
            s = s + 1;
        }
        if !found {
            let ghost before = missing@;
            missing.push(fractivity_entries[a].0.clone());
            assert forall|i: int| 0 <= i < unplaced_in(c, vals@, a + 1, sl as int, nr as int).len() implies #[trigger] same_entry(
                missing@[i],
                fractivity_entries@[unplaced_in(c, vals@, a + 1, sl as int, nr as int)[i]].0,
            ) by {
                if i < before.len() {
                    assert(missing@[i] == before[i]);
                }
            }
        }
        a = a + 1;
    }
    missing
}

impl SlotRun {
    /// The next step of the slot distribution, given the outcome of solving
    /// the last program: the variables that took a positive value, or the
    /// solver's error.
    ///
    /// A solution of the distribution program ends the distribution: with
    /// the topics of the entries it places nowhere, written one after the
    /// other, as the error when there are any; otherwise with every
    /// placement of the solution (entry number, room, start). When the
    /// distribution program has no solution, the search program comes next
    /// (each entry at most once, fixed entries weighted by the number of
    /// entries, no parallelism terms); its solution ends the distribution
    /// with the entries it places nowhere, and its failure with an error.
    pub fn step(&mut self, outcome: Result<Vec<bool>, String>) -> (res: LpStep)
        requires
            old(self).wf(),
            old(self).phase != SlotPhase::Finished,
        ensures
            same_slot_data(*final(self), *old(self)),
            final(self).wf(),
            ({
                let run = *old(self);
                let n = run.entries@.len() as int;
                let sl = grid_len(run.num_starts) as int;
                let nr = run.all_rooms@.len() as int;
                match run.phase {
                    SlotPhase::Distribution => match outcome {
                        Ok(vals) => {
                            &&& final(self).phase == SlotPhase::Finished
                            &&& if missing_topics(run, vals@, n).len() > 0 {
                                res matches LpStep::Done(Err(e)) && e@ == missing_topics(run, vals@, n)
                            } else {
                                res matches LpStep::Done(Ok(Ok(list))) && list@ == slot_placements(run, vals@, n)
                            }
                        },
                        Err(_) => {
                            &&& final(self).phase == SlotPhase::Placeable
                            &&& slots_laid_out(*final(self), final(self).search_x@)
                            &&& res matches LpStep::Solve(pr) && is_search_program(pr, *final(self))
                        },
                    },
                    _ => {
                        &&& final(self).phase == SlotPhase::Finished
                        &&& match outcome {
                            Ok(vals) => res matches LpStep::Done(Ok(Err(list))) && copies_of(
                                list@,
                                run.entries@,
                                unplaced_in(cube(run.search_x@), vals@, n, sl, nr),
                            ),
                            Err(_) => res matches LpStep::Done(Err(e)) && e@ == "Could not solve undistributable LP"@,
                        }
                    },
                }
            }),
    {
        let ghost run = *self;
        if self.phase == SlotPhase::Distribution {
            match outcome {
                Ok(vals) => {
                    let (done, topics) = self.read_distribution(&vals);
                    self.phase = SlotPhase::Finished;
                    if topics.as_str().is_empty() {
                        LpStep::Done(Ok(Ok(done)))
                    } else {
                        LpStep::Done(Err(topics))
                    }
                },
                Err(_) => {
                    let n = self.entries.len();
                    let mut vars: Vec<VarKind> = Vec::new();
                    let mut objective: Vec<(usize, Coefficient)> = Vec::new();
                    let sx = create_slot_variables(
                        &self.entries,
                        &self.all_rooms,
                        self.first_start,
                        self.num_starts,
                        SlotGoal::Placeable,
                        0,
                        &mut vars,
                        &mut objective,
                    );
                    let mut problem = LpProblem {
                        vars,
                        objective,
                        constraints: Vec::new(),
                        mip_gap: false,
                        time_limit: false,
                        keep_previous: None,
                    };
                    let no_v: Vec<Vec<Vec<Option<usize>>>> = Vec::new();
                    let no_b: Vec<Vec<usize>> = Vec::new();
                    self.search_x = sx;
                    self.phase = SlotPhase::Placeable;
                    proof {
                        assert(no_v@ =~= Seq::<Vec<Vec<Option<usize>>>>::empty());
                        assert(no_b@ =~= Seq::<Vec<usize>>::empty());
                        let q = self.search_program();
                        let p0 = run.program();
                        assert(q.x.len() == n);
                        assert(q.entries == p0.entries && q.first_start == p0.first_start && q.slots == p0.slots);
                        assert forall|a: int, s: int| 0 <= a < n && 0 <= s < q.slots implies #[trigger] times_fit(
                            q.entries[a].0,
                            grid_time(q.first_start, s),
                        ) by {
                            assert(times_fit(p0.entries[a].0, grid_time(p0.first_start, s)));
                        }
                        assert forall|a: int| 0 <= a < n implies (#[trigger] q.x[a]).len() == q.slots by {
                            assert(q.x[a] == self.search_x@[a]@.map_values(|w: Vec<Option<usize>>| w@));
                        }
                        assert forall|a: int, s: int| 0 <= a < n && 0 <= s < q.slots implies (#[trigger] q.x[a][s]).len()
                            == q.rooms.len() by {
                            assert(q.x[a] == self.search_x@[a]@.map_values(|w: Vec<Option<usize>>| w@));
                            assert(q.x[a][s] == self.search_x@[a]@[s]@);
                        }
                        assert(slot_program_wf(q, SlotGoal::Placeable));
                        assert(constraint_views(problem.constraints@) =~= Seq::<ConstraintV>::empty());
                    }
                    add_slot_constraints(
                        &self.entries,
                        &self.all_rooms,
                        &self.all_instructors,
                        self.first_start,
                        self.num_starts,
                        &mut problem,
                        &self.search_x,
                        &no_v,
                        &no_b,
                        SlotGoal::Placeable,
                    );
                    proof {
                        assert(constraint_views(problem.constraints@) =~= all_slot_constraints(
                            self.search_program(),
                            SlotGoal::Placeable,
                        ));
                        assert(problem.objective@ =~= slot_terms(
                            self.entries@,
                            self.all_rooms@,
                            SlotGoal::Placeable,
                            0,
                            cube(self.search_x@),
                        ));
                    }
                    LpStep::Solve(problem)
                },
            }
        } else {
            self.phase = SlotPhase::Finished;
            match outcome {
                Ok(vals) => {
                    let ghost sl = grid_len(self.num_starts);
                    let ghost nr = self.all_rooms@.len();
                    proof {
                        let q = run.search_program();
                        assert forall|a: int| 0 <= a < self.search_x@.len() implies (#[trigger] self.search_x@[a])@.len() == sl by {
                            assert(q.x[a] == self.search_x@[a]@.map_values(|w: Vec<Option<usize>>| w@));
                        }
                        assert forall|a: int, s: int| 0 <= a < self.search_x@.len() && 0 <= s < sl implies (#[trigger] self.search_x@[a]@[s])@.len()
                            == nr by {
                            assert(q.x[a] == self.search_x@[a]@.map_values(|w: Vec<Option<usize>>| w@));
                            assert(q.x[a][s] == self.search_x@[a]@[s]@);
                        }
                    }
                    let missing = read_search(&self.entries, &self.search_x, &vals, Ghost(nr), Ghost(sl));
                    LpStep::Done(Ok(Err(missing)))
                },
                Err(_) => LpStep::Done(Err(String::from_str("Could not solve undistributable LP"))),
            }
        }
    }
}

/// The placements that a solution gives entry `a` at grid position `s`
/// use rooms in which the entry may start then.
proof fn lemma_row_placements_allowed(run: SlotRun, vals: Seq<bool>, a: int, s: int, r_end: int)
    requires
        slots_laid_out(run, run.x@),
        grid_fits(run.first_start, run.num_starts),
        0 <= a < run.entries@.len(),
        run.entries@.len() <= usize::MAX,
        0 <= s < grid_len(run.num_starts),
        r_end <= run.all_rooms@.len(),
    ensures
        forall|i: int| 0 <= i < row_placements(run, vals, a, s, r_end).len() ==> {
            let q = #[trigger] row_placements(run, vals, a, s, r_end)[i];
            &&& q.0 == a
            &&& q.2 as int == grid_time(run.first_start, s)
            &&& slot_wanted(run.entries@[a], q.2 as int, q.1)
        },
    decreases r_end,
{
    if r_end > 0 {
        lemma_row_placements_allowed(run, vals, a, s, r_end - 1);
        let r = r_end - 1;
        let left = row_placements(run, vals, a, s, r);
        if slot_set(cube(run.x@), vals, a, s, r) {
            assert(cube(run.x@)[a] == run.x@[a]@.map_values(|q: Vec<Option<usize>>| q@));
            assert(cube(run.x@)[a][s] == run.x@[a]@[s]@);
            assert(run.x@[a]@[s]@[r] is Some);
            let e = (a as usize, run.all_rooms@[r].id, grid_time(run.first_start, s) as i32);
            assert forall|i: int| 0 <= i < left.push(e).len() implies {
                let q = #[trigger] left.push(e)[i];
                &&& q.0 == a
                &&& q.2 as int == grid_time(run.first_start, s)
                &&& slot_wanted(run.entries@[a], q.2 as int, q.1)
            } by {
                if i < left.len() {
                    assert(left.push(e)[i] == left[i]);
                }
            }
            assert(row_placements(run, vals, a, s, r_end) =~= left.push(e));
        } else {
            assert(row_placements(run, vals, a, s, r_end) =~= left);
        }
    }
}

/// The placements of entry `a` use slots the entry allows.
proof fn lemma_entry_placements_allowed(run: SlotRun, vals: Seq<bool>, a: int, s_end: int)
    requires
        slots_laid_out(run, run.x@),
        grid_fits(run.first_start, run.num_starts),
        0 <= a < run.entries@.len(),
        run.entries@.len() <= usize::MAX,
        s_end <= grid_len(run.num_starts),
    ensures
        forall|i: int| 0 <= i < entry_placements(run, vals, a, s_end).len() ==> {
            let q = #[trigger] entry_placements(run, vals, a, s_end)[i];
            &&& q.0 == a
            &&& slot_wanted(run.entries@[a], q.2 as int, q.1)
        },
    decreases s_end,
{
    if s_end > 0 {
        lemma_entry_placements_allowed(run, vals, a, s_end - 1);
        lemma_row_placements_allowed(run, vals, a, s_end - 1, run.all_rooms@.len() as int);
        let left = entry_placements(run, vals, a, s_end - 1);
        let right = row_placements(run, vals, a, s_end - 1, run.all_rooms@.len() as int);
        assert forall|i: int| 0 <= i < (left + right).len() implies {
            let q = #[trigger] (left + right)[i];
            &&& q.0 == a
            &&& slot_wanted(run.entries@[a], q.2 as int, q.1)
        } by {
            if i >= left.len() {
                assert((left + right)[i] == right[i - left.len()]);
            } else {
                assert((left + right)[i] == left[i]);
            }
        }
    }
}

/// Every placement that a solution of the distribution program gives is
/// a slot that its entry allows: its fixed room and start, or one of its
/// allowed rooms at one of its allowed start times.
pub proof fn lemma_slot_placements_allowed(run: SlotRun, vals: Seq<bool>, k: int)
    requires
        slots_laid_out(run, run.x@),
        grid_fits(run.first_start, run.num_starts),
        k <= run.entries@.len(),
        run.entries@.len() <= usize::MAX,
    ensures
        forall|i: int| 0 <= i < slot_placements(run, vals, k).len() ==> {
            let q = #[trigger] slot_placements(run, vals, k)[i];
            &&& 0 <= q.0 < k
            &&& slot_wanted(run.entries@[q.0 as int], q.2 as int, q.1)
        },
    decreases k,
{
    if k > 0 {
        lemma_slot_placements_allowed(run, vals, k - 1);
        lemma_entry_placements_allowed(run, vals, k - 1, grid_len(run.num_starts) as int);
        let left = slot_placements(run, vals, k - 1);
        let right = entry_placements(run, vals, k - 1, grid_len(run.num_starts) as int);
        assert forall|i: int| 0 <= i < (left + right).len() implies {
            let q = #[trigger] (left + right)[i];
            &&& 0 <= q.0 < k
            &&& slot_wanted(run.entries@[q.0 as int], q.2 as int, q.1)
        } by {
            if i >= left.len() {
                assert((left + right)[i] == right[i - left.len()]);
            } else {
                assert((left + right)[i] == left[i]);
            }
        }
    }
}

} // verus!
