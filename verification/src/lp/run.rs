//! The sequence of programs that distributes the entries: first as many
//! entries as possible are placed; when all can be, the visitors are served
//! as well as possible; then, keeping that, parallel activities are spread
//! out. Each program is handed out to be solved, and the solution comes back
//! as the set of variables that took a positive value.
use vstd::prelude::*;

use super::{grid_time, overlap_spec, same_entry, times_fit, FractivityEntry, FractivityRoom};
use super::constraints::{
    add_constraints, all_constraints, expr, lemma_each_entry_once, lemma_kept_apart, lemma_wf_fits, ones, program_of,
    program_wf, set_at, share_instructor, set_in_same_room, Program,
};
use super::model::{constraint_views, numbered, satisfies, value, Coefficient, ConstraintV, ExprV, LinExpr, LpProblem, VarKind, VarPool};
use super::variables::{
    create_fractivity_pair_variables, create_fractivity_variables, create_parallel_variables,
    create_visitor_variables, fractivity_rows, grid, grid_fits, grid_len, max_parallel, pairs_before,
    parallel_weight, placement_weight, room_var_wanted, start_var_wanted, Entry,
};

verus! {

/// The program whose solution the distribution waits for.
#[derive(Debug, Clone, Copy, PartialEq, Eq, Structural)]
pub enum Phase {
    /// Place as many entries as possible.
    Placement,
    /// Serve the visitors, all entries placed.
    Visitors,
    /// Spread out parallel activities, the visitors kept.
    Parallel,
    /// The distribution has its result.
    Finished,
}

/// A distribution in progress: its input, the variables of its programs
/// and their objectives, and the phase it is in.
#[derive(Debug)]
pub struct LpRun {
    pub entries: Vec<Entry>,
    pub all_rooms: Vec<FractivityRoom>,
    pub all_instructors: Vec<u128>,
    pub first_start: i32,
    pub num_starts: i32,
    pub num_vars: usize,
    pub starts: Vec<Vec<Option<usize>>>,
    pub rooms: Vec<Vec<Option<usize>>>,
    pub instructor_overlap: Vec<usize>,
    pub room_overlap: Vec<usize>,
    pub any_overlap: Vec<usize>,
    pub b: Vec<Vec<usize>>,
    pub v: Vec<Vec<Option<usize>>>,
    pub max_distribution_obj: Vec<(usize, Coefficient)>,
    pub parallel_obj: Vec<(usize, Coefficient)>,
    pub visitor_obj: Vec<(usize, Coefficient)>,
    pub phase: Phase,
}

/// The number of variables of the programs for `n` entries, `sl` grid
/// positions, `nr` rooms and `ni` instructors.
pub open spec fn var_total(n: nat, sl: nat, nr: nat, ni: nat) -> int {
    n * (sl + nr) + 3 * pairs_before(n as int, n as int) + sl * max_parallel(n, nr) + n * ni
}

/// The programs for these arguments can be built: the grid times, the
/// weights, the number of variables and the busy times of the entries fit
/// the machine's integers.
pub open spec fn run_fits(
    entries: Seq<Entry>,
    all_rooms: Seq<FractivityRoom>,
    instructors: Seq<u128>,
    first_start: i32,
    num_starts: i32,
) -> bool {
    let n = entries.len();
    &&& grid_fits(first_start, num_starts)
    &&& n * n <= usize::MAX
    &&& n * n * instructors.len() <= usize::MAX
    &&& var_total(n, grid_len(num_starts), all_rooms.len(), instructors.len()) < usize::MAX
    &&& forall|a: int, s: int|
        0 <= a < n && 0 <= s < grid_len(num_starts) ==> #[trigger] times_fit(
            entries[a].0,
            grid_time(first_start, s),
        )
}

impl LpRun {
    /// The data the constraints are made from.
    pub open spec fn program(&self) -> Program {
        program_of(
            self.entries@,
            self.all_rooms@,
            self.all_instructors@,
            self.first_start,
            self.num_starts,
            self.starts@,
            self.rooms@,
            self.instructor_overlap@,
            self.room_overlap@,
            self.any_overlap@,
            self.b@,
            self.v@,
        )
    }

    /// The run can go on: its tables have their shapes, and the start and
    /// room variables are variables of the programs.
    pub open spec fn wf(&self) -> bool {
        let n = self.entries@.len();
        &&& program_wf(self.program())
        &&& grid_fits(self.first_start, self.num_starts)
        &&& max_parallel(n, self.all_rooms@.len()) <= i128::MAX
        &&& forall|a: int, s: int|
            0 <= a < n && 0 <= s < self.starts@[a]@.len() && (#[trigger] self.starts@[a]@[s]) is Some
                ==> self.starts@[a]@[s]->0 < self.num_vars
        &&& forall|a: int, r: int|
            0 <= a < n && 0 <= r < self.rooms@[a]@.len() && (#[trigger] self.rooms@[a]@[r]) is Some
                ==> self.rooms@[a]@[r]->0 < self.num_vars
    }

    /// The variables and objectives are laid out as the programs are
    /// built: first the start and room variables of each entry (weighted
    /// in the placement objective), then three overlap variables for each
    /// pair of entries, then the parallelism variables `b[t][k]` (weighted
    /// in the parallelism objective), then the visitor variables (weighted
    /// 1 in the visitor objective).
    pub open spec fn layout(&self) -> bool {
        let n = self.entries@.len();
        let sl = grid_len(self.num_starts);
        let nr = self.all_rooms@.len();
        let ni = self.all_instructors@.len();
        let mp = max_parallel(n, nr);
        let pc = pairs_before(n as int, n as int);
        let k1 = self.max_distribution_obj@.len() as int;
        let k2 = k1 + 3 * pc;
        let k3 = k2 + sl * mp;
        &&& self.starts@.len() == n
        &&& self.rooms@.len() == n
        &&& forall|a: int| 0 <= a < n ==> (#[trigger] self.starts@[a])@.len() == sl && self.rooms@[a]@.len() == nr
        &&& forall|a: int, s: int|
            0 <= a < n && 0 <= s < sl ==> ((#[trigger] self.starts@[a]@[s]) is Some <==> start_var_wanted(
                self.entries@[a],
                grid_time(self.first_start, s),
            ))
        &&& forall|a: int, r: int|
            0 <= a < n && 0 <= r < nr ==> ((#[trigger] self.rooms@[a]@[r]) is Some <==> room_var_wanted(
                self.entries@[a],
                self.all_rooms@[r].id,
            ))
        &&& numbered(fractivity_rows(grid(self.starts@), grid(self.rooms@)), 0, k1)
        &&& forall|a: int, s: int|
            0 <= a < n && 0 <= s < sl && (#[trigger] self.starts@[a]@[s]) is Some
                ==> self.max_distribution_obj@[self.starts@[a]@[s]->0 as int] == (
                self.starts@[a]@[s]->0,
                placement_weight(n, ni, self.entries@[a].1 is Some),
            )
        &&& forall|a: int, r: int|
            0 <= a < n && 0 <= r < nr && (#[trigger] self.rooms@[a]@[r]) is Some
                ==> self.max_distribution_obj@[self.rooms@[a]@[r]->0 as int] == (
                self.rooms@[a]@[r]->0,
                placement_weight(n, ni, self.entries@[a].1 is Some),
            )
        &&& self.instructor_overlap@.len() == pc
        &&& self.room_overlap@.len() == pc
        &&& self.any_overlap@.len() == pc
        &&& forall|q: int|
            0 <= q < pc ==> #[trigger] self.instructor_overlap@[q] == k1 + 3 * q && self.room_overlap@[q]
                == k1 + 3 * q + 1 && self.any_overlap@[q] == k1 + 3 * q + 2
        &&& self.b@.len() == sl
        &&& forall|t: int| 0 <= t < sl ==> (#[trigger] self.b@[t])@.len() == mp
        &&& self.parallel_obj@.len() == sl * mp
        &&& forall|t: int, k: int|
            0 <= t < sl && 0 <= k < mp ==> #[trigger] self.b@[t]@[k] == k2 + t * mp + k
                && self.parallel_obj@[t * mp + k] == (self.b@[t]@[k], parallel_weight(k, mp))
        &&& self.v@.len() == n
        &&& forall|a: int| 0 <= a < n ==> (#[trigger] self.v@[a])@.len() == ni
        &&& forall|a: int, i: int|
            0 <= a < n && 0 <= i < ni ==> ((#[trigger] self.v@[a]@[i]) is Some
                <==> self.entries@[a].0.visitor_extension_uuids@.contains(self.all_instructors@[i]))
        &&& numbered(grid(self.v@), k3, self.num_vars as int)
        &&& self.visitor_obj@.len() == self.num_vars - k3
        &&& forall|a: int, i: int|
            0 <= a < n && 0 <= i < ni && (#[trigger] self.v@[a]@[i]) is Some
                ==> self.visitor_obj@[self.v@[a]@[i]->0 - k3] == (
                self.v@[a]@[i]->0,
                Coefficient { num: 1, den: 1 },
            )
    }
}

/// `problem` maximises `objective` over `num_vars` binary variables under
/// `constraints`, with the given solver settings.
pub open spec fn is_program(
    problem: LpProblem,
    num_vars: int,
    objective: Seq<(usize, Coefficient)>,
    constraints: Seq<ConstraintV>,
    mip_gap: bool,
    time_limit: bool,
    keep_previous: Option<ExprV>,
) -> bool {
    &&& problem.vars@ == Seq::new(num_vars as nat, |i: int| VarKind::Binary)
    &&& problem.objective@ == objective
    &&& constraint_views(problem.constraints@) == constraints
    &&& problem.mip_gap == mip_gap
    &&& problem.time_limit == time_limit
    &&& match keep_previous {
        Some(e) => problem.keep_previous is Some && problem.keep_previous->0@ == e,
        None => problem.keep_previous is None,
    }
}

/// A program over `num_vars` variables maximising `objective`, without
/// constraints yet.
fn empty_program(num_vars: usize, objective: &Vec<(usize, Coefficient)>, mip_gap: bool, time_limit: bool) -> (res: LpProblem)
    ensures
        is_program(res, num_vars as int, objective@, Seq::empty(), mip_gap, time_limit, None),
{
    let mut obj: Vec<(usize, Coefficient)> = Vec::new();
    let mut i: usize = 0;
    while i < objective.len()
        invariant
            i <= objective@.len(),
            obj@ == objective@.subrange(0, i as int),
        decreases objective@.len() - i,
    {
        obj.push(objective[i]);
        i = i + 1;
        assert(obj@ =~= objective@.subrange(0, i as int));
    }
    assert(objective@.subrange(0, i as int) =~= objective@);
    let mut vars: Vec<VarKind> = Vec::new();
    let mut k: usize = 0;
    while k < num_vars
        invariant
            k <= num_vars,
            vars@ == Seq::new(k as nat, |i: int| VarKind::Binary),
        decreases num_vars - k,
    {
        vars.push(VarKind::Binary);
        k = k + 1;
        assert(vars@ =~= Seq::new(k as nat, |i: int| VarKind::Binary));
    }
    let res = LpProblem {
        vars,
        objective: obj,
        constraints: Vec::new(),
        mip_gap,
        time_limit,
        keep_previous: None,
    };
    assert(constraint_views(res.constraints@) =~= Seq::<ConstraintV>::empty());
    res
}

/// The largest number of activities that can run in parallel.
fn max_parallel_exec(n: usize, nr: usize) -> (res: usize)
    ensures
        res == max_parallel(n as nat, nr as nat),
{
    if n < nr {
        n
    } else {
        nr
    }
}

impl LpRun {
    /// Whether the programs for these arguments can be built (`run_fits`).
    pub fn can_start(
        fractivity_entries: &Vec<Entry>,
        all_rooms: &Vec<FractivityRoom>,
        all_instructors: &Vec<u128>,
        first_start: i32,
        num_starts: i32,
    ) -> (res: bool)
        ensures
            res == run_fits(fractivity_entries@, all_rooms@, all_instructors@, first_start, num_starts),
    {
        let n = fractivity_entries.len();
        let nr = all_rooms.len();
        let ni = all_instructors.len();
        let sl: usize = if num_starts > 0 {
            num_starts as usize
        } else {
            0
        };
        if num_starts > 0 {
            let last = first_start as i64 + 15 * (num_starts as i64 - 1);
            if last > i32::MAX as i64 || 15 * (num_starts as i64 - 1) > i32::MAX as i64 {
                return false;
            }
        }
        assert(grid_fits(first_start, num_starts));
        let nn = match n.checked_mul(n) {
            Some(x) => x,
            None => {
                return false;
            },
        };
        let nni = match nn.checked_mul(ni) {
            Some(x) => x,
            None => {
                return false;
            },
        };
        proof {
            vstd::arithmetic::mul::lemma_mul_is_associative(n as int, n as int, ni as int);
        }
        // the number of variables, summed without overflow
        let mut pc: usize = 0;
        let mut a: usize = 0;
        while a < n
            invariant
                a <= n,
                n == fractivity_entries@.len(),
                nr == all_rooms@.len(),
                ni == all_instructors@.len(),
                sl == grid_len(num_starts),
                pc == pairs_before(n as int, a as int),
            decreases n - a,
        {
            pc = match pc.checked_add(n - (a + 1)) {
                Some(x) => x,
                None => {
                    proof {
                        lemma_pairs_grow(n as int, a + 1, n as int);
                        lemma_var_total_parts(n as nat, sl as nat, nr as nat, ni as nat);
                    }
                    return false;
                },
            };
            a = a + 1;
        }
        let mp = max_parallel_exec(n, nr);
        proof {
            lemma_var_total_parts(n as nat, sl as nat, nr as nat, ni as nat);
        }
        let x1: usize = if n == 0 {
            assert(n * (sl + nr) == 0) by (nonlinear_arith)
                requires n == 0;
            0
        } else {
            match sl.checked_add(nr) {
                None => {
                    assert(n * (sl + nr) >= sl + nr) by (nonlinear_arith)
                        requires n >= 1, sl + nr >= 0;
                    return false;
                },
                Some(snr) => match n.checked_mul(snr) {
                    None => {
                        return false;
                    },
                    Some(x) => x,
                },
            }
        };
        assert(x1 == n * (sl + nr));
        let x2 = match pc.checked_mul(3) {
            None => {
                return false;
            },
            Some(x) => x,
        };
        let x3 = match sl.checked_mul(mp) {
            None => {
                return false;
            },
            Some(x) => x,
        };
        let x4 = match n.checked_mul(ni) {
            None => {
                return false;
            },
            Some(x) => x,
        };
        let y1 = match x1.checked_add(x2) {
            None => {
                return false;
            },
            Some(x) => x,
        };
        let y2 = match y1.checked_add(x3) {
            None => {
                return false;
            },
            Some(x) => x,
        };
        let y3 = match y2.checked_add(x4) {
            None => {
                return false;
            },
            Some(x) => x,
        };
        if y3 == usize::MAX {
            return false;
        }
        assert(y3 == var_total(n as nat, sl as nat, nr as nat, ni as nat));
        let ghost fits_before = n * n <= usize::MAX && n * n * ni <= usize::MAX && var_total(
            n as nat,
            sl as nat,
            nr as nat,
            ni as nat,
        ) < usize::MAX;
        assert(n * n <= usize::MAX);
        assert(n * n * ni <= usize::MAX);
        assert(var_total(n as nat, sl as nat, nr as nat, ni as nat) < usize::MAX);
        assert(fits_before);
        let mut ai: usize = 0;
        while ai < n
            invariant
                ai <= n,
                fits_before,
                fits_before == (n * n <= usize::MAX && n * n * ni <= usize::MAX && var_total(
                    n as nat,
                    sl as nat,
                    nr as nat,
                    ni as nat,
                ) < usize::MAX),
                nr == all_rooms@.len(),
                ni == all_instructors@.len(),
                n == fractivity_entries@.len(),
                sl == grid_len(num_starts),
                grid_fits(first_start, num_starts),
                forall|a: int, s: int|
                    0 <= a < ai && 0 <= s < sl ==> #[trigger] times_fit(
                        fractivity_entries@[a].0,
                        grid_time(first_start, s),
                    ),
            decreases n - ai,
        {
            let e = &fractivity_entries[ai].0;
            let mut s: usize = 0;
            while s < sl
                invariant
                    s <= sl,
                    ai < n,
                    n == fractivity_entries@.len(),
                    sl == grid_len(num_starts),
                    grid_fits(first_start, num_starts),
                    *e == fractivity_entries@[ai as int].0,
                    forall|a: int, s2: int|
                        0 <= a < ai && 0 <= s2 < sl ==> #[trigger] times_fit(
                            fractivity_entries@[a].0,
                            grid_time(first_start, s2),
                        ),
                    forall|s2: int| 0 <= s2 < s ==> #[trigger] times_fit(*e, grid_time(first_start, s2)),
                decreases sl - s,
            {
                let t = first_start as i64 + 15 * (s as i64);
                let begin = t - e.preparation_time as i64;
                let end = t + e.duration as i64;
                let end2 = end + e.follow_up_time as i64;
                if begin < i32::MIN as i64 || begin > i32::MAX as i64 || end < i32::MIN as i64
                    || end > i32::MAX as i64 || end2 < i32::MIN as i64 || end2 > i32::MAX as i64 {
                    assert(!times_fit(fractivity_entries@[ai as int].0, grid_time(first_start, s as int)));
                    return false;
                }
                s = s + 1;
            }
            ai = ai + 1;
        }
        true
    }
}

impl LpRun {
    /// Creates the variables of the programs and the first program: place
    /// as many entries as possible (maximise the placement objective, each
    /// entry placed at most once).
    pub fn new(
        fractivity_entries: Vec<Entry>,
        all_rooms: Vec<FractivityRoom>,
        all_instructors: Vec<u128>,
        first_start: i32,
        num_starts: i32,
    ) -> (res: (LpRun, LpProblem))
        requires
            run_fits(fractivity_entries@, all_rooms@, all_instructors@, first_start, num_starts),
        ensures
            res.0.entries@ == fractivity_entries@,
            res.0.all_rooms@ == all_rooms@,
            res.0.all_instructors@ == all_instructors@,
            res.0.first_start == first_start,
            res.0.num_starts == num_starts,
            res.0.phase == Phase::Placement,
            res.0.wf(),
            res.0.layout(),
            is_program(
                res.1,
                res.0.num_vars as int,
                res.0.max_distribution_obj@,
                all_constraints(res.0.program(), true),
                false,
                false,
                None,
            ),
    {
        let ghost n = fractivity_entries@.len();
        let ghost sl = grid_len(num_starts);
        let ghost nr = all_rooms@.len();
        let ghost ni = all_instructors@.len();
        proof {
            lemma_var_total_parts(n, sl, nr, ni);
        }
        let mut all_vars = VarPool::new();
        let mut max_distribution_obj: Vec<(usize, Coefficient)> = Vec::new();
        let (starts, rooms) = create_fractivity_variables(
            &fractivity_entries,
            &all_rooms,
            &all_instructors,
            first_start,
            num_starts,
            &mut all_vars,
            &mut max_distribution_obj,
        );
        let ghost k1 = all_vars.count as int;
        let (instructor_overlap, room_overlap, any_overlap) = create_fractivity_pair_variables(
            &fractivity_entries,
            &mut all_vars,
        );
        let ghost k2 = all_vars.count as int;
        let mut parallel_obj: Vec<(usize, Coefficient)> = Vec::new();
        let b = create_parallel_variables(
            &fractivity_entries,
            &all_rooms,
            num_starts,
            &mut all_vars,
            &mut parallel_obj,
        );
        let ghost k3 = all_vars.count as int;
        let mut visitor_obj: Vec<(usize, Coefficient)> = Vec::new();
        let v = create_visitor_variables(&fractivity_entries, &all_instructors, &mut all_vars, &mut visitor_obj);
        let num_vars = all_vars.count;
        let mut problem = empty_program(num_vars, &max_distribution_obj, false, false);
        let run = LpRun {
            entries: fractivity_entries,
            all_rooms,
            all_instructors,
            first_start,
            num_starts,
            num_vars,
            starts,
            rooms,
            instructor_overlap,
            room_overlap,
            any_overlap,
            b,
            v,
            max_distribution_obj,
            parallel_obj,
            visitor_obj,
            phase: Phase::Placement,
        };
        let n_exec = run.entries.len();
        let nr_exec = run.all_rooms.len();
        proof {
            assert(max_parallel(n_exec as nat, nr_exec as nat) <= i128::MAX);
            assert(k1 == run.max_distribution_obj@.len());
            let rows = fractivity_rows(grid(run.starts@), grid(run.rooms@));
            assert forall|a: int, s: int|
                0 <= a < n && 0 <= s < run.starts@[a]@.len() && (#[trigger] run.starts@[a]@[s]) is Some implies run.starts@[a]@[s]->0
                    < run.num_vars by {
                assert(rows[2 * a] == run.starts@[a]@);
                assert(rows[2 * a][s] is Some);
            }
            assert forall|a: int, r: int|
                0 <= a < n && 0 <= r < run.rooms@[a]@.len() && (#[trigger] run.rooms@[a]@[r]) is Some implies run.rooms@[a]@[r]->0
                    < run.num_vars by {
                assert(rows[2 * a + 1] == run.rooms@[a]@);
                assert(rows[2 * a + 1][r] is Some);
            }
            assert(program_wf(run.program()));
            lemma_wf_fits(run.program(), true);
        }
        add_constraints(
            &run.entries,
            &run.all_rooms,
            &run.all_instructors,
            first_start,
            num_starts,
            &mut problem,
            &run.starts,
            &run.rooms,
            &run.instructor_overlap,
            &run.room_overlap,
            &run.any_overlap,
            &run.b,
            &run.v,
            true,
        );
        assert(constraint_views(problem.constraints@) =~= all_constraints(run.program(), true));
        (run, problem)
    }
}

/// The variable at position `i` of `row` is present and set in `vals`.
pub open spec fn is_set(row: Seq<Option<usize>>, vals: Seq<bool>, i: int) -> bool {
    &&& row[i] is Some
    &&& row[i]->0 < vals.len()
    &&& vals[row[i]->0 as int]
}

/// The first position from `i` on whose variable is set.
pub open spec fn first_set(row: Seq<Option<usize>>, vals: Seq<bool>, i: int) -> Option<int>
    decreases row.len() - i,
{
    if i >= row.len() {
        None
    } else if is_set(row, vals, i) {
        Some(i)
    } else {
        first_set(row, vals, i + 1)
    }
}

/// Where the solution `vals` places entry `a`: the room of its first set
/// room variable and the time of its first set start variable, if both
/// exist.
pub open spec fn placement(run: LpRun, vals: Seq<bool>, a: int) -> Option<(u128, i32)> {
    match (first_set(run.starts@[a]@, vals, 0), first_set(run.rooms@[a]@, vals, 0)) {
        (Some(s), Some(r)) => Some((run.all_rooms@[r].id, grid_time(run.first_start, s) as i32)),
        _ => None,
    }
}

/// The entries before `k` that the solution `vals` leaves unplaced, in
/// order.
pub open spec fn unplaced(run: LpRun, vals: Seq<bool>, k: int) -> Seq<int>
    decreases k,
{
    if k <= 0 {
        Seq::empty()
    } else if placement(run, vals, k - 1) is None {
        unplaced(run, vals, k - 1).push(k - 1)
    } else {
        unplaced(run, vals, k - 1)
    }
}

/// The placements of the entries before `k` that the solution `vals`
/// places, in order: entry number, room and start time.
pub open spec fn placed(run: LpRun, vals: Seq<bool>, k: int) -> Seq<(usize, u128, i32)>
    decreases k,
{
    if k <= 0 {
        Seq::empty()
    } else {
        match placement(run, vals, k - 1) {
            Some(pl) => placed(run, vals, k - 1).push(((k - 1) as usize, pl.0, pl.1)),
            None => placed(run, vals, k - 1),
        }
    }
}

/// `list` holds copies of the entries at the positions `idx`.
pub open spec fn copies_of(list: Seq<FractivityEntry>, entries: Seq<Entry>, idx: Seq<int>) -> bool {
    &&& list.len() == idx.len()
    &&& forall|i: int| 0 <= i < idx.len() ==> #[trigger] same_entry(list[i], entries[idx[i]].0)
}

/// The sum of all present variables of the rows before `k`.
pub open spec fn all_ones(rows: Seq<Seq<Option<usize>>>, k: int) -> Seq<(usize, i128)>
    decreases k,
{
    if k <= 0 {
        Seq::empty()
    } else {
        all_ones(rows, k - 1) + ones(rows[k - 1])
    }
}

/// What the next step of a distribution is.
#[derive(Debug)]
pub enum LpStep {
    /// Solve this program and hand back its solution.
    Solve(LpProblem),
    /// The distribution is over: the placements (entry number, room,
    /// start), or the entries that could not be placed, or the solver's
    /// error.
    Done(Result<Result<Vec<(usize, u128, i32)>, Vec<FractivityEntry>>, String>),
}

/// The data of the two runs are the same; only the phase may differ.
pub open spec fn same_data(x: LpRun, y: LpRun) -> bool {
    &&& x.entries@ == y.entries@
    &&& x.all_rooms@ == y.all_rooms@
    &&& x.all_instructors@ == y.all_instructors@
    &&& x.first_start == y.first_start
    &&& x.num_starts == y.num_starts
    &&& x.num_vars == y.num_vars
    &&& x.starts@ == y.starts@
    &&& x.rooms@ == y.rooms@
    &&& x.instructor_overlap@ == y.instructor_overlap@
    &&& x.room_overlap@ == y.room_overlap@
    &&& x.any_overlap@ == y.any_overlap@
    &&& x.b@ == y.b@
    &&& x.v@ == y.v@
    &&& x.max_distribution_obj@ == y.max_distribution_obj@
    &&& x.parallel_obj@ == y.parallel_obj@
    &&& x.visitor_obj@ == y.visitor_obj@
}

/// The first position of `row` whose variable is set in `vals`.
fn first_set_exec(row: &Vec<Option<usize>>, vals: &Vec<bool>) -> (res: Option<usize>)
    ensures
        match res {
            Some(i) => first_set(row@, vals@, 0) == Some(i as int) && i < row@.len(),
            None => first_set(row@, vals@, 0) is None,
        },
{
    let mut i: usize = 0;
    while i < row.len()
        invariant
            i <= row@.len(),
            first_set(row@, vals@, 0) == first_set(row@, vals@, i as int),
        decreases row@.len() - i,
    {
        match row[i] {
            Some(x) => {
                if x < vals.len() && vals[x] {
                    return Some(i);
                }
            },
            None => {},
        }
        i = i + 1;
    }
    None
}

impl LpRun {
    /// Reads a solution: the placements of the placed entries and copies of
    /// the unplaced ones.
    fn read_solution(&self, vals: &Vec<bool>) -> (res: (Vec<(usize, u128, i32)>, Vec<FractivityEntry>))
        requires
            self.wf(),
        ensures
            res.0@ == placed(*self, vals@, self.entries@.len() as int),
            copies_of(res.1@, self.entries@, unplaced(*self, vals@, self.entries@.len() as int)),
    {
        let n = self.entries.len();
        let ghost p = self.program();
        let mut done: Vec<(usize, u128, i32)> = Vec::new();
        let mut missing: Vec<FractivityEntry> = Vec::new();
        let mut a: usize = 0;
        while a < n
            invariant
                a <= n,
                n == self.entries@.len(),
                self.wf(),
                p == self.program(),
                done@ == placed(*self, vals@, a as int),
                copies_of(missing@, self.entries@, unplaced(*self, vals@, a as int)),
            decreases n - a,
        {
            assert(p.starts[a as int] == self.starts@[a as int]@);
            assert(p.rooms[a as int] == self.rooms@[a as int]@);
            assert(p.starts[a as int].len() == p.slots);
            let s = first_set_exec(&self.starts[a], vals);
            let r = first_set_exec(&self.rooms[a], vals);
            let ghost before = missing@;
            match (s, r) {
                (Some(s), Some(r)) => {
                    assert(s < grid_len(self.num_starts));
                    let start = self.first_start + 15 * (s as i32);
                    assert(start == grid_time(self.first_start, s as int));
                    done.push((a, self.all_rooms[r].id, start));
                },
                _ => {
                    missing.push(self.entries[a].0.clone());
                    assert forall|i: int| 0 <= i < unplaced(*self, vals@, a + 1).len() implies #[trigger] same_entry(
                        missing@[i],
                        self.entries@[unplaced(*self, vals@, a + 1)[i]].0,
                    ) by {
                        if i < before.len() {
                            assert(missing@[i] == before[i]);
                        }
                    }
                },
            }
            a = a + 1;
        }
        (done, missing)
    }

    /// The next step of the distribution, given the outcome of solving the
    /// last program: the values that took a positive value, or the
    /// solver's error.
    ///
    /// An error ends the distribution with it. After the placement program,
    /// unplaced entries end it with those entries; otherwise the visitor
    /// program comes next (all entries placed exactly once, relative gap
    /// one half). After it, the parallelism program comes (the same
    /// constraints, time limit, relative gap one half, and the number of
    /// served visitors at least that of the visitor program's solution).
    /// Its solution ends the distribution with the placements, or with the
    /// entries it leaves unplaced. When that solution meets the program's
    /// constraints, no two placed entries that share an instructor, or that
    /// take the same room, overlap.
    pub fn step(&mut self, outcome: Result<Vec<bool>, String>) -> (res: LpStep)
        requires
            old(self).wf(),
            old(self).phase != Phase::Finished,
        ensures
            same_data(*final(self), *old(self)),
            final(self).wf(),
            match outcome {
                Err(e) => final(self).phase == Phase::Finished && (res matches LpStep::Done(Err(e2)) && e2@ == e@),
                Ok(vals) => {
                    let run = *old(self);
                    let n = run.entries@.len() as int;
                    match run.phase {
                        Phase::Placement => if unplaced(run, vals@, n).len() == 0 {
                            &&& final(self).phase == Phase::Visitors
                            &&& res matches LpStep::Solve(pr) && is_program(
                                pr,
                                run.num_vars as int,
                                run.visitor_obj@,
                                all_constraints(run.program(), false),
                                true,
                                false,
                                None,
                            )
                        } else {
                            &&& final(self).phase == Phase::Finished
                            &&& res matches LpStep::Done(Ok(Err(list))) && copies_of(list@, run.entries@, unplaced(run, vals@, n))
                        },
                        Phase::Visitors => {
                            &&& final(self).phase == Phase::Parallel
                            &&& res matches LpStep::Solve(pr) && is_program(
                                pr,
                                run.num_vars as int,
                                run.parallel_obj@,
                                all_constraints(run.program(), false),
                                true,
                                true,
                                Some(expr(all_ones(grid(run.v@), n), 0)),
                            )
                        },
                        _ => {
                            &&& final(self).phase == Phase::Finished
                            &&& if unplaced(run, vals@, n).len() == 0 {
                                &&& res matches LpStep::Done(Ok(Ok(list))) && list@ == placed(run, vals@, n)
                                &&& satisfies(all_constraints(run.program(), false), vals@) ==> kept_apart(run, vals@)
                            } else {
                                res matches LpStep::Done(Ok(Err(list))) && copies_of(list@, run.entries@, unplaced(run, vals@, n))
                            }
                        },
                    }
                },
            },
    {
        let ghost run = *self;
        match outcome {
            Err(e) => {
                self.phase = Phase::Finished;
                LpStep::Done(Err(e))
            },
            Ok(vals) => {
                if self.phase == Phase::Visitors {
                    let mut problem = empty_program(self.num_vars, &self.parallel_obj, true, true);
                    proof {
                        lemma_wf_fits(run.program(), false);
                    }
                    add_constraints(
                        &self.entries,
                        &self.all_rooms,
                        &self.all_instructors,
                        self.first_start,
                        self.num_starts,
                        &mut problem,
                        &self.starts,
                        &self.rooms,
                        &self.instructor_overlap,
                        &self.room_overlap,
                        &self.any_overlap,
                        &self.b,
                        &self.v,
                        false,
                    );
                    assert(constraint_views(problem.constraints@) =~= all_constraints(run.program(), false));
                    problem.keep_previous = Some(rows_sum(&self.v));
                    self.phase = Phase::Parallel;
                    return LpStep::Solve(problem);
                }
                let (done, missing) = self.read_solution(&vals);
                if self.phase == Phase::Placement && missing.len() == 0 {
                    let mut problem = empty_program(self.num_vars, &self.visitor_obj, true, false);
                    proof {
                        lemma_wf_fits(run.program(), false);
                    }
                    add_constraints(
                        &self.entries,
                        &self.all_rooms,
                        &self.all_instructors,
                        self.first_start,
                        self.num_starts,
                        &mut problem,
                        &self.starts,
                        &self.rooms,
                        &self.instructor_overlap,
                        &self.room_overlap,
                        &self.any_overlap,
                        &self.b,
                        &self.v,
                        false,
                    );
                    assert(constraint_views(problem.constraints@) =~= all_constraints(run.program(), false));
                    self.phase = Phase::Visitors;
                    LpStep::Solve(problem)
                } else if missing.len() == 0 {
                    proof {
                        if satisfies(all_constraints(run.program(), false), vals@) {
                            lemma_run_kept_apart(run, vals@, false);
                        }
                    }
                    self.phase = Phase::Finished;
                    LpStep::Done(Ok(Ok(done)))
                } else {
                    self.phase = Phase::Finished;
                    LpStep::Done(Ok(Err(missing)))
                }
            },
        }
    }
}

/// The sum of all present variables of the rows, each with coefficient 1.
pub(crate) fn rows_sum(v: &Vec<Vec<Option<usize>>>) -> (res: LinExpr)
    ensures
        res@ == expr(all_ones(grid(v@), v@.len() as int), 0),
{
    let mut terms: Vec<(usize, i128)> = Vec::new();
    let mut a: usize = 0;
    while a < v.len()
        invariant
            a <= v@.len(),
            terms@ == all_ones(grid(v@), a as int),
        decreases v@.len() - a,
    {
        let row = &v[a];
        assert(grid(v@)[a as int] == row@);
        let ghost before = terms@;
        let mut i: usize = 0;
        while i < row.len()
            invariant
                i <= row@.len(),
                terms@ == before + ones(row@.subrange(0, i as int)),
            decreases row@.len() - i,
        {
            assert(row@.subrange(0, i + 1).drop_last() =~= row@.subrange(0, i as int));
            match row[i] {
                Some(x) => {
                    terms.push((x, 1));
                },
                None => {},
            }
            i = i + 1;
            assert(terms@ =~= before + ones(row@.subrange(0, i as int)));
        }
        assert(row@.subrange(0, i as int) =~= row@);
        a = a + 1;
    }
    LinExpr { terms, constant: 0 }
}

/// The first set position from `i` on is set, and none before it is.
pub proof fn lemma_first_set(row: Seq<Option<usize>>, vals: Seq<bool>, i: int)
    requires
        0 <= i,
    ensures
        first_set(row, vals, i) matches Some(j) ==> i <= j < row.len() && is_set(row, vals, j)
            && forall|k: int| i <= k < j ==> !is_set(row, vals, k),
        first_set(row, vals, i) is None ==> forall|k: int| i <= k < row.len() ==> !is_set(row, vals, k),
    decreases row.len() - i,
{
    if i < row.len() && !is_set(row, vals, i) {
        lemma_first_set(row, vals, i + 1);
    }
}

/// Every placement that a solution gives an entry uses its fixed room and
/// start, or one of its allowed rooms and one of its allowed starts.
pub proof fn lemma_placement_allowed(run: LpRun, vals: Seq<bool>, a: int)
    requires
        run.layout(),
        grid_fits(run.first_start, run.num_starts),
        0 <= a < run.entries@.len(),
    ensures
        placement(run, vals, a) matches Some(pl) ==> room_var_wanted(run.entries@[a], pl.0)
            && start_var_wanted(run.entries@[a], pl.1 as int),
{
    lemma_first_set(run.starts@[a]@, vals, 0);
    lemma_first_set(run.rooms@[a]@, vals, 0);
    if let (Some(s), Some(r)) = (first_set(run.starts@[a]@, vals, 0), first_set(run.rooms@[a]@, vals, 0)) {
        assert(run.starts@[a]@[s] is Some);
        assert(run.rooms@[a]@[r] is Some);
    }
}

/// A solution splits the entries: each is either placed or left unplaced,
/// in order.
pub proof fn lemma_placed_unplaced(run: LpRun, vals: Seq<bool>, k: int)
    requires
        0 <= k <= usize::MAX,
    ensures
        placed(run, vals, k).len() + unplaced(run, vals, k).len() == k,
        forall|i: int| 0 <= i < unplaced(run, vals, k).len() ==> 0 <= #[trigger] unplaced(run, vals, k)[i] < k
            && placement(run, vals, unplaced(run, vals, k)[i]) is None,
        forall|i: int| 0 <= i < placed(run, vals, k).len() ==> {
            let q = #[trigger] placed(run, vals, k)[i];
            &&& 0 <= q.0 < k
            &&& placement(run, vals, q.0 as int) == Some((q.1, q.2))
        },
    decreases k,
{
    if k > 0 {
        lemma_placed_unplaced(run, vals, k - 1);
    }
}

/// The room in which the solution `vals` places entry `a`, if it does.
pub open spec fn placed_room(run: LpRun, vals: Seq<bool>, a: int) -> u128 {
    match placement(run, vals, a) {
        Some((room, _)) => room,
        None => 0,
    }
}

/// The start at which the solution `vals` places entry `a`, if it does.
pub open spec fn placed_time(run: LpRun, vals: Seq<bool>, a: int) -> int {
    match placement(run, vals, a) {
        Some((_, time)) => time as int,
        None => 0,
    }
}

/// Entries `a` and `b` have an instructor in common among the run's people.
pub open spec fn shares_instructor(run: LpRun, a: int, b: int) -> bool {
    exists|i: int|
        0 <= i < run.all_instructors@.len() && run.entries@[a].0.instructor_extension_uuids@.contains(
            run.all_instructors@[i],
        ) && #[trigger] run.entries@[b].0.instructor_extension_uuids@.contains(run.all_instructors@[i])
}

/// No two rooms of the list have the same id.
pub open spec fn room_ids_distinct(rooms: Seq<FractivityRoom>) -> bool {
    forall|r1: int, r2: int| 0 <= r1 < r2 < rooms.len() ==> #[trigger] rooms[r1].id != #[trigger] rooms[r2].id
}

/// In the placements that the solution `vals` gives, two entries that share
/// an instructor, or (room ids being distinct) that take the same room, do
/// not overlap.
pub open spec fn kept_apart(run: LpRun, vals: Seq<bool>) -> bool {
    forall|a: int, b: int|
        0 <= a < b < run.entries@.len() && (#[trigger] placement(run, vals, a)) is Some
            && (#[trigger] placement(run, vals, b)) is Some && (shares_instructor(run, a, b) || (room_ids_distinct(
            run.all_rooms@,
        ) && placed_room(run, vals, a) == placed_room(run, vals, b))) ==> !overlap_spec(
            run.entries@[a].0,
            placed_time(run, vals, a),
            run.entries@[b].0,
            placed_time(run, vals, b),
        )
}

/// A solution that meets the constraints of one of the run's programs
/// keeps apart the entries that share an instructor and those that it sets
/// in the same room: no two of them are placed at times at which they
/// overlap.
pub proof fn lemma_run_kept_apart(run: LpRun, vals: Seq<bool>, allow: bool)
    requires
        run.wf(),
        satisfies(all_constraints(run.program(), allow), vals),
    ensures
        kept_apart(run, vals),
{
    let p = run.program();
    let n = run.entries@.len();
    assert forall|a: int, b: int|
        0 <= a < b < n && (#[trigger] placement(run, vals, a)) is Some && (#[trigger] placement(run, vals, b)) is Some
            && (shares_instructor(run, a, b) || (room_ids_distinct(run.all_rooms@) && placed_room(run, vals, a)
            == placed_room(run, vals, b))) implies !overlap_spec(
        run.entries@[a].0,
        placed_time(run, vals, a),
        run.entries@[b].0,
        placed_time(run, vals, b),
    ) by {
        lemma_first_set(run.starts@[a]@, vals, 0);
        lemma_first_set(run.rooms@[a]@, vals, 0);
        lemma_first_set(run.starts@[b]@, vals, 0);
        lemma_first_set(run.rooms@[b]@, vals, 0);
        let s1 = first_set(run.starts@[a]@, vals, 0)->0;
        let r1 = first_set(run.rooms@[a]@, vals, 0)->0;
        let s2 = first_set(run.starts@[b]@, vals, 0)->0;
        let r2 = first_set(run.rooms@[b]@, vals, 0)->0;
        assert(p.starts[a] == run.starts@[a]@);
        assert(p.starts[b] == run.starts@[b]@);
        assert(p.rooms[a] == run.rooms@[a]@);
        assert(p.rooms[b] == run.rooms@[b]@);
        assert(p.starts[a].len() == p.slots && p.rooms[a].len() == p.room_count);
        assert(p.starts[b].len() == p.slots && p.rooms[b].len() == p.room_count);
        assert(value(vals, p.starts[a][s1]->0) == 1);
        assert(value(vals, p.starts[b][s2]->0) == 1);
        if shares_instructor(run, a, b) {
            let i = choose|i: int|
                0 <= i < run.all_instructors@.len() && run.entries@[a].0.instructor_extension_uuids@.contains(
                    run.all_instructors@[i],
                ) && #[trigger] run.entries@[b].0.instructor_extension_uuids@.contains(run.all_instructors@[i]);
            assert(super::constraints::is_instructor_of(p, b, i));
            assert(share_instructor(p, a, b));
        } else {
            if r1 != r2 {
                if r1 < r2 {
                    assert(run.all_rooms@[r1].id != run.all_rooms@[r2].id);
                } else {
                    assert(run.all_rooms@[r2].id != run.all_rooms@[r1].id);
                }
            }
            assert(value(vals, p.rooms[a][r1]->0) == 1);
            assert(value(vals, p.rooms[b][r1]->0) == 1);
            assert(set_in_same_room(p, a, b, vals));
        }
        lemma_kept_apart(p, allow, vals, a, b, s1, s2);
    }
}

/// When all entries must be placed, every solution of the program's
/// constraints places each entry: none is left unplaced, and the placements
/// list every entry in order.
pub proof fn lemma_strict_places_all(run: LpRun, vals: Seq<bool>)
    requires
        run.wf(),
        satisfies(all_constraints(run.program(), false), vals),
    ensures
        unplaced(run, vals, run.entries@.len() as int).len() == 0,
        placed(run, vals, run.entries@.len() as int).len() == run.entries@.len(),
{
    let p = run.program();
    let n = run.entries@.len() as int;
    assert forall|a: int| 0 <= a < n implies (#[trigger] placement(run, vals, a)) is Some by {
        lemma_each_entry_once(p, false, vals, a);
        assert(p.starts[a] == run.starts@[a]@);
        assert(p.rooms[a] == run.rooms@[a]@);
        let i = choose|i: int| set_at(p.starts[a], vals, i);
        let j = choose|j: int| set_at(p.rooms[a], vals, j);
        lemma_first_set(run.starts@[a]@, vals, 0);
        lemma_first_set(run.rooms@[a]@, vals, 0);
        assert(is_set(run.starts@[a]@, vals, i));
        assert(is_set(run.rooms@[a]@, vals, j));
    }
    assert(n <= usize::MAX) by {
        assert(run.entries@.len() == run.entries.len());
    }
    lemma_placed_unplaced(run, vals, n);
    if unplaced(run, vals, n).len() > 0 {
        assert(placement(run, vals, unplaced(run, vals, n)[0]) is None);
    }
}

/// Runs with the same data read the same placements from a solution.
pub proof fn lemma_same_data_reads(x: LpRun, y: LpRun, vals: Seq<bool>, k: int)
    requires
        same_data(x, y),
    ensures
        unplaced(x, vals, k) == unplaced(y, vals, k),
        placed(x, vals, k) == placed(y, vals, k),
        x.program() == y.program(),
    decreases k,
{
    if k > 0 {
        lemma_same_data_reads(x, y, vals, k - 1);
        assert(placement(x, vals, k - 1) == placement(y, vals, k - 1));
    }
}

/// Pair numbers count up to the total.
proof fn lemma_pairs_grow(n: int, a: int, m: int)
    requires
        0 <= a <= m <= n,
    ensures
        pairs_before(n, a) <= pairs_before(n, m),
    decreases m - a,
{
    if a < m {
        lemma_pairs_grow(n, a, m - 1);
    }
}

/// Each part of the number of variables is at most the whole.
proof fn lemma_var_total_parts(n: nat, sl: nat, nr: nat, ni: nat)
    ensures
        pairs_before(n as int, n as int) >= 0,
        n * (sl + nr) >= 0,
        sl * max_parallel(n, nr) >= 0,
        n * ni >= 0,
        3 * pairs_before(n as int, n as int) <= var_total(n, sl, nr, ni),
        n * (sl + nr) <= var_total(n, sl, nr, ni),
{
    super::variables::lemma_pairs_before_mono(n as int, 0, n as int);
    assert(n * (sl + nr) >= 0) by (nonlinear_arith);
    assert(sl * max_parallel(n, nr) >= 0) by (nonlinear_arith);
    assert(n * ni >= 0) by (nonlinear_arith);
}

} // verus!
