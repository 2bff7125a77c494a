//! Driving a distribution: the sequence of programs of a run, each handed to
//! a solver, and the whole distribution from the entries to their rooms and
//! start times.
use vstd::prelude::*;

use super::{same_entry, FractivityEntry, FractivityRoom};
use super::constraints::{all_constraints, expr};
use super::model::{satisfies, LpProblem};
use super::plan::{
    collect_assignments, earliest_start, first_unplaceable, latest_start, people, plan_distribution, slots_between,
    span_fits,
};
use super::run::{
    all_ones, copies_of, is_program, kept_apart, lemma_placed_unplaced, lemma_same_data_reads, placed, run_fits, same_data,
    unplaced, LpRun, LpStep, Phase,
};
use super::variables::{grid, Entry};

verus! {

/// `a` holds copies of the entries of `b`, with the same fixed placements.
pub open spec fn entries_alike(a: Seq<Entry>, b: Seq<Entry>) -> bool {
    &&& a.len() == b.len()
    &&& forall|i: int| 0 <= i < a.len() ==> same_entry(#[trigger] a[i].0, b[i].0) && a[i].1 == b[i].1
}

/// The result of a distribution.
pub type Outcome = Result<Result<Vec<(usize, u128, i32)>, Vec<FractivityEntry>>, String>;

/// `res` is what the run ends with for some solution of its last program:
/// the entries that solution leaves unplaced, or, when it places all, the
/// placements it gives (entry number, room, start), which keep entries that
/// share an instructor or a room apart when the solution meets the
/// program's constraints; or an error of the solver.
pub open spec fn run_outcome(run: LpRun, res: Outcome) -> bool {
    let n = run.entries@.len() as int;
    match res {
        Err(_) => true,
        Ok(Err(list)) => exists|vals: Seq<bool>|
            unplaced(run, vals, n).len() > 0 && copies_of(list@, run.entries@, #[trigger] unplaced(run, vals, n)),
        Ok(Ok(list)) => {
            &&& forall|i: int| 0 <= i < list@.len() ==> (#[trigger] list@[i]).0 < n
            &&& exists|vals: Seq<bool>|
                unplaced(run, vals, n).len() == 0 && list@ == #[trigger] placed(run, vals, n) && (satisfies(
                    all_constraints(run.program(), false),
                    vals,
                ) ==> kept_apart(run, vals))
        },
    }
}

/// `res` is what a run over copies of `entries`, with these rooms, people
/// and grid, ends with.
pub open spec fn lp_outcome(
    entries: Seq<Entry>,
    rooms: Seq<FractivityRoom>,
    instructors: Seq<u128>,
    first_start: i32,
    num_starts: i32,
    res: Outcome,
) -> bool {
    exists|run: LpRun|
        #[trigger] run_outcome(run, res) && run.wf() && run.layout() && entries_alike(run.entries@, entries)
            && run.all_rooms@ == rooms && run.all_instructors@ == instructors && run.first_start == first_start
            && run.num_starts == num_starts
}

/// `o` is a possible answer of `solve` to the program `p`, handed the
/// solution `prev` of the program before it.
pub open spec fn answers<F: Fn(&LpProblem, &Vec<bool>) -> Result<Vec<bool>, String>>(
    solve: F,
    p: LpProblem,
    prev: Seq<bool>,
    o: Result<Vec<bool>, String>,
) -> bool {
    exists|pv: Vec<bool>| pv@ == prev && #[trigger] call_ensures(solve, (&p, &pv), o)
}

/// The first program of the run: place as many entries as possible, each at
/// most once.
pub open spec fn placement_program(run: LpRun, pr: LpProblem) -> bool {
    is_program(pr, run.num_vars as int, run.max_distribution_obj@, all_constraints(run.program(), true), false, false, None)
}

/// The second program: serve the visitors, every entry placed exactly once,
/// with a relative gap of one half.
pub open spec fn visitor_program(run: LpRun, pr: LpProblem) -> bool {
    is_program(pr, run.num_vars as int, run.visitor_obj@, all_constraints(run.program(), false), true, false, None)
}

/// The third program: spread out parallel activities, every entry placed
/// exactly once and the served visitors kept, with a time limit and a
/// relative gap of one half.
pub open spec fn parallel_program(run: LpRun, pr: LpProblem) -> bool {
    is_program(
        pr,
        run.num_vars as int,
        run.parallel_obj@,
        all_constraints(run.program(), false),
        true,
        true,
        Some(expr(all_ones(grid(run.v@), run.entries@.len() as int), 0)),
    )
}

/// `res` is the solver's error `e`.
pub open spec fn is_error(res: Outcome, e: String) -> bool {
    res matches Err(e2) && e2@ == e@
}

/// `res` reports the entries that the solution `vals` leaves unplaced.
pub open spec fn reports_unplaced(run: LpRun, vals: Seq<bool>, res: Outcome) -> bool {
    res matches Ok(Err(list)) && copies_of(list@, run.entries@, unplaced(run, vals, run.entries@.len() as int))
}

/// What `res` is after the last program was answered with `o`.
pub open spec fn ends_with(run: LpRun, o: Result<Vec<bool>, String>, res: Outcome) -> bool {
    match o {
        Err(e) => is_error(res, e),
        Ok(v) => if unplaced(run, v@, run.entries@.len() as int).len() == 0 {
            res matches Ok(Ok(list)) && list@ == placed(run, v@, run.entries@.len() as int)
        } else {
            reports_unplaced(run, v@, res)
        },
    }
}

/// `res` comes from handing the run's programs to `solve` in turn: the
/// placement program first (with no solution before it); if its answer
/// places every entry, the visitor program with that answer; then the
/// parallelism program with the visitor program's answer. An error of the
/// solver ends the distribution with it, and the answer to the placement
/// program ends it with the entries it leaves unplaced, if any; the answer
/// to the parallelism program gives the placements, or the entries it
/// leaves unplaced.
pub open spec fn solved_in_order<F: Fn(&LpProblem, &Vec<bool>) -> Result<Vec<bool>, String>>(
    solve: F,
    run: LpRun,
    res: Outcome,
) -> bool {
    let n = run.entries@.len() as int;
    exists|p1: LpProblem, o1: Result<Vec<bool>, String>|
        placement_program(run, p1) && #[trigger] answers(solve, p1, Seq::empty(), o1) && match o1 {
            Err(e) => is_error(res, e),
            Ok(v1) => if unplaced(run, v1@, n).len() > 0 {
                reports_unplaced(run, v1@, res)
            } else {
                exists|p2: LpProblem, o2: Result<Vec<bool>, String>|
                    visitor_program(run, p2) && #[trigger] answers(solve, p2, v1@, o2) && match o2 {
                        Err(e) => is_error(res, e),
                        Ok(v2) => exists|p3: LpProblem, o3: Result<Vec<bool>, String>|
                            parallel_program(run, p3) && #[trigger] answers(solve, p3, v2@, o3) && ends_with(
                                run,
                                o3,
                                res,
                            ),
                    }
            },
        }
}

/// `res` comes from a run over copies of `entries`, with these rooms,
/// people and grid, whose programs were handed to `solve` in turn.
pub open spec fn lp_solved<F: Fn(&LpProblem, &Vec<bool>) -> Result<Vec<bool>, String>>(
    solve: F,
    entries: Seq<Entry>,
    rooms: Seq<FractivityRoom>,
    instructors: Seq<u128>,
    first_start: i32,
    num_starts: i32,
    res: Outcome,
) -> bool {
    exists|run: LpRun|
        #[trigger] solved_in_order(solve, run, res) && run.wf() && run.layout() && entries_alike(run.entries@, entries)
            && run.all_rooms@ == rooms && run.all_instructors@ == instructors && run.first_start == first_start
            && run.num_starts == num_starts
}

/// How many programs a run in this phase still hands out at most.
pub open spec fn phase_rank(p: Phase) -> nat {
    match p {
        Phase::Placement => 3,
        Phase::Visitors => 2,
        Phase::Parallel => 1,
        Phase::Finished => 0,
    }
}

/// A copy of a list of entries.
fn copy_entries(v: &Vec<Entry>) -> (res: Vec<Entry>)
    ensures
        entries_alike(res@, v@),
{
    let mut res: Vec<Entry> = Vec::new();
    let mut i: usize = 0;
    while i < v.len()
        invariant
            i <= v@.len(),
            res@.len() == i,
            forall|j: int| 0 <= j < i ==> same_entry(#[trigger] res@[j].0, v@[j].0) && res@[j].1 == v@[j].1,
        decreases v@.len() - i,
    {
        res.push((v[i].0.clone(), v[i].1));
        i = i + 1;
    }
    res
}

/// A copy of a list of rooms.
fn copy_rooms(v: &Vec<FractivityRoom>) -> (res: Vec<FractivityRoom>)
    ensures
        res@ == v@,
{
    let mut res: Vec<FractivityRoom> = Vec::new();
    let mut i: usize = 0;
    while i < v.len()
        invariant
            i <= v@.len(),
            res@ == v@.subrange(0, i as int),
        decreases v@.len() - i,
    {
        res.push(FractivityRoom { id: v[i].id, priority: v[i].priority });
        i = i + 1;
        assert(res@ =~= v@.subrange(0, i as int));
    }
    assert(v@.subrange(0, i as int) =~= v@);
    res
}

/// A copy of a solution.
fn copy_values(v: &Vec<bool>) -> (res: Vec<bool>)
    ensures
        res@ == v@,
{
    let mut res: Vec<bool> = Vec::new();
    let mut i: usize = 0;
    while i < v.len()
        invariant
            i <= v@.len(),
            res@ == v@.subrange(0, i as int),
        decreases v@.len() - i,
    {
        res.push(v[i]);
        i = i + 1;
        assert(res@ =~= v@.subrange(0, i as int));
    }
    assert(v@.subrange(0, i as int) =~= v@);
    res
}

/// Distributes the entries by the run's sequence of programs: each program
/// is handed to `solve` together with the solution of the program before
/// it (empty for the first), and the solver's answer is the set of
/// variables that took a positive value, or its error.
pub fn lp_distribution<F: Fn(&LpProblem, &Vec<bool>) -> Result<Vec<bool>, String>>(
    fractivity_entries: &Vec<Entry>,
    all_rooms: &Vec<FractivityRoom>,
    all_instructors: &Vec<u128>,
    first_start: i32,
    num_starts: i32,
    solve: F,
) -> (res: Outcome)
    requires
        run_fits(fractivity_entries@, all_rooms@, all_instructors@, first_start, num_starts),
        forall|p: &LpProblem, prev: &Vec<bool>| #[trigger] solve.requires((p, prev)),
    ensures
        lp_outcome(fractivity_entries@, all_rooms@, all_instructors@, first_start, num_starts, res),
        lp_solved(solve, fractivity_entries@, all_rooms@, all_instructors@, first_start, num_starts, res),
{
    let entries = copy_entries(fractivity_entries);
    proof {
        assert forall|a: int, s: int|
            0 <= a < entries@.len() && 0 <= s < super::variables::grid_len(num_starts) implies #[trigger] super::times_fit(
            entries@[a].0,
            super::grid_time(first_start, s),
        ) by {
            assert(same_entry(entries@[a].0, fractivity_entries@[a].0));
            assert(super::times_fit(fractivity_entries@[a].0, super::grid_time(first_start, s)));
        }
    }
    let (mut run, mut problem) = LpRun::new(
        entries,
        copy_rooms(all_rooms),
        super::copy_ids(all_instructors),
        first_start,
        num_starts,
    );
    let ghost run0 = run;
    let ghost n = run0.entries@.len() as int;
    let mut previous: Vec<bool> = Vec::new();
    let ghost mut p1: LpProblem = problem;
    let ghost mut o1: Result<Vec<bool>, String> = vstd::pervasive::arbitrary();
    let ghost mut p2: LpProblem = problem;
    let ghost mut o2: Result<Vec<bool>, String> = vstd::pervasive::arbitrary();
    assert(previous@ =~= Seq::<bool>::empty());
    loop
        invariant
            run.wf(),
            run.layout(),
            run.phase != Phase::Finished,
            same_data(run, run0),
            run0.wf(),
            run0.layout(),
            n == run0.entries@.len(),
            entries_alike(run0.entries@, fractivity_entries@),
            run0.all_rooms@ == all_rooms@,
            run0.all_instructors@ == all_instructors@,
            run0.first_start == first_start,
            run0.num_starts == num_starts,
            forall|p: &LpProblem, prev: &Vec<bool>| #[trigger] solve.requires((p, prev)),
            run.phase == Phase::Placement ==> placement_program(run0, problem) && previous@ == Seq::<bool>::empty(),
            run.phase != Phase::Placement ==> {
                &&& placement_program(run0, p1)
                &&& answers(solve, p1, Seq::empty(), o1)
                &&& o1 is Ok
                &&& unplaced(run0, o1->Ok_0@, n).len() == 0
            },
            run.phase == Phase::Visitors ==> visitor_program(run0, problem) && previous@ == o1->Ok_0@,
            run.phase == Phase::Parallel ==> {
                &&& visitor_program(run0, p2)
                &&& answers(solve, p2, o1->Ok_0@, o2)
                &&& o2 is Ok
                &&& parallel_program(run0, problem)
                &&& previous@ == o2->Ok_0@
            },
        decreases phase_rank(run.phase),
    {
        let outcome = solve(&problem, &previous);
        let ghost answered = answers(solve, problem, previous@, outcome);
        proof {
            assert(answers(solve, problem, previous@, outcome));
        }
        let kept = match &outcome {
            Ok(v) => copy_values(v),
            Err(_) => Vec::new(),
        };
        let ghost before = run;
        let ghost out = outcome;
        let ghost cur = problem;
        let ghost prev_vals = previous@;
        match run.step(outcome) {
            LpStep::Solve(next) => {
                proof {
                    assert(out is Ok);
                    assert(before.phase == Phase::Placement || before.phase == Phase::Visitors);
                    lemma_same_data_reads(before, run0, out->Ok_0@, n);
                    if before.phase == Phase::Placement {
                        p1 = cur;
                        o1 = out;
                    } else {
                        p2 = cur;
                        o2 = out;
                    }
                }
                problem = next;
                previous = kept;
            },
            LpStep::Done(r) => {
                let ghost rg = r;
                proof {
                    match out {
                        Ok(vals) => {
                            lemma_placed_unplaced(before, vals@, n);
                            lemma_same_data_reads(before, run0, vals@, n);
                            match rg {
                                Ok(Ok(list)) => {
                                    assert(list@ == placed(before, vals@, n));
                                },
                                Ok(Err(list)) => {
                                    assert(copies_of(list@, before.entries@, unplaced(before, vals@, n)));
                                },
                                Err(_) => {},
                            }
                        },
                        Err(_) => {},
                    }
                    assert(run_outcome(before, rg));
                    assert(before.entries@ == run0.entries@);
                    assert(before.wf() && before.layout());
                    // the order in which the programs were answered
                    if before.phase == Phase::Placement {
                        assert(ends_with(run0, out, rg) || reports_unplaced(run0, out->Ok_0@, rg));
                        assert(solved_in_order(solve, run0, rg));
                    } else if before.phase == Phase::Parallel {
                        assert(ends_with(run0, out, rg));
                        assert(answers(solve, cur, o2->Ok_0@, out));
                        assert(solved_in_order(solve, run0, rg));
                    } else {
                        assert(out is Err);
                        assert(answers(solve, cur, o1->Ok_0@, out));
                        assert(solved_in_order(solve, run0, rg));
                    }
                }
                return r;
            },
        }
    }
}

/// What the distribution of `entries` ends with, given what the run ends
/// with: the placements with copies of the entries in place of their
/// numbers, or the run's unplaced entries or error unchanged.
pub open spec fn collected(
    entries: Seq<Entry>,
    run_res: Outcome,
    res: Result<Result<Vec<(FractivityEntry, u128, i32)>, Vec<FractivityEntry>>, String>,
) -> bool {
    match run_res {
        Err(e) => res matches Err(e2) && e2@ == e@,
        Ok(Err(list)) => res matches Ok(Err(list2)) && list2@ == list@,
        Ok(Ok(v)) => res matches Ok(Ok(w)) && w@.len() == v@.len() && forall|i: int|
            0 <= i < v@.len() ==> #[trigger] same_entry(w@[i].0, entries[v@[i].0 as int].0) && w@[i].1 == v@[i].1
                && w@[i].2 == v@[i].2,
    }
}

/// The grid of a distribution of `entries` fits the machine's integers
/// (when every entry has an allowed room and start).
pub open spec fn grid_of_fits(entries: Seq<Entry>, all_rooms: Seq<FractivityRoom>) -> bool {
    let n = entries.len() as int;
    first_unplaceable(entries, n) is None ==> run_fits(
        entries,
        all_rooms,
        people(entries, n),
        earliest_start(entries, n) as i32,
        (slots_between(latest_start(entries, n) - earliest_start(entries, n)) + 1) as i32,
    )
}

/// Distributes the entries over the rooms: the first entry without an
/// allowed room or start is reported unplaced; otherwise the run over the
/// entries' people and the grid from the earliest allowed start, in steps
/// of 15 minutes up to the latest, gives the placements, with copies of the
/// entries in place of their numbers, or the entries it leaves unplaced, or
/// the solver's error.
pub fn distribute<F: Fn(&LpProblem, &Vec<bool>) -> Result<Vec<bool>, String>>(
    fractivity_entries: &Vec<Entry>,
    all_rooms: Vec<FractivityRoom>,
    solve: F,
) -> (res: Result<Result<Vec<(FractivityEntry, u128, i32)>, Vec<FractivityEntry>>, String>)
    requires
        span_fits(fractivity_entries@),
        grid_of_fits(fractivity_entries@, all_rooms@),
        forall|p: &LpProblem, prev: &Vec<bool>| #[trigger] solve.requires((p, prev)),
    ensures
        ({
            let n = fractivity_entries@.len() as int;
            match first_unplaceable(fractivity_entries@, n) {
                Some(i) => res matches Ok(Err(list)) && list@.len() == 1 && same_entry(list@[0], fractivity_entries@[i].0),
                None => exists|run_res: Outcome|
                    lp_outcome(
                        fractivity_entries@,
                        all_rooms@,
                        people(fractivity_entries@, n),
                        earliest_start(fractivity_entries@, n) as i32,
                        (slots_between(latest_start(fractivity_entries@, n) - earliest_start(fractivity_entries@, n))
                            + 1) as i32,
                        run_res,
                    ) && lp_solved(
                        solve,
                        fractivity_entries@,
                        all_rooms@,
                        people(fractivity_entries@, n),
                        earliest_start(fractivity_entries@, n) as i32,
                        (slots_between(latest_start(fractivity_entries@, n) - earliest_start(fractivity_entries@, n))
                            + 1) as i32,
                        run_res,
                    ) && #[trigger] collected(fractivity_entries@, run_res, res),
            }
        }),
{
    let plan = match plan_distribution(fractivity_entries) {
        Ok(plan) => plan,
        Err(unplaceable) => {
            return Ok(Err(unplaceable));
        },
    };
    let run_res = lp_distribution(
        fractivity_entries,
        &all_rooms,
        &plan.all_instructors,
        plan.first_start,
        plan.num_starts,
        solve,
    );
    proof {
        lemma_outcome_indices(
            fractivity_entries@,
            all_rooms@,
            plan.all_instructors@,
            plan.first_start,
            plan.num_starts,
            run_res,
        );
    }
    collect_outcome(fractivity_entries, run_res)
}

/// The placements of a run's outcome name entries of the run.
proof fn lemma_outcome_indices(
    entries: Seq<Entry>,
    rooms: Seq<FractivityRoom>,
    instructors: Seq<u128>,
    first_start: i32,
    num_starts: i32,
    res: Outcome,
)
    requires
        lp_outcome(entries, rooms, instructors, first_start, num_starts, res),
    ensures
        res matches Ok(Ok(v)) ==> forall|i: int| 0 <= i < v@.len() ==> (#[trigger] v@[i]).0 < entries.len(),
{
    let run = choose|run: LpRun|
        #[trigger] run_outcome(run, res) && run.wf() && run.layout() && entries_alike(run.entries@, entries)
            && run.all_rooms@ == rooms && run.all_instructors@ == instructors && run.first_start == first_start
            && run.num_starts == num_starts;
}

/// The outcome of a run with copies of the entries in place of their
/// numbers.
fn collect_outcome(fractivity_entries: &Vec<Entry>, run_res: Outcome) -> (res: Result<
    Result<Vec<(FractivityEntry, u128, i32)>, Vec<FractivityEntry>>,
    String,
>)
    requires
        run_res matches Ok(Ok(v)) ==> forall|i: int| 0 <= i < v@.len() ==> (#[trigger] v@[i]).0 < fractivity_entries@.len(),
    ensures
        collected(fractivity_entries@, run_res, res),
{
    match run_res {
        Err(e) => Err(e),
        Ok(Err(list)) => Ok(Err(list)),
        Ok(Ok(placements)) => Ok(Ok(collect_assignments(fractivity_entries, &placements))),
    }
}

} // verus!
