use chrono::NaiveDate;
use fraktivitaeten::lp::constraints::add_constraints;
use fraktivitaeten::lp::drive::{distribute, lp_distribution};
use fraktivitaeten::lp::model::{Coefficient, LinConstraint, LinExpr, LpProblem, Relation, VarKind, VarPool};
use fraktivitaeten::lp::plan::{collect_assignments, plan_distribution, starts_span_fits};
use fraktivitaeten::lp::run::{LpRun, LpStep, Phase};
use fraktivitaeten::lp::variables::{
    create_fractivity_pair_variables, create_fractivity_variables, create_parallel_variables,
    create_visitor_variables,
};
use fraktivitaeten::lp::{occupies, overlap, FractivityEntry, FractivityRoom};

fn rooms() -> Vec<FractivityRoom> {
    (0..4).map(|i| FractivityRoom { id: i, priority: 0 }).collect()
}

fn entry(
    id: u128,
    instructors: Vec<u128>,
    visitors: Vec<u128>,
    allowed_rooms: Vec<u128>,
    allowed_starts: Vec<i32>,
    preparation_time: i32,
) -> FractivityEntry {
    FractivityEntry {
        id,
        topic: format!("topic {}", id),
        instructor_extension_uuids: instructors,
        visitor_extension_uuids: visitors,
        duration: 30,
        allowed_rooms,
        allowed_starts,
        preparation_time,
        follow_up_time: 0,
        start_day: NaiveDate::from_epoch_days(0).unwrap(),
    }
}

fn undistributed_entries() -> Vec<(FractivityEntry, Option<(u128, i32)>)> {
    vec![
        (entry(0, vec![0], Vec::new(), vec![0], vec![0], 0), None),
        (entry(1, vec![1], Vec::new(), vec![0], vec![0, 15, 30, 45], 5), None),
        (entry(2, vec![0], Vec::new(), vec![0, 1], vec![0, 15, 30, 45], 5), None),
    ]
}

fn undistributable_entries() -> Vec<(FractivityEntry, Option<(u128, i32)>)> {
    vec![
        (entry(0, vec![0], Vec::new(), vec![0], vec![0], 0), None),
        (entry(1, vec![1], Vec::new(), vec![0], vec![0, 15, 30, 45], 5), None),
        (entry(2, vec![0, 1], Vec::new(), vec![1], vec![0, 15, 30, 45], 5), None),
        (entry(3, vec![2], Vec::new(), vec![1], vec![0, 15, 30, 45], 5), None),
    ]
}

/// Values of a solution: the listed variables set.
fn solution(num_vars: usize, set: &[usize]) -> Vec<bool> {
    let mut v = vec![false; num_vars];
    for x in set {
        v[*x] = true;
    }
    v
}

#[test]
fn occupies_covers_set_up_to_clear_up() {
    let mut e = entry(0, vec![0], Vec::new(), vec![0], vec![0], 5);
    e.follow_up_time = 10;
    assert!(!occupies(&e, 100, 94));
    assert!(occupies(&e, 100, 95));
    assert!(occupies(&e, 100, 139));
    assert!(!occupies(&e, 100, 140));
}

#[test]
fn overlap_includes_set_up_times() {
    let a = entry(0, vec![0], Vec::new(), vec![0], vec![0], 0);
    let b = entry(1, vec![1], Vec::new(), vec![0], vec![0], 5);
    assert!(overlap(&a, 0, &b, 0));
    assert!(overlap(&a, 0, &b, 30));
    assert!(!overlap(&a, 0, &b, 35));
    assert!(overlap(&b, 30, &a, 0));
    assert!(!overlap(&b, 35, &a, 0));
}

#[test]
fn plan_distribution_gathers_people_and_grid() {
    let entries = undistributable_entries();
    assert!(starts_span_fits(&entries));
    let plan = plan_distribution(&entries).unwrap();
    assert_eq!(plan.all_instructors, vec![0, 1, 2]);
    assert_eq!(plan.first_start, 0);
    assert_eq!(plan.num_starts, 4);
}

#[test]
fn plan_distribution_counts_visitors_once() {
    let entries = vec![
        (entry(0, vec![5], vec![7, 5], vec![0], vec![30, 60], 0), None),
        (entry(1, vec![7], vec![9], vec![0], vec![15], 0), None),
    ];
    let plan = plan_distribution(&entries).unwrap();
    assert_eq!(plan.all_instructors, vec![5, 7, 9]);
    assert_eq!(plan.first_start, 15);
    assert_eq!(plan.num_starts, 4);
}

#[test]
fn plan_distribution_rejects_first_unplaceable_entry() {
    let mut entries = undistributed_entries();
    entries[1].0.allowed_rooms.clear();
    entries[2].0.allowed_starts.clear();
    let err = plan_distribution(&entries).unwrap_err();
    assert_eq!(err.len(), 1);
    assert_eq!(err[0].id, 1);
    assert!(err[0].allowed_rooms.is_empty());
}

#[test]
fn plan_distribution_with_decreasing_starts() {
    let entries = vec![(entry(0, vec![0], Vec::new(), vec![0], vec![100, 50], 0), None)];
    let plan = plan_distribution(&entries).unwrap();
    assert_eq!(plan.first_start, 100);
    // (50 - 100) / 15 rounds toward zero
    assert_eq!(plan.num_starts, -2);
}

#[test]
fn starts_span_fits_cases() {
    assert!(!starts_span_fits(&Vec::new()));
    let wide = vec![
        (entry(0, vec![0], Vec::new(), vec![0], vec![i32::MIN], 0), None),
        (entry(1, vec![0], Vec::new(), vec![0], vec![i32::MAX], 0), None),
    ];
    assert!(!starts_span_fits(&wide));
    let mut bad = wide.clone();
    bad[0].0.allowed_rooms.clear();
    assert!(starts_span_fits(&bad));
    assert!(starts_span_fits(&undistributed_entries()));
}

#[test]
fn fractivity_variables_follow_allowed_and_fixed_choices() {
    let entries = vec![
        (entry(0, vec![0], Vec::new(), vec![0, 2], vec![0, 30], 0), None),
        (entry(1, vec![1], Vec::new(), vec![0], vec![0], 0), Some((3, 15))),
        (entry(2, vec![0], Vec::new(), vec![1], vec![45], 0), None),
    ];
    let mut pool = VarPool::new();
    let mut objective: Vec<(usize, Coefficient)> = Vec::new();
    let (starts, rooms_vars) =
        create_fractivity_variables(&entries, &rooms(), &vec![0, 1], 0, 4, &mut pool, &mut objective);
    assert_eq!(starts[0], vec![Some(0), None, Some(1), None]);
    assert_eq!(rooms_vars[0], vec![Some(2), None, Some(3), None]);
    assert_eq!(starts[1], vec![None, Some(4), None, None]);
    assert_eq!(rooms_vars[1], vec![None, None, None, Some(5)]);
    assert_eq!(starts[2], vec![None, None, None, Some(6)]);
    assert_eq!(rooms_vars[2], vec![None, Some(7), None, None]);
    assert_eq!(pool.count, 8);
    let free = Coefficient { num: 6, den: 1 };
    let fixed = Coefficient { num: 18, den: 1 };
    assert_eq!(
        objective,
        vec![(0, free), (1, free), (2, free), (3, free), (4, fixed), (5, fixed), (6, free), (7, free)]
    );
}

#[test]
fn pair_parallel_and_visitor_variables() {
    let entries = vec![
        (entry(0, vec![0], vec![1], vec![0], vec![0], 0), None),
        (entry(1, vec![1], Vec::new(), vec![0], vec![0], 0), None),
        (entry(2, vec![0], vec![1, 0], vec![0], vec![0], 0), None),
    ];
    let mut pool = VarPool { count: 10 };
    let (io, ro, ao) = create_fractivity_pair_variables(&entries, &mut pool);
    assert_eq!(io, vec![10, 13, 16]);
    assert_eq!(ro, vec![11, 14, 17]);
    assert_eq!(ao, vec![12, 15, 18]);
    let mut parallel: Vec<(usize, Coefficient)> = Vec::new();
    let two_rooms = vec![FractivityRoom { id: 0, priority: 0 }, FractivityRoom { id: 1, priority: 0 }];
    let b = create_parallel_variables(&entries, &two_rooms, 2, &mut pool, &mut parallel);
    assert_eq!(b, vec![vec![19, 20], vec![21, 22]]);
    assert_eq!(parallel[1], (20, Coefficient { num: -2, den: 4 }));
    assert_eq!(parallel[2], (21, Coefficient { num: -1, den: 4 }));
    let mut visitors: Vec<(usize, Coefficient)> = Vec::new();
    let v = create_visitor_variables(&entries, &vec![0, 1], &mut pool, &mut visitors);
    assert_eq!(v, vec![vec![None, Some(23)], vec![None, None], vec![Some(24), Some(25)]]);
    let one = Coefficient { num: 1, den: 1 };
    assert_eq!(visitors, vec![(23, one), (24, one), (25, one)]);
    assert_eq!(pool.count, 26);
}

#[test]
fn add_constraints_counts_and_shapes() {
    let entries = undistributed_entries();
    let (run, first) = LpRun::new(entries.clone(), rooms(), vec![0, 1], 0, 4);
    assert_eq!(run.num_vars, 34);
    assert_eq!(first.constraints.len(), 33);
    let c0 = &first.constraints[0];
    assert_eq!(c0.lhs.terms, vec![(0, 1)]);
    assert_eq!(c0.relation, Relation::AtMost);
    assert_eq!(c0.rhs.constant, 1);
    let mut strict = LpProblem {
        vars: vec![VarKind::Binary; run.num_vars],
        objective: Vec::new(),
        constraints: Vec::new(),
        mip_gap: false,
        time_limit: false,
        keep_previous: None,
    };
    add_constraints(
        &run.entries,
        &run.all_rooms,
        &run.all_instructors,
        0,
        4,
        &mut strict,
        &run.starts,
        &run.rooms,
        &run.instructor_overlap,
        &run.room_overlap,
        &run.any_overlap,
        &run.b,
        &run.v,
        false,
    );
    assert_eq!(strict.constraints.len(), 45);
    assert_eq!(strict.constraints[0].relation, Relation::Exactly);
    // `2 any >= room + instructor` of the first pair
    let any = &strict.constraints[2];
    assert_eq!(any.lhs.terms, vec![(15, 2)]);
    assert_eq!(any.relation, Relation::AtLeast);
    assert_eq!(any.rhs.terms, vec![(14, 1), (13, 1)]);
    // the last parallelism constraint: busy at 45 <= 3 b[3][2] + 2
    let last = &strict.constraints[44];
    assert_eq!(last.rhs.terms, vec![(33, 3)]);
    assert_eq!(last.rhs.constant, 2);
    assert_eq!(last.lhs.terms, vec![(4, 1), (5, 1), (9, 1), (10, 1)]);
}

#[test]
fn run_distributes_the_undistributed_entries() {
    let entries = undistributed_entries();
    let plan = plan_distribution(&entries).unwrap();
    assert_eq!(plan.all_instructors, vec![0, 1]);
    assert!(LpRun::can_start(&entries, &rooms(), &plan.all_instructors, plan.first_start, plan.num_starts));
    let (mut run, first) =
        LpRun::new(entries.clone(), rooms(), plan.all_instructors, plan.first_start, plan.num_starts);
    assert_eq!(run.phase, Phase::Placement);
    assert_eq!(first.objective.len(), 13);
    assert!(!first.mip_gap && !first.time_limit && first.keep_previous.is_none());
    assert_eq!(first.vars, vec![VarKind::Binary; 34]);
    // entry 0 at 0 in room 0, entry 1 at 45 in room 0, entry 2 at 45 in room 1
    let vals = solution(run.num_vars, &[0, 1, 5, 6, 10, 12]);
    match run.step(Ok(vals.clone())) {
        LpStep::Solve(p) => {
            assert!(p.mip_gap && !p.time_limit);
            assert!(p.objective.is_empty());
            assert_eq!(p.constraints.len(), 45);
        }
        LpStep::Done(_) => panic!("expected the visitor program"),
    }
    assert_eq!(run.phase, Phase::Visitors);
    match run.step(Ok(vals.clone())) {
        LpStep::Solve(p) => {
            assert!(p.mip_gap && p.time_limit);
            assert_eq!(p.objective.len(), 12);
            assert_eq!(p.constraints.len(), 45);
            let keep = p.keep_previous.unwrap();
            assert!(keep.terms.is_empty());
        }
        LpStep::Done(_) => panic!("expected the parallelism program"),
    }
    assert_eq!(run.phase, Phase::Parallel);
    let placements = match run.step(Ok(vals)) {
        LpStep::Done(Ok(Ok(p))) => p,
        _ => panic!("expected placements"),
    };
    assert_eq!(run.phase, Phase::Finished);
    assert_eq!(placements, vec![(0, 0, 0), (1, 0, 45), (2, 1, 45)]);
    let full = collect_assignments(&entries, &placements);
    assert_eq!(full.len(), 3);
    for (i, (e, room, start)) in full.iter().enumerate() {
        assert_eq!(e.id, i as u128);
        assert_eq!((*room, *start), (placements[i].1, placements[i].2));
    }
}

#[test]
fn run_reports_entries_the_first_program_leaves_out() {
    let entries = undistributed_entries();
    let (mut run, _) = LpRun::new(entries, rooms(), vec![0, 1], 0, 4);
    // entry 2 gets a start but no room
    let vals = solution(run.num_vars, &[0, 1, 5, 6, 10]);
    match run.step(Ok(vals)) {
        LpStep::Done(Ok(Err(list))) => {
            assert_eq!(list.len(), 1);
            assert_eq!(list[0].id, 2);
        }
        _ => panic!("expected the unplaced entry"),
    }
    assert_eq!(run.phase, Phase::Finished);
}

#[test]
fn run_takes_first_set_variables() {
    let entries = undistributed_entries();
    let (mut run, _) = LpRun::new(entries, rooms(), vec![0, 1], 0, 4);
    let all: Vec<usize> = (0..13).collect();
    let vals = solution(run.num_vars, &all);
    assert!(matches!(run.step(Ok(vals.clone())), LpStep::Solve(_)));
    assert!(matches!(run.step(Ok(vals.clone())), LpStep::Solve(_)));
    match run.step(Ok(vals)) {
        LpStep::Done(Ok(Ok(p))) => assert_eq!(p, vec![(0, 0, 0), (1, 0, 0), (2, 0, 0)]),
        _ => panic!("expected placements"),
    }
}

#[test]
fn run_ends_with_solver_error() {
    let (mut run, _) = LpRun::new(undistributed_entries(), rooms(), vec![0, 1], 0, 4);
    match run.step(Err("infeasible".to_string())) {
        LpStep::Done(Err(e)) => assert_eq!(e, "infeasible"),
        _ => panic!("expected the error"),
    }
    assert_eq!(run.phase, Phase::Finished);
}

#[test]
fn run_last_program_may_leave_entries_out() {
    let entries = undistributable_entries();
    let (mut run, _) = LpRun::new(entries, rooms(), vec![0, 1, 2], 0, 4);
    let everything = solution(run.num_vars, &(0..run.num_vars).collect::<Vec<usize>>());
    assert!(matches!(run.step(Ok(everything.clone())), LpStep::Solve(_)));
    assert!(matches!(run.step(Ok(everything)), LpStep::Solve(_)));
    match run.step(Ok(vec![false; run.num_vars])) {
        LpStep::Done(Ok(Err(list))) => {
            let ids: Vec<u128> = list.iter().map(|e| e.id).collect();
            assert_eq!(ids, vec![0, 1, 2, 3]);
        }
        _ => panic!("expected unplaced entries"),
    }
}

#[test]
fn can_start_rejects_overflowing_times() {
    let mut entries = undistributed_entries();
    assert!(LpRun::can_start(&entries, &rooms(), &vec![0, 1], 0, 4));
    entries[0].0.duration = i32::MAX;
    assert!(!LpRun::can_start(&entries, &rooms(), &vec![0, 1], 0, 4));
    assert!(!LpRun::can_start(&undistributed_entries(), &rooms(), &vec![0, 1], i32::MAX, 2));
}

/// The value of an expression when the listed variables are set.
fn eval(e: &LinExpr, vals: &[bool]) -> i128 {
    e.terms.iter().map(|(v, c)| if vals[*v] { *c } else { 0 }).sum::<i128>() + e.constant
}

fn holds(c: &LinConstraint, vals: &[bool]) -> bool {
    let (l, r) = (eval(&c.lhs, vals), eval(&c.rhs, vals));
    match c.relation {
        Relation::AtMost => l <= r,
        Relation::Exactly => l == r,
        Relation::AtLeast => l >= r,
    }
}

fn mentions(c: &LinConstraint, vars: &[usize]) -> bool {
    c.lhs.terms.iter().chain(c.rhs.terms.iter()).any(|(v, _)| vars.contains(v))
}

/// Whether some values of the overlap variables complete the placement
/// `vals` (parallelism variables all set) to a solution of `problem`. Each
/// constraint names the overlap variables of at most one pair, so the pairs
/// are completed one by one.
fn completes(problem: &LpProblem, run: &LpRun, vals: &[bool]) -> bool {
    let mut vals = vals.to_vec();
    for row in &run.b {
        for x in row {
            vals[*x] = true;
        }
    }
    let mut all_pair_vars = Vec::new();
    for q in 0..run.any_overlap.len() {
        let vars = [run.instructor_overlap[q], run.room_overlap[q], run.any_overlap[q]];
        all_pair_vars.extend_from_slice(&vars);
        let cs: Vec<&LinConstraint> = problem.constraints.iter().filter(|c| mentions(c, &vars)).collect();
        let found = (0..8u32).any(|m| {
            let mut w = vals.clone();
            for (k, x) in vars.iter().enumerate() {
                w[*x] = m & (1 << k) != 0;
            }
            cs.iter().all(|c| holds(c, &w))
        });
        if !found {
            return false;
        }
    }
    problem
        .constraints
        .iter()
        .filter(|c| !mentions(c, &all_pair_vars))
        .all(|c| holds(c, &vals))
}

/// Every placement that sets one start and one room variable of each
/// entry: the variables set, and for each entry its room and start.
fn placements(run: &LpRun) -> Vec<(Vec<usize>, Vec<(u128, i32)>)> {
    let mut out: Vec<(Vec<usize>, Vec<(u128, i32)>)> = vec![(Vec::new(), Vec::new())];
    for a in 0..run.entries.len() {
        let mut next = Vec::new();
        for (set, where_) in &out {
            for (s, sv) in run.starts[a].iter().enumerate() {
                for (r, rv) in run.rooms[a].iter().enumerate() {
                    if let (Some(x), Some(y)) = (sv, rv) {
                        let mut set2 = set.clone();
                        set2.push(*x);
                        set2.push(*y);
                        let mut where2 = where_.clone();
                        where2.push((run.all_rooms[r].id, run.first_start + 15 * s as i32));
                        next.push((set2, where2));
                    }
                }
            }
        }
        out = next;
    }
    out
}

/// The program in which every entry must be placed.
fn strict_program(run: &LpRun) -> LpProblem {
    let mut strict = LpProblem {
        vars: vec![VarKind::Binary; run.num_vars],
        objective: Vec::new(),
        constraints: Vec::new(),
        mip_gap: false,
        time_limit: false,
        keep_previous: None,
    };
    add_constraints(
        &run.entries,
        &run.all_rooms,
        &run.all_instructors,
        run.first_start,
        run.num_starts,
        &mut strict,
        &run.starts,
        &run.rooms,
        &run.instructor_overlap,
        &run.room_overlap,
        &run.any_overlap,
        &run.b,
        &run.v,
        false,
    );
    strict
}

#[test]
fn shared_instructor_sets_the_instructor_overlap() {
    let (run, first) = LpRun::new(undistributed_entries(), rooms(), vec![0, 1], 0, 4);
    // entries 0 and 2 share instructor 0: `io + 1 >= 1 + 1` for their pair
    let io = run.instructor_overlap[1];
    let forced: Vec<&LinConstraint> = first
        .constraints
        .iter()
        .filter(|c| c.lhs.terms == vec![(io, 1)] && c.lhs.constant == 1)
        .collect();
    assert_eq!(forced.len(), 1);
    assert_eq!(forced[0].relation, Relation::AtLeast);
    assert!(forced[0].rhs.terms.is_empty());
    assert_eq!(forced[0].rhs.constant, 2);
    // no other pair shares anyone
    for q in [0, 2] {
        let x = run.instructor_overlap[q];
        assert!(!first.constraints.iter().any(|c| c.lhs.terms == vec![(x, 1)]));
    }
}

#[test]
fn instructor_visiting_another_entry_counts_when_all_must_be_placed() {
    let entries = vec![
        (entry(0, vec![0], Vec::new(), vec![0], vec![0], 0), None),
        (entry(1, vec![1], vec![0], vec![1], vec![0], 0), None),
    ];
    let (run, first) = LpRun::new(entries, rooms(), vec![0, 1], 0, 1);
    let io = run.instructor_overlap[0];
    assert!(!first.constraints.iter().any(|c| c.lhs.terms == vec![(io, 1)]));
    let strict = strict_program(&run);
    let c: Vec<&LinConstraint> = strict.constraints.iter().filter(|c| c.lhs.terms == vec![(io, 1)]).collect();
    assert_eq!(c.len(), 1);
    let visit = run.v[1][0].unwrap();
    assert_eq!(c[0].rhs.terms, vec![(visit, 1)]);
    assert_eq!(c[0].rhs.constant, 1);
}

#[test]
fn entries_sharing_an_instructor_cannot_both_be_placed_at_once() {
    let together = vec![
        (entry(0, vec![7], Vec::new(), vec![0], vec![0], 0), None),
        (entry(1, vec![7], Vec::new(), vec![1], vec![0], 0), None),
    ];
    let (run, first) = LpRun::new(together, rooms(), vec![7], 0, 1);
    let n = run.num_vars;
    // every solution of the placement program places at most one of them
    let mut solutions = 0;
    for m in 0..(1u32 << n) {
        let vals: Vec<bool> = (0..n).map(|k| m & (1 << k) != 0).collect();
        if first.constraints.iter().all(|c| holds(c, &vals)) {
            solutions += 1;
            let placed = (0..2).filter(|a| vals[run.starts[*a][0].unwrap()] && vals[run.rooms[*a][*a].unwrap()]).count();
            assert!(placed <= 1);
        }
    }
    assert!(solutions > 0);
    // and no solution of the strict program exists
    let strict = strict_program(&run);
    assert!(!(0..(1u32 << n)).any(|m| {
        let vals: Vec<bool> = (0..n).map(|k| m & (1 << k) != 0).collect();
        strict.constraints.iter().all(|c| holds(c, &vals))
    }));
    // with different instructors both can be placed
    let apart = vec![
        (entry(0, vec![7], Vec::new(), vec![0], vec![0], 0), None),
        (entry(1, vec![8], Vec::new(), vec![1], vec![0], 0), None),
    ];
    let (run2, _) = LpRun::new(apart, rooms(), vec![7, 8], 0, 1);
    let strict2 = strict_program(&run2);
    let m = run2.num_vars;
    assert!((0..(1u32 << m)).any(|x| {
        let vals: Vec<bool> = (0..m).map(|k| x & (1 << k) != 0).collect();
        strict2.constraints.iter().all(|c| holds(c, &vals))
    }));
}

#[test]
fn undistributed_scenario_allows_only_the_expected_distribution() {
    let entries = undistributed_entries();
    let plan = plan_distribution(&entries).unwrap();
    let (run, _) = LpRun::new(entries, rooms(), plan.all_instructors, plan.first_start, plan.num_starts);
    let strict = strict_program(&run);
    let mut feasible = Vec::new();
    for (set, where_) in placements(&run) {
        let mut vals = vec![false; run.num_vars];
        for x in set {
            vals[x] = true;
        }
        if completes(&strict, &run, &vals) {
            feasible.push(where_);
        }
    }
    assert_eq!(feasible, vec![vec![(0, 0), (0, 45), (1, 45)]]);
}

#[test]
fn undistributable_scenario_has_no_complete_distribution() {
    let entries = undistributable_entries();
    let plan = plan_distribution(&entries).unwrap();
    let (run, _) = LpRun::new(entries, rooms(), plan.all_instructors, plan.first_start, plan.num_starts);
    let strict = strict_program(&run);
    let all = placements(&run);
    assert_eq!(all.len(), 64);
    for (set, _) in all {
        let mut vals = vec![false; run.num_vars];
        for x in set {
            vals[x] = true;
        }
        assert!(!completes(&strict, &run, &vals));
    }
}

#[test]
fn add_constraints_reads_no_visitor_or_parallel_tables_when_entries_may_stay_out() {
    let (run, first) = LpRun::new(undistributed_entries(), rooms(), vec![0, 1], 0, 4);
    let mut loose = LpProblem {
        vars: vec![VarKind::Binary; run.num_vars],
        objective: Vec::new(),
        constraints: Vec::new(),
        mip_gap: false,
        time_limit: false,
        keep_previous: None,
    };
    add_constraints(
        &run.entries,
        &run.all_rooms,
        &run.all_instructors,
        0,
        4,
        &mut loose,
        &run.starts,
        &run.rooms,
        &run.instructor_overlap,
        &run.room_overlap,
        &run.any_overlap,
        &Vec::new(),
        &Vec::new(),
        true,
    );
    assert_eq!(loose.constraints.len(), first.constraints.len());
    for (c, d) in loose.constraints.iter().zip(first.constraints.iter()) {
        assert_eq!(c.lhs.terms, d.lhs.terms);
        assert_eq!(c.lhs.constant, d.lhs.constant);
        assert_eq!(c.relation, d.relation);
        assert_eq!(c.rhs.terms, d.rhs.terms);
        assert_eq!(c.rhs.constant, d.rhs.constant);
    }
}

#[test]
fn lp_distribution_hands_each_program_to_the_solver() {
    let entries = undistributed_entries();
    let calls = std::cell::Cell::new(0);
    // entry 0 at 0 in room 0, entry 1 at 45 in room 0, entry 2 at 45 in room 1
    let answer = solution(34, &[0, 1, 5, 6, 10, 12]);
    let res = lp_distribution(&entries, &rooms(), &vec![0, 1], 0, 4, |p: &LpProblem, prev: &Vec<bool>| {
        calls.set(calls.get() + 1);
        assert_eq!(p.vars.len(), 34);
        if calls.get() == 1 {
            assert!(prev.is_empty());
        } else {
            assert_eq!(prev, &answer);
        }
        Ok(answer.clone())
    });
    assert_eq!(calls.get(), 3);
    assert_eq!(res, Ok(Ok(vec![(0, 0, 0), (1, 0, 45), (2, 1, 45)])));
}

#[test]
fn lp_distribution_passes_on_the_solver_error() {
    let res = lp_distribution(&undistributed_entries(), &rooms(), &vec![0, 1], 0, 4, |_: &LpProblem, _: &Vec<bool>| {
        Err("infeasible".to_string())
    });
    assert_eq!(res, Err("infeasible".to_string()));
}

#[test]
fn distribute_maps_the_run_back_to_entries() {
    let entries = undistributed_entries();
    let answer = solution(34, &[0, 1, 5, 6, 10, 12]);
    let res = distribute(&entries, rooms(), |_: &LpProblem, _: &Vec<bool>| Ok(answer.clone())).unwrap().unwrap();
    assert_eq!(res.len(), 3);
    assert_eq!(res[0], (entries[0].0.clone(), 0, 0));
    assert_eq!(res[1], (entries[1].0.clone(), 0, 45));
    assert_eq!(res[2], (entries[2].0.clone(), 1, 45));
    // the first program leaving entry 2 out reports it
    let partial = solution(34, &[0, 1, 5, 6]);
    let left = distribute(&entries, rooms(), |_: &LpProblem, _: &Vec<bool>| Ok(partial.clone())).unwrap().unwrap_err();
    assert_eq!(left, vec![entries[2].0.clone()]);
    // an entry without allowed starts is reported before any program
    let mut bad = entries.clone();
    bad[1].0.allowed_starts.clear();
    let none = distribute(&bad, rooms(), |_: &LpProblem, _: &Vec<bool>| -> Result<Vec<bool>, String> {
        panic!("no program expected")
    });
    assert_eq!(none, Ok(Err(vec![bad[1].0.clone()])));
}
