use chrono::NaiveDate;
use fraktivitaeten::lp::model::{Coefficient, Relation, VarKind};
use fraktivitaeten::lp::plan::rooms_of;
use fraktivitaeten::lp::run::LpStep;
use fraktivitaeten::lp::slot_run::{SlotPhase, SlotRun};
use fraktivitaeten::lp::slot_variables::{create_slot_variables, create_slot_visitor_variables, SlotGoal};
use fraktivitaeten::lp::{FractivityEntry, FractivityRoom};

fn rooms(priorities: &[i32]) -> Vec<FractivityRoom> {
    priorities
        .iter()
        .enumerate()
        .map(|(i, p)| FractivityRoom { id: i as u128, priority: *p })
        .collect()
}

fn entry(id: u128, instructors: Vec<u128>, visitors: Vec<u128>, allowed_rooms: Vec<u128>, allowed_starts: Vec<i32>, preparation_time: i32) -> FractivityEntry {
    FractivityEntry {
        id,
        topic: format!("topic {}", id),
        instructor_extension_uuids: instructors,
        visitor_extension_uuids: visitors,
        duration: 30,
        allowed_rooms,
        allowed_starts,
        preparation_time,
        follow_up_time: 0,
        start_day: NaiveDate::from_epoch_days(0).unwrap(),
    }
}

fn three_entries() -> Vec<(FractivityEntry, Option<(u128, i32)>)> {
    vec![
        (entry(0, vec![0], Vec::new(), vec![0], vec![0], 0), None),
        (entry(1, vec![1], Vec::new(), vec![0], vec![0, 15, 30, 45], 5), None),
        (entry(2, vec![0], Vec::new(), vec![0, 1], vec![0, 15, 30, 45], 5), None),
    ]
}

fn solution(num_vars: usize, set: &[usize]) -> Vec<bool> {
    let mut v = vec![false; num_vars];
    for x in set {
        v[*x] = true;
    }
    v
}

#[test]
fn slot_variables_for_distribution_and_search() {
    let entries = vec![
        (entry(0, vec![0], Vec::new(), vec![0, 2], vec![0, 30], 0), None),
        (entry(1, vec![1], Vec::new(), vec![0], vec![0], 0), Some((3, 15))),
    ];
    let all_rooms = rooms(&[4, 5, 6, 7]);
    let mut vars = Vec::new();
    let mut objective = Vec::new();
    let x = create_slot_variables(&entries, &all_rooms, 0, 3, SlotGoal::Distribution, 9, &mut vars, &mut objective);
    assert_eq!(x[0], vec![vec![Some(0), None, Some(1), None], vec![None; 4], vec![Some(2), None, Some(3), None]]);
    assert_eq!(x[1], vec![vec![None; 4], vec![None, None, None, Some(4)], vec![None; 4]]);
    assert_eq!(vars, vec![VarKind::BinaryFrom(false); 4].into_iter().chain([VarKind::One]).collect::<Vec<_>>());
    assert_eq!(
        objective,
        vec![
            (0, Coefficient { num: 4, den: 9 }),
            (1, Coefficient { num: 6, den: 9 }),
            (2, Coefficient { num: 4, den: 9 }),
            (3, Coefficient { num: 6, den: 9 }),
        ]
    );
    let mut vars2 = vec![VarKind::Binary];
    let mut objective2 = Vec::new();
    let y = create_slot_variables(&entries, &all_rooms, 0, 3, SlotGoal::Placeable, 0, &mut vars2, &mut objective2);
    assert_eq!(y[1][1][3], Some(5));
    assert_eq!(vars2[5], VarKind::BinaryFrom(true));
    assert_eq!(vars2[1], VarKind::BinaryFrom(false));
    assert_eq!(objective2[4], (5, Coefficient { num: 2, den: 1 }));
    assert_eq!(objective2[0], (1, Coefficient { num: 1, den: 1 }));
}

#[test]
fn slot_visitor_variables_follow_visitors_and_starts() {
    let entries = vec![
        (entry(0, vec![0], vec![1], vec![0], vec![15], 0), None),
        (entry(1, vec![1], vec![0, 1], vec![0], vec![0, 15], 0), None),
    ];
    let mut vars = vec![VarKind::One; 3];
    let mut objective = Vec::new();
    let v = create_slot_visitor_variables(&entries, &vec![0, 1], 0, 2, &mut vars, &mut objective);
    assert_eq!(v[0], vec![vec![None, None], vec![None, Some(3)]]);
    assert_eq!(v[1], vec![vec![Some(4), Some(5)], vec![Some(6), Some(7)]]);
    assert_eq!(vars.len(), 8);
    assert_eq!(vars[7], VarKind::BinaryFrom(false));
    assert_eq!(objective.len(), 5);
    assert_eq!(objective[0], (3, Coefficient { num: 1, den: 1 }));
}

#[test]
fn slot_run_distribution_program() {
    let (run, problem) = SlotRun::new(three_entries(), rooms(&[0, 0, 0, 0]), vec![0, 1], 0, 4);
    assert_eq!(run.phase, SlotPhase::Distribution);
    assert_eq!(problem.vars.len(), 25);
    assert_eq!(problem.vars[12], VarKind::BinaryFrom(false));
    assert_eq!(problem.vars[13], VarKind::BinaryFrom(true));
    assert!(problem.mip_gap && !problem.time_limit && problem.keep_previous.is_none());
    assert_eq!(problem.objective.len(), 25);
    // the parallelism weight of b[0][2]: -2 / (2 * 3 * 2 * 3)
    assert_eq!(problem.objective[15], (15, Coefficient { num: -2, den: 36 }));
    assert_eq!(problem.constraints.len(), 29);
    assert_eq!(problem.constraints[0].relation, Relation::Exactly);
    assert_eq!(problem.constraints[0].lhs.terms, vec![(0, 1)]);
    // the last one: busy at 45 <= 3 b[3][2] + 1
    let last = &problem.constraints[28];
    assert_eq!(last.rhs.terms, vec![(24, 3)]);
    assert_eq!(last.rhs.constant, 1);
}

#[test]
fn slot_run_reads_placements() {
    let (mut run, _) = SlotRun::new(three_entries(), rooms(&[0, 0, 0, 0]), vec![0, 1], 0, 4);
    let vals = solution(25, &[0, 4, 12]);
    match run.step(Ok(vals)) {
        LpStep::Done(Ok(Ok(p))) => assert_eq!(p, vec![(0, 0, 0), (1, 0, 45), (2, 1, 45)]),
        _ => panic!("expected placements"),
    }
    assert_eq!(run.phase, SlotPhase::Finished);
}

#[test]
fn slot_run_names_missing_topics() {
    let (mut run, _) = SlotRun::new(three_entries(), rooms(&[0, 0, 0, 0]), vec![0, 1], 0, 4);
    let vals = solution(25, &[4]);
    match run.step(Ok(vals)) {
        LpStep::Done(Err(e)) => assert_eq!(e, "topic 0topic 2"),
        _ => panic!("expected the missing topics"),
    }
}

#[test]
fn slot_run_searches_unplaceable_entries() {
    let (mut run, _) = SlotRun::new(three_entries(), rooms(&[0, 0, 0, 0]), vec![0, 1], 0, 4);
    let search = match run.step(Err("infeasible".to_string())) {
        LpStep::Solve(p) => p,
        _ => panic!("expected the search program"),
    };
    assert_eq!(run.phase, SlotPhase::Placeable);
    assert_eq!(search.vars, vec![VarKind::BinaryFrom(false); 13]);
    assert_eq!(search.objective.len(), 13);
    assert!(!search.mip_gap && !search.time_limit);
    assert_eq!(search.constraints.len(), 17);
    assert_eq!(search.constraints[0].relation, Relation::AtMost);
    match run.step(Ok(solution(13, &[0, 5]))) {
        LpStep::Done(Ok(Err(list))) => {
            let ids: Vec<u128> = list.iter().map(|e| e.id).collect();
            assert_eq!(ids, vec![1]);
        }
        _ => panic!("expected unplaceable entries"),
    }
}

#[test]
fn slot_run_search_failure() {
    let (mut run, _) = SlotRun::new(three_entries(), rooms(&[0, 0, 0, 0]), vec![0, 1], 0, 4);
    assert!(matches!(run.step(Err("infeasible".to_string())), LpStep::Solve(_)));
    match run.step(Err("no".to_string())) {
        LpStep::Done(Err(e)) => assert_eq!(e, "Could not solve undistributable LP"),
        _ => panic!("expected the error"),
    }
}

#[test]
fn slot_run_can_start_checks_sizes() {
    assert!(SlotRun::can_start(&three_entries(), &rooms(&[0, 0, 0, 0]), &vec![0, 1], 0, 4));
    let mut e = three_entries();
    e[2].0.preparation_time = i32::MIN;
    assert!(!SlotRun::can_start(&e, &rooms(&[0, 0, 0, 0]), &vec![0, 1], 0, 4));
}

#[test]
fn rooms_of_uses_last_description() {
    let entries = three_entries();
    let known = vec![
        FractivityRoom { id: 1, priority: 5 },
        FractivityRoom { id: 0, priority: 1 },
        FractivityRoom { id: 1, priority: 7 },
    ];
    let found = rooms_of(&entries, &known).unwrap();
    assert_eq!(found.len(), 2);
    assert_eq!((found[0].id, found[0].priority), (0, 1));
    assert_eq!((found[1].id, found[1].priority), (1, 7));
    let partial = vec![FractivityRoom { id: 0, priority: 1 }];
    assert_eq!(rooms_of(&entries, &partial).unwrap_err(), 1);
}
