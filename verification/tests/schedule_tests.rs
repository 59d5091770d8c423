use expbench::plan::{generate, mark_skips, Run, RunKind};
use expbench::schedule::Scheduler;
use expbench::suite::{Runner, RunnerKind, Suite, Task};

fn two_task_suite() -> Suite {
    Suite {
        time_limit_learn: None,
        time_limit_solve: None,
        memory_limit_learn: None,
        memory_limit_solve: None,
        runners: vec![
            Runner {
                name: "L".to_owned(),
                path: "/bin/learn".to_owned(),
                kind: RunnerKind::Learn,
                args: vec![],
                depends: None,
                attribute: None,
            },
            Runner {
                name: "S".to_owned(),
                path: "/bin/solve".to_owned(),
                kind: RunnerKind::Solve,
                args: vec![],
                depends: Some("L".to_owned()),
                attribute: None,
            },
        ],
        attributes: vec![],
        tasks: (0..2)
            .map(|t| Task {
                name: format!("t{}", t),
                domain: format!("d{}", t),
                learn: vec!["a.pddl".to_owned()],
                solve: vec!["b.pddl".to_owned()],
            })
            .collect(),
    }
}

fn plan_runs() -> Vec<Run> {
    let s = two_task_suite();
    assert_eq!(s.validate(), Ok(()));
    generate(s, "/w").runs
}

#[test]
fn single_worker_executes_in_emission_order() {
    let runs = plan_runs();
    let mut sched = Scheduler::new(&runs);
    let mut order = vec![];
    while let Some(i) = sched.claim_next() {
        order.push(i);
        sched.complete(i);
    }
    assert_eq!(order, vec![0, 1, 2, 3]);
    assert!(!sched.has_unprocessed());
}

#[test]
fn solver_waits_for_its_learner() {
    // four workers grab everything runnable at once: only the two learners
    // come out; each solver becomes runnable only after its own learner
    // completes
    let runs = plan_runs();
    assert_eq!(runs[2].kind, RunKind::Solver { problem_index: 0, depends: Some(0) });
    assert_eq!(runs[3].kind, RunKind::Solver { problem_index: 0, depends: Some(1) });
    let mut sched = Scheduler::new(&runs);
    let a = sched.claim_next();
    let b = sched.claim_next();
    assert_eq!(a, Some(0));
    assert_eq!(b, Some(1));
    // both learners are in flight: no solver may start yet
    assert_eq!(sched.claim_next(), None);
    assert!(sched.has_unprocessed());
    // completing the second task's learner unblocks exactly its solver
    sched.complete(1);
    assert_eq!(sched.claim_next(), Some(3));
    assert_eq!(sched.claim_next(), None);
    sched.complete(0);
    assert_eq!(sched.claim_next(), Some(2));
    sched.complete(2);
    sched.complete(3);
    assert!(!sched.has_unprocessed());
    assert_eq!(sched.claim_next(), None);
}

#[test]
fn skipped_runs_are_never_claimed() {
    let s = two_task_suite();
    let mut inst = generate(s, "/w");
    let present = vec![true; inst.runs.len()];
    mark_skips(&mut inst, &present, false, false);
    let mut sched = Scheduler::new(&inst.runs);
    assert!(!sched.has_unprocessed());
    assert_eq!(sched.claim_next(), None);
}

#[test]
fn each_run_claimed_exactly_once() {
    let runs = plan_runs();
    let mut sched = Scheduler::new(&runs);
    let mut seen = vec![0u32; runs.len()];
    loop {
        match sched.claim_next() {
            Some(i) => {
                seen[i] += 1;
                sched.complete(i);
            },
            None => {
                if !sched.has_unprocessed() {
                    break;
                }
            },
        }
    }
    assert!(seen.iter().all(|&c| c == 1));
}
