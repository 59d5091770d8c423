use expbench::plan::{generate, mark_skips, RunKind};
use expbench::suite::{Runner, RunnerKind, Suite, SuiteError, Task};

fn runner(name: &str, kind: RunnerKind, path: &str, args: &[&str], depends: Option<&str>) -> Runner {
    Runner {
        name: name.to_owned(),
        path: path.to_owned(),
        kind,
        args: args.iter().map(|a| (*a).to_owned()).collect(),
        depends: depends.map(|d| d.to_owned()),
        attribute: None,
    }
}

fn small_suite() -> Suite {
    Suite {
        time_limit_learn: Some(5),
        time_limit_solve: Some(5),
        memory_limit_learn: Some(128),
        memory_limit_solve: Some(128),
        runners: vec![
            runner("L", RunnerKind::Learn, "/bin/learn", &["--l"], None),
            runner("S", RunnerKind::Solve, "/bin/solve", &["--s"], Some("L")),
        ],
        attributes: vec![],
        tasks: vec![Task {
            name: "gripper".to_owned(),
            domain: "/dom/D.pddl".to_owned(),
            learn: vec!["/p/l1.pddl".to_owned()],
            solve: vec!["/p/p1.pddl".to_owned()],
        }],
    }
}

#[test]
fn validates_small_suite() {
    assert_eq!(small_suite().validate(), Ok(()));
}

#[test]
fn rejects_undefined_depends() {
    let mut s = small_suite();
    s.runners[1].depends = Some("Z".to_owned());
    assert_eq!(s.validate(), Err(SuiteError::BadDepends { runner: 1 }));
}

#[test]
fn rejects_depends_on_solver() {
    let mut s = small_suite();
    s.runners[1].depends = Some("S".to_owned());
    assert_eq!(s.validate(), Err(SuiteError::BadDepends { runner: 1 }));
}

#[test]
fn rejects_undefined_attribute() {
    let mut s = small_suite();
    s.runners[0].attribute = Some("missing".to_owned());
    assert_eq!(s.validate(), Err(SuiteError::BadAttribute { runner: 0 }));
}

#[test]
fn rejects_task_without_learn_problems() {
    let mut s = small_suite();
    s.tasks[0].learn.clear();
    assert_eq!(s.validate(), Err(SuiteError::NoLearnProblems { task: 0 }));
}

#[test]
fn rejects_task_without_solve_problems() {
    let mut s = small_suite();
    s.tasks[0].solve.clear();
    assert_eq!(s.validate(), Err(SuiteError::NoSolveProblems { task: 0 }));
}

#[test]
fn rejects_task_without_problems() {
    let mut s = small_suite();
    s.runners.clear();
    s.tasks[0].learn.clear();
    s.tasks[0].solve.clear();
    assert_eq!(s.validate(), Err(SuiteError::NoProblems { task: 0 }));
}

#[test]
fn rejects_oversized_memory_limit() {
    let mut s = small_suite();
    s.memory_limit_learn = Some(u64::MAX);
    assert_eq!(s.validate(), Err(SuiteError::TooLarge));
}

#[test]
fn plans_single_learner_and_solver() {
    let s = small_suite();
    assert_eq!(s.validate(), Ok(()));
    let inst = generate(s, "/tmp/work");
    assert_eq!(inst.learn_dir, "/tmp/work/learn");
    assert_eq!(inst.solve_dir, "/tmp/work/solve");
    assert_eq!(inst.runs.len(), 2);
    assert_eq!(inst.scripts.len(), 2);

    assert_eq!(inst.runs[0].dir, "/tmp/work/learn/0");
    assert_eq!(inst.runs[0].exe, "/tmp/work/learn/0/runner.sh");
    assert_eq!(inst.runs[0].runner_index, 0);
    assert_eq!(inst.runs[0].task_index, 0);
    assert_eq!(inst.runs[0].kind, RunKind::Learner);
    assert!(!inst.runs[0].skip);

    assert_eq!(inst.runs[1].dir, "/tmp/work/solve/0");
    assert_eq!(inst.runs[1].exe, "/tmp/work/solve/0/runner.sh");
    assert_eq!(inst.runs[1].runner_index, 1);
    assert_eq!(inst.runs[1].task_index, 0);
    assert_eq!(inst.runs[1].kind, RunKind::Solver { problem_index: 0, depends: Some(0) });

    // the solver's command line passes its dependency's directory before
    // the domain and the problem
    assert_eq!(
        inst.scripts[1],
        "#!/bin/bash\nulimit -v 128000\n$(eval \"timeout 5s /bin/solve out --s /tmp/work/learn/0 /dom/D.pddl /p/p1.pddl\"&>log)\necho $? > exit_code"
    );
    assert_eq!(
        inst.scripts[0],
        "#!/bin/bash\nulimit -v 128000\n$(eval \"timeout 5s /bin/learn out --l /dom/D.pddl /p/l1.pddl\"&>log)\necho $? > exit_code"
    );

    assert_eq!(inst.runners.len(), 2);
    assert_eq!(inst.runners[0].name, "L");
    assert_eq!(inst.runners[1].name, "S");
    assert_eq!(inst.tasks.len(), 1);
    assert_eq!(inst.tasks[0].name, "gripper");
    assert_eq!(inst.tasks[0].domain, "/dom/D.pddl");
    assert_eq!(inst.tasks[0].learn, vec!["l1"]);
    assert_eq!(inst.tasks[0].solve, vec!["p1"]);
}

#[test]
fn plans_interleaved_runner_kinds() {
    // runner declaration order Solve, Learn: the instance table still puts
    // the Learn runner first and wires the dependency to it
    let s = Suite {
        time_limit_learn: None,
        time_limit_solve: None,
        memory_limit_learn: None,
        memory_limit_solve: None,
        runners: vec![
            runner("S", RunnerKind::Solve, "/bin/solve", &[], Some("L")),
            runner("L", RunnerKind::Learn, "/bin/learn", &[], None),
        ],
        attributes: vec![],
        tasks: vec![
            Task {
                name: "t0".to_owned(),
                domain: "d0".to_owned(),
                learn: vec!["a.pddl".to_owned()],
                solve: vec!["b.pddl".to_owned()],
            },
            Task {
                name: "t1".to_owned(),
                domain: "d1".to_owned(),
                learn: vec!["c.pddl".to_owned()],
                solve: vec!["e.pddl".to_owned(), "f.pddl".to_owned()],
            },
        ],
    };
    assert_eq!(s.validate(), Ok(()));
    let inst = generate(s, "/w");
    // 2 tasks x 1 learner, then (1 + 2) problems x 1 solver
    assert_eq!(inst.runs.len(), 5);
    assert_eq!(inst.runners[0].name, "L");
    assert_eq!(inst.runners[0].kind, RunnerKind::Learn);
    assert_eq!(inst.runners[1].name, "S");
    assert_eq!(inst.runners[1].kind, RunnerKind::Solve);
    for q in 0..2 {
        assert_eq!(inst.runs[q].kind, RunKind::Learner);
        assert_eq!(inst.runs[q].task_index, q);
        assert_eq!(inst.runs[q].dir, format!("/w/learn/{}", q));
    }
    // every solver depends on the learner run of its own task
    assert_eq!(inst.runs[2].kind, RunKind::Solver { problem_index: 0, depends: Some(0) });
    assert_eq!(inst.runs[2].task_index, 0);
    assert_eq!(inst.runs[3].kind, RunKind::Solver { problem_index: 0, depends: Some(1) });
    assert_eq!(inst.runs[3].task_index, 1);
    assert_eq!(inst.runs[4].kind, RunKind::Solver { problem_index: 1, depends: Some(1) });
    assert_eq!(inst.runs[4].task_index, 1);
    for (j, q) in (2..5).enumerate() {
        assert_eq!(inst.runs[q].dir, format!("/w/solve/{}", j));
    }
}

#[test]
fn run_directories_are_unique() {
    let s = small_suite();
    let inst = generate(s, "/w");
    for i in 0..inst.runs.len() {
        assert!(inst.runs[i].dir.starts_with("/w/"));
        for j in 0..inst.runs.len() {
            if i != j {
                assert_ne!(inst.runs[i].dir, inst.runs[j].dir);
            }
        }
    }
}

#[test]
fn plans_nothing_for_empty_task_list() {
    let mut s = small_suite();
    s.tasks.clear();
    assert_eq!(s.validate(), Ok(()));
    let inst = generate(s, "/w");
    assert_eq!(inst.runs.len(), 0);
    assert_eq!(inst.scripts.len(), 0);
}

#[test]
fn resume_skips_only_completed_runs() {
    let s = small_suite();
    let mut inst = generate(s, "/w");
    // prior tree complete except the solver's exit_code
    let present = vec![true, false];
    mark_skips(&mut inst, &present, false, false);
    assert!(inst.runs[0].skip);
    assert!(!inst.runs[1].skip);
}

#[test]
fn resume_with_force_learn_redoes_everything() {
    let s = small_suite();
    let mut inst = generate(s, "/w");
    let present = vec![true, true];
    mark_skips(&mut inst, &present, true, false);
    assert!(!inst.runs[0].skip);
    assert!(!inst.runs[1].skip);
}

#[test]
fn resume_with_force_solve_redoes_solvers_only() {
    let s = small_suite();
    let mut inst = generate(s, "/w");
    let present = vec![true, true];
    mark_skips(&mut inst, &present, false, true);
    assert!(inst.runs[0].skip);
    assert!(!inst.runs[1].skip);
}

#[test]
fn resume_without_force_skips_everything() {
    let s = small_suite();
    let mut inst = generate(s, "/w");
    let present = vec![true, true];
    mark_skips(&mut inst, &present, false, false);
    assert!(inst.runs[0].skip);
    assert!(inst.runs[1].skip);
}

#[test]
fn counts_problems_and_runners() {
    let s = small_suite();
    assert_eq!(s.learner_count(), 1);
    assert_eq!(s.solver_count(), 1);
    assert_eq!(s.total_problems_learn(), Some(1));
    assert_eq!(s.total_problems_solve(), Some(1));
    assert_eq!(s.checked_total_runs(), Some(2));
    assert!(s.get_runner("L").is_some());
    assert!(s.get_runner("Z").is_none());
    assert!(s.get_task("gripper").is_some());
    assert_eq!(s.runner_names(), vec!["L", "S"]);
    assert_eq!(s.task_names(), vec!["gripper"]);
}
