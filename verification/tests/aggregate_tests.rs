use expbench::aggregate::{exit_cell, learn_csv, lookup_csv, merged_csv, solve_csv, RunArtifacts};
use expbench::pattern::{pattern_values, union_pattern_names, Attribute, Pattern};
use expbench::plan::generate;
use expbench::register::{LearnResult, Register, SolveResult};
use expbench::suite::{Runner, RunnerKind, Suite, Task};

fn pat(name: &str, source: &str) -> Pattern {
    Pattern::compile(name.to_owned(), source.to_owned()).expect("pattern must compile")
}

fn attributed_suite() -> Suite {
    Suite {
        time_limit_learn: Some(5),
        time_limit_solve: Some(5),
        memory_limit_learn: Some(128),
        memory_limit_solve: Some(128),
        runners: vec![
            Runner {
                name: "L".to_owned(),
                path: "/bin/learn".to_owned(),
                kind: RunnerKind::Learn,
                args: vec!["--l".to_owned()],
                depends: None,
                attribute: None,
            },
            Runner {
                name: "S".to_owned(),
                path: "/bin/solve".to_owned(),
                kind: RunnerKind::Solve,
                args: vec!["--s".to_owned()],
                depends: Some("L".to_owned()),
                attribute: Some("plan".to_owned()),
            },
        ],
        attributes: vec![Attribute {
            name: "plan".to_owned(),
            patterns: vec![pat("plan_length", "plan_length=(\\d+)")],
        }],
        tasks: vec![Task {
            name: "gripper".to_owned(),
            domain: "/dom/D.pddl".to_owned(),
            learn: vec!["/p/l1.pddl".to_owned()],
            solve: vec!["/p/p1.pddl".to_owned()],
        }],
    }
}

#[test]
fn exit_cells() {
    assert_eq!(exit_cell(&Some("0\n".to_owned())), "0");
    assert_eq!(exit_cell(&Some("124\n".to_owned())), "124");
    assert_eq!(exit_cell(&Some("  7 ".to_owned())), "7");
    assert_eq!(exit_cell(&Some("oops".to_owned())), "404");
    assert_eq!(exit_cell(&Some("".to_owned())), "404");
    assert_eq!(exit_cell(&None), "404");
    // a value past u64 does not parse
    assert_eq!(exit_cell(&Some("18446744073709551616".to_owned())), "404");
    assert_eq!(exit_cell(&Some("18446744073709551615".to_owned())), "18446744073709551615");
}

#[test]
fn extracts_pattern_value() {
    let a = Attribute {
        name: "plan".to_owned(),
        patterns: vec![pat("plan_length", "plan_length=(\\d+)")],
    };
    let names = vec!["plan_length".to_owned()];
    let log = "garbage\nplan_length=7\nmore".to_owned();
    let vals = pattern_values(&names, Some(&a), Some(&log));
    assert_eq!(vals, vec!["7"]);
}

#[test]
fn missing_pieces_extract_empty() {
    let a = Attribute {
        name: "plan".to_owned(),
        patterns: vec![pat("plan_length", "plan_length=(\\d+)")],
    };
    let names = vec!["plan_length".to_owned(), "other".to_owned()];
    let log = "no match here".to_owned();
    // pattern present but never matches; name without a pattern
    assert_eq!(pattern_values(&names, Some(&a), Some(&log)), vec!["", ""]);
    // no attribute at all
    assert_eq!(pattern_values(&names, None, Some(&log)), vec!["", ""]);
    // no log
    assert_eq!(pattern_values(&names, Some(&a), None), vec!["", ""]);
}

#[test]
fn union_of_pattern_names_keeps_first_occurrences() {
    let attrs = vec![
        Attribute { name: "a".to_owned(), patterns: vec![pat("x", "x=(1)"), pat("y", "y=(1)")] },
        Attribute { name: "b".to_owned(), patterns: vec![pat("y", "y=(2)"), pat("z", "z=(1)")] },
    ];
    let names = union_pattern_names(&attrs, &vec![0, 1]);
    assert_eq!(names, vec!["x", "y", "z"]);
}

#[test]
fn tables_for_single_learner_and_solver() {
    let s = attributed_suite();
    assert_eq!(s.validate(), Ok(()));
    let inst = generate(s, "/w");
    let arts = vec![
        RunArtifacts { exit_code: Some("0\n".to_owned()), log: Some("fine".to_owned()) },
        RunArtifacts {
            exit_code: Some("0\n".to_owned()),
            log: Some("plan_length=7\n".to_owned()),
        },
    ];
    assert_eq!(learn_csv(&inst, &arts), "domain,learner,exit_code\n/dom/D.pddl,L,0\n");
    assert_eq!(
        solve_csv(&inst, &arts),
        "domain,problem,name,exit_code,plan_length\n/dom/D.pddl,p1,S,0,7\n"
    );
}

#[test]
fn timeout_exit_code_lands_in_table() {
    let s = attributed_suite();
    let inst = generate(s, "/w");
    let arts = vec![
        RunArtifacts { exit_code: Some("0\n".to_owned()), log: None },
        RunArtifacts { exit_code: Some("124\n".to_owned()), log: None },
    ];
    assert_eq!(
        solve_csv(&inst, &arts),
        "domain,problem,name,exit_code,plan_length\n/dom/D.pddl,p1,S,124,\n"
    );
}

#[test]
fn unmatched_attribute_yields_empty_columns_per_run() {
    let mut s = attributed_suite();
    // two solve problems: two Solver runs, both with a never-matching log
    s.tasks[0].solve.push("/p/p2.pddl".to_owned());
    assert_eq!(s.validate(), Ok(()));
    let inst = generate(s, "/w");
    let arts = vec![
        RunArtifacts { exit_code: Some("0".to_owned()), log: None },
        RunArtifacts { exit_code: Some("1".to_owned()), log: Some("nothing".to_owned()) },
        RunArtifacts { exit_code: Some("2".to_owned()), log: Some("nothing".to_owned()) },
    ];
    let table = solve_csv(&inst, &arts);
    let lines: Vec<&str> = table.lines().collect();
    // row count equals run count; pattern columns are empty strings
    assert_eq!(lines.len(), 3);
    assert_eq!(lines[1], "/dom/D.pddl,p1,S,1,");
    assert_eq!(lines[2], "/dom/D.pddl,p2,S,2,");
}

#[test]
fn empty_suite_yields_header_only_tables() {
    let mut s = attributed_suite();
    s.tasks.clear();
    assert_eq!(s.validate(), Ok(()));
    let inst = generate(s, "/w");
    let arts: Vec<RunArtifacts> = vec![];
    assert_eq!(learn_csv(&inst, &arts), "domain,learner,exit_code\n");
    assert_eq!(solve_csv(&inst, &arts), "domain,problem,name,exit_code,plan_length\n");
}

#[test]
fn missing_exit_code_becomes_sentinel_row() {
    let s = attributed_suite();
    let inst = generate(s, "/w");
    let arts = vec![
        RunArtifacts { exit_code: None, log: None },
        RunArtifacts { exit_code: None, log: None },
    ];
    assert_eq!(learn_csv(&inst, &arts), "domain,learner,exit_code\n/dom/D.pddl,L,404\n");
}

#[test]
fn merges_csv_segments() {
    let contents = vec![
        Some("x,y\n1,2".to_owned()),
        Some("x,y\n3,4".to_owned()),
    ];
    assert_eq!(merged_csv(&contents), "x,y\n1,2\n3,4");
}

#[test]
fn merge_first_header_wins() {
    let contents = vec![
        Some("h1,a\n1,2".to_owned()),
        Some("h2,b\n3,4".to_owned()),
    ];
    assert_eq!(merged_csv(&contents), "h1,a\n1,2\n3,4");
}

#[test]
fn merge_skips_absent_and_empty_files() {
    let contents = vec![
        None,
        Some("".to_owned()),
        Some("h\n1".to_owned()),
        None,
        Some("h\n2\n3".to_owned()),
    ];
    assert_eq!(merged_csv(&contents), "h\n1\n2\n3");
}

#[test]
fn looks_up_emitted_file() {
    let csvs = vec![
        ("metrics/a.csv".to_owned(), "x\n1".to_owned()),
        ("b.csv".to_owned(), "y\n2".to_owned()),
    ];
    assert_eq!(lookup_csv(&csvs, "b.csv"), Some("y\n2".to_owned()));
    assert_eq!(lookup_csv(&csvs, "c.csv"), None);
}

#[test]
fn register_exports_everything() {
    let s = attributed_suite();
    let inst = generate(s, "/w");
    let mut reg = Register::new();
    reg.register_learn(LearnResult {
        exit_code: Some("0".to_owned()),
        log: None,
        csvs: vec![("metrics/a.csv".to_owned(), "x,y\n1,2".to_owned())],
    });
    reg.register_solve(SolveResult {
        exit_code: Some("0".to_owned()),
        log: Some("plan_length=9".to_owned()),
        csvs: vec![],
    });
    let out = reg.export(&inst);
    assert_eq!(out.learn_csv, "domain,learner,exit_code\n/dom/D.pddl,L,0\n");
    assert_eq!(out.solve_csv, "domain,problem,name,exit_code,plan_length\n/dom/D.pddl,p1,S,0,9\n");
    assert_eq!(out.learn_files.len(), 1);
    assert_eq!(out.learn_files[0].0, "metrics/a.csv");
    assert_eq!(out.learn_files[0].1, "x,y\n1,2");
    assert!(out.solve_files.is_empty());
}

#[test]
fn register_merges_two_learner_csvs() {
    let mut s = attributed_suite();
    s.tasks.push(Task {
        name: "other".to_owned(),
        domain: "/dom/E.pddl".to_owned(),
        learn: vec!["/p/l2.pddl".to_owned()],
        solve: vec!["/p/p2.pddl".to_owned()],
    });
    assert_eq!(s.validate(), Ok(()));
    let inst = generate(s, "/w");
    let mut reg = Register::new();
    reg.register_learn(LearnResult {
        exit_code: Some("0".to_owned()),
        log: None,
        csvs: vec![("metrics/a.csv".to_owned(), "x,y\n1,2".to_owned())],
    });
    reg.register_learn(LearnResult {
        exit_code: Some("0".to_owned()),
        log: None,
        csvs: vec![("metrics/a.csv".to_owned(), "x,y\n3,4".to_owned())],
    });
    reg.register_solve(SolveResult { exit_code: Some("0".to_owned()), log: None, csvs: vec![] });
    reg.register_solve(SolveResult { exit_code: Some("0".to_owned()), log: None, csvs: vec![] });
    let out = reg.export(&inst);
    assert_eq!(out.learn_files.len(), 1);
    assert_eq!(out.learn_files[0].0, "metrics/a.csv");
    assert_eq!(out.learn_files[0].1, "x,y\n1,2\n3,4");
}

#[test]
fn arg_headers_are_numbered() {
    assert_eq!(Register::arg_header(3), vec!["arg_0", "arg_1", "arg_2"]);
    assert_eq!(Register::arg_header(0), Vec::<String>::new());
}
