//! The aggregator: turns the artifacts the runs left on disk into
//! `learn.csv`, `solve.csv`, and a merged tree of the CSV files the runs
//! emitted themselves.  Everything here is a function of the instance and of
//! the file contents the caller read; aggregation order is emission order,
//! so the outputs do not depend on how execution interleaved.

use crate::pattern::{extracted_vals, opt_attr, opt_text, pattern_values, union_names, Attribute};
use crate::plan::{Instance, RunKind, Runner};
use crate::suite::RunnerKind;
use crate::text::{
    all_digits, dec_val, join_strings, joined, parse_u64, split_lines, split_lines_exec, str_eq,
    trim_exec, trimmed,
};
use vstd::prelude::*;

verus! {

/// What one run left on disk: the contents of its `exit_code` and `log`
/// files, where they existed.
pub struct RunArtifacts {
    pub exit_code: Option<String>,
    pub log: Option<String>,
}

/// The exit-code cell of a result row: the trimmed file content when it is
/// a decimal number, else the sentinel 404.
pub open spec fn exit_cell_of(content: Option<Seq<char>>) -> Seq<char> {
    match content {
        Some(c) => {
            if trimmed(c).len() > 0 && all_digits(trimmed(c)) && dec_val(trimmed(c)) <= u64::MAX {
                trimmed(c)
            } else {
                "404"@
            }
        },
        None => "404"@,
    }
}

/// Renders the exit-code cell for one run.
pub fn exit_cell(content: &Option<String>) -> (r: String)
    ensures
        r@ == exit_cell_of(content.deep_view()),
{
    match content {
        Some(c) => {
            let t = trim_exec(c.as_str());
            match parse_u64(t.as_str()) {
                Some(_) => t,
                None => "404".to_owned(),
            }
        },
        None => "404".to_owned(),
    }
}

/// The attribute indices of the runners of one kind that declare one, in
/// table order.
pub open spec fn side_attr_idxs(runners: Seq<Runner>, kind: RunnerKind) -> Seq<usize>
    decreases runners.len(),
{
    if runners.len() == 0 {
        Seq::<usize>::empty()
    } else {
        let front = side_attr_idxs(runners.drop_last(), kind);
        if runners.last().kind == kind && runners.last().attribute is Some {
            front + seq![runners.last().attribute.unwrap()]
        } else {
            front
        }
    }
}

/// Collects the attribute indices of one side's runners.
fn side_attr_idx_vec(runners: &Vec<Runner>, kind: RunnerKind) -> (r: Vec<usize>)
    ensures
        r@ == side_attr_idxs(runners@, kind),
{
    let mut r: Vec<usize> = Vec::new();
    let mut i: usize = 0;
    while i < runners.len()
        invariant
            0 <= i <= runners@.len(),
            r@ == side_attr_idxs(runners@.take(i as int), kind),
        decreases runners@.len() - i,
    {
        proof {
            assert(runners@.take(i + 1).drop_last() =~= runners@.take(i as int));
            assert(runners@.take(i + 1).last() == runners@[i as int]);
        }
        if runners[i].kind == kind {
            if let Some(a) = runners[i].attribute {
                let ghost prev = r@;
                r.push(a);
                proof {
                    assert(r@ =~= prev + seq![runners@[i as int].attribute.unwrap()]);
                }
            }
        }
        i += 1;
    }
    proof {
        assert(runners@.take(runners@.len() as int) =~= runners@);
    }
    r
}

/// The pattern-name columns of one side: the union of the pattern names of
/// the side's attribute sets, first occurrences first.
pub open spec fn side_names(inst: Instance, kind: RunnerKind) -> Seq<Seq<char>> {
    union_names(crate::pattern::chosen_attrs(inst.attributes@, side_attr_idxs(inst.runners@, kind)))
}

/// The attribute set of the run's runner, if it declares one.
pub open spec fn run_attr(inst: Instance, q: int) -> Option<Attribute> {
    match inst.runners@[inst.runs@[q].runner_index as int].attribute {
        Some(a) => Some(inst.attributes@[a as int]),
        None => None,
    }
}

/// The cells of the learn row for run `q`: the task's domain, the learner,
/// the exit code, then one extracted value per pattern name.
pub open spec fn learn_row(
    inst: Instance,
    arts: Seq<RunArtifacts>,
    names: Seq<Seq<char>>,
    q: int,
) -> Seq<Seq<char>> {
    seq![
        inst.tasks@[inst.runs@[q].task_index as int].domain@,
        inst.runners@[inst.runs@[q].runner_index as int].name@,
        exit_cell_of(arts[q].exit_code.deep_view()),
    ] + extracted_vals(run_attr(inst, q), names, arts[q].log.deep_view())
}

/// The cells of the solve row for run `q`: the task's domain, the problem
/// stem, the solver, the exit code, then one extracted value per pattern
/// name.
pub open spec fn solve_row(
    inst: Instance,
    arts: Seq<RunArtifacts>,
    names: Seq<Seq<char>>,
    q: int,
) -> Seq<Seq<char>> {
    let pi = (inst.runs@[q].kind)->problem_index;
    seq![
        inst.tasks@[inst.runs@[q].task_index as int].domain@,
        inst.tasks@[inst.runs@[q].task_index as int].solve@[pi as int]@,
        inst.runners@[inst.runs@[q].runner_index as int].name@,
        exit_cell_of(arts[q].exit_code.deep_view()),
    ] + extracted_vals(run_attr(inst, q), names, arts[q].log.deep_view())
}

/// The learn rows of the first `n` runs, one per Learner run, in emission
/// order.
pub open spec fn learn_rows_upto(
    inst: Instance,
    arts: Seq<RunArtifacts>,
    names: Seq<Seq<char>>,
    n: int,
) -> Seq<Seq<Seq<char>>>
    decreases n,
{
    if n <= 0 {
        Seq::<Seq<Seq<char>>>::empty()
    } else {
        let front = learn_rows_upto(inst, arts, names, n - 1);
        if inst.runs@[n - 1].kind is Learner {
            front + seq![learn_row(inst, arts, names, n - 1)]
        } else {
            front
        }
    }
}

/// The solve rows of the first `n` runs, one per Solver run, in emission
/// order.
pub open spec fn solve_rows_upto(
    inst: Instance,
    arts: Seq<RunArtifacts>,
    names: Seq<Seq<char>>,
    n: int,
) -> Seq<Seq<Seq<char>>>
    decreases n,
{
    if n <= 0 {
        Seq::<Seq<Seq<char>>>::empty()
    } else {
        let front = solve_rows_upto(inst, arts, names, n - 1);
        if inst.runs@[n - 1].kind is Learner {
            front
        } else {
            front + seq![solve_row(inst, arts, names, n - 1)]
        }
    }
}

/// Each line followed by a newline.
pub open spec fn terminated(lines: Seq<Seq<char>>) -> Seq<char>
    decreases lines.len(),
{
    if lines.len() == 0 {
        Seq::<char>::empty()
    } else {
        terminated(lines.drop_last()) + lines.last() + seq!['\n']
    }
}

/// The full text of `learn.csv`: the header, then one row per Learner run.
pub open spec fn learn_csv_of(inst: Instance, arts: Seq<RunArtifacts>) -> Seq<char> {
    let names = side_names(inst, RunnerKind::Learn);
    let header = seq!["domain"@, "learner"@, "exit_code"@] + names;
    terminated(
        seq![joined(header, ","@)] + learn_rows_upto(inst, arts, names, inst.runs@.len() as int).map_values(
            |row: Seq<Seq<char>>| joined(row, ","@),
        ),
    )
}

/// The full text of `solve.csv`: the header, then one row per Solver run.
pub open spec fn solve_csv_of(inst: Instance, arts: Seq<RunArtifacts>) -> Seq<char> {
    let names = side_names(inst, RunnerKind::Solve);
    let header = seq!["domain"@, "problem"@, "name"@, "exit_code"@] + names;
    terminated(
        seq![joined(header, ","@)] + solve_rows_upto(inst, arts, names, inst.runs@.len() as int).map_values(
            |row: Seq<Seq<char>>| joined(row, ","@),
        ),
    )
}

/// The side's attribute indices point into the attribute table.
proof fn lemma_side_attr_bounds(runners: Seq<Runner>, kind: RunnerKind, attrs_len: int)
    requires
        forall|i: int|
            0 <= i < runners.len() ==> ((#[trigger] runners[i]).attribute matches Some(a) ==> a
                < attrs_len),
    ensures
        forall|k: int|
            0 <= k < side_attr_idxs(runners, kind).len() ==> #[trigger] side_attr_idxs(
                runners,
                kind,
            )[k] < attrs_len,
    decreases runners.len(),
{
    if runners.len() > 0 {
        lemma_side_attr_bounds(runners.drop_last(), kind, attrs_len);
        let front = side_attr_idxs(runners.drop_last(), kind);
        let whole = side_attr_idxs(runners, kind);
        assert(runners[runners.len() - 1] == runners.last());
        assert forall|k: int| 0 <= k < whole.len() implies #[trigger] whole[k] < attrs_len by {
            if k < front.len() {
                assert(whole[k] == front[k]);
            }
        }
    }
}

/// Builds the cells of one result row: the fixed cells, then one extracted
/// value per pattern name.
fn row_cells(
    fixed: Vec<String>,
    names: &Vec<String>,
    attribute: Option<&Attribute>,
    log: Option<&String>,
) -> (r: Vec<String>)
    ensures
        r.deep_view() == fixed.deep_view() + extracted_vals(
            opt_attr(attribute),
            names.deep_view(),
            opt_text(log),
        ),
{
    let vals = pattern_values(names, attribute, log);
    let mut r = fixed;
    let ghost head = r.deep_view();
    let mut k: usize = 0;
    while k < vals.len()
        invariant
            0 <= k <= vals@.len(),
            r.deep_view() == head + vals.deep_view().take(k as int),
        decreases vals@.len() - k,
    {
        let ghost prev = r.deep_view();
        r.push(vals[k].clone());
        proof {
            assert(r.deep_view() =~~= prev + seq![vals@[k as int]@]);
            assert(vals.deep_view().take(k + 1) =~~= vals.deep_view().take(k as int) + seq![
                vals.deep_view()[k as int],
            ]);
        }
        k += 1;
    }
    proof {
        assert(vals.deep_view().take(vals@.len() as int) =~~= vals.deep_view());
        assert(r.deep_view() =~~= head + vals.deep_view());
    }
    r
}

/// Builds the header cells of a side: the fixed column names, then the
/// side's pattern names.
fn header_cells(fixed: Vec<String>, names: &Vec<String>) -> (r: Vec<String>)
    ensures
        r.deep_view() == fixed.deep_view() + names.deep_view(),
{
    let mut r = fixed;
    let ghost head = r.deep_view();
    let mut k: usize = 0;
    while k < names.len()
        invariant
            0 <= k <= names@.len(),
            r.deep_view() == head + names.deep_view().take(k as int),
        decreases names@.len() - k,
    {
        let ghost prev = r.deep_view();
        r.push(names[k].clone());
        proof {
            assert(r.deep_view() =~~= prev + seq![names@[k as int]@]);
            assert(names.deep_view().take(k + 1) =~~= names.deep_view().take(k as int) + seq![
                names.deep_view()[k as int],
            ]);
        }
        k += 1;
    }
    proof {
        assert(names.deep_view().take(names@.len() as int) =~~= names.deep_view());
        assert(r.deep_view() =~~= head + names.deep_view());
    }
    r
}

/// The attribute set of the run at `q`, borrowed from the instance tables.
fn run_attr_exec<'a>(inst: &'a Instance, q: usize) -> (r: Option<&'a Attribute>)
    requires
        inst.wf(),
        q < inst.runs@.len(),
    ensures
        opt_attr(r) == run_attr(*inst, q as int),
{
    let ri = inst.runs[q].runner_index;
    match inst.runners[ri].attribute {
        Some(a) => Some(&inst.attributes[a]),
        None => None,
    }
}

/// Produces the text of `learn.csv` from the instance and the artifacts of
/// each run, one row per Learner run in emission order.
pub fn learn_csv(inst: &Instance, arts: &Vec<RunArtifacts>) -> (r: String)
    requires
        inst.wf(),
        arts@.len() == inst.runs@.len(),
    ensures
        r@ == learn_csv_of(*inst, arts@),
{
    let ghost names_s = side_names(*inst, RunnerKind::Learn);
    let sel = side_attr_idx_vec(&inst.runners, RunnerKind::Learn);
    proof {
        lemma_side_attr_bounds(inst.runners@, RunnerKind::Learn, inst.attributes@.len() as int);
    }
    let names = crate::pattern::union_pattern_names(&inst.attributes, &sel);
    let mut fixed: Vec<String> = Vec::new();
    fixed.push("domain".to_owned());
    fixed.push("learner".to_owned());
    fixed.push("exit_code".to_owned());
    proof {
        assert(fixed.deep_view() =~~= seq!["domain"@, "learner"@, "exit_code"@]);
    }
    let header = header_cells(fixed, &names);
    let mut out = join_strings(&header, ",");
    out.append("\n");
    let ghost header_line = joined(seq!["domain"@, "learner"@, "exit_code"@] + names_s, ","@);
    proof {
        reveal_strlit("\n");
        assert("\n"@ =~= seq!['\n']);
        assert(names.deep_view() == names_s);
        assert(seq![header_line].drop_last() =~~= Seq::<Seq<char>>::empty());
        assert(terminated(Seq::<Seq<char>>::empty()) == Seq::<char>::empty());
        assert(terminated(seq![header_line]) =~= header_line + seq!['\n']);
        assert(out@ =~= terminated(seq![header_line]));
    }
    let mut q: usize = 0;
    while q < inst.runs.len()
        invariant
            0 <= q <= inst.runs@.len(),
            inst.wf(),
            arts@.len() == inst.runs@.len(),
            names.deep_view() == names_s,
            names_s == side_names(*inst, RunnerKind::Learn),
            header_line == joined(seq!["domain"@, "learner"@, "exit_code"@] + names_s, ","@),
            out@ == terminated(
                seq![header_line] + learn_rows_upto(*inst, arts@, names_s, q as int).map_values(
                    |row: Seq<Seq<char>>| joined(row, ","@),
                ),
            ),
        decreases inst.runs@.len() - q,
    {
        let is_learner = matches!(inst.runs[q].kind, RunKind::Learner);
        if is_learner {
            let ti = inst.runs[q].task_index;
            let ri = inst.runs[q].runner_index;
            let mut fixed_row: Vec<String> = Vec::new();
            fixed_row.push(inst.tasks[ti].domain.clone());
            fixed_row.push(inst.runners[ri].name.clone());
            fixed_row.push(exit_cell(&arts[q].exit_code));
            proof {
                assert(fixed_row.deep_view() =~~= seq![
                    inst.tasks@[ti as int].domain@,
                    inst.runners@[ri as int].name@,
                    exit_cell_of(arts@[q as int].exit_code.deep_view()),
                ]);
            }
            let attribute = run_attr_exec(inst, q);
            let log_ref = arts[q].log.as_ref();
            let cells = row_cells(fixed_row, &names, attribute, log_ref);
            proof {
                assert(opt_text(log_ref) == arts@[q as int].log.deep_view());
                assert(cells.deep_view() =~~= learn_row(*inst, arts@, names_s, q as int));
            }
            let line = join_strings(&cells, ",");
            out.append(line.as_str());
            out.append("\n");
        }
        proof {
            reveal_strlit("\n");
            assert("\n"@ =~= seq!['\n']);
            let rows_n = learn_rows_upto(*inst, arts@, names_s, q as int);
            let rows_n1 = learn_rows_upto(*inst, arts@, names_s, q + 1);
            let jf = |row: Seq<Seq<char>>| joined(row, ","@);
            if inst.runs@[q as int].kind is Learner {
                assert(rows_n1 == rows_n + seq![learn_row(*inst, arts@, names_s, q as int)]);
                assert((seq![header_line] + rows_n1.map_values(jf)).drop_last() =~~= seq![
                    header_line,
                ] + rows_n.map_values(jf));
                assert((seq![header_line] + rows_n1.map_values(jf)).last() == jf(
                    learn_row(*inst, arts@, names_s, q as int),
                ));
                assert(out@ =~= terminated(seq![header_line] + rows_n1.map_values(jf)));
            } else {
                assert(rows_n1 == rows_n);
            }
        }
        q += 1;
    }
    out
}

/// Produces the text of `solve.csv` from the instance and the artifacts of
/// each run, one row per Solver run in emission order.
pub fn solve_csv(inst: &Instance, arts: &Vec<RunArtifacts>) -> (r: String)
    requires
        inst.wf(),
        arts@.len() == inst.runs@.len(),
    ensures
        r@ == solve_csv_of(*inst, arts@),
{
    let ghost names_s = side_names(*inst, RunnerKind::Solve);
    let sel = side_attr_idx_vec(&inst.runners, RunnerKind::Solve);
    proof {
        lemma_side_attr_bounds(inst.runners@, RunnerKind::Solve, inst.attributes@.len() as int);
    }
    let names = crate::pattern::union_pattern_names(&inst.attributes, &sel);
    let mut fixed: Vec<String> = Vec::new();
    fixed.push("domain".to_owned());
    fixed.push("problem".to_owned());
    fixed.push("name".to_owned());
    fixed.push("exit_code".to_owned());
    proof {
        assert(fixed.deep_view() =~~= seq!["domain"@, "problem"@, "name"@, "exit_code"@]);
    }
    let header = header_cells(fixed, &names);
    let mut out = join_strings(&header, ",");
    out.append("\n");
    let ghost header_line = joined(
        seq!["domain"@, "problem"@, "name"@, "exit_code"@] + names_s,
        ","@,
    );
    proof {
        reveal_strlit("\n");
        assert("\n"@ =~= seq!['\n']);
        assert(names.deep_view() == names_s);
        assert(seq![header_line].drop_last() =~~= Seq::<Seq<char>>::empty());
        assert(terminated(Seq::<Seq<char>>::empty()) == Seq::<char>::empty());
        assert(terminated(seq![header_line]) =~= header_line + seq!['\n']);
        assert(out@ =~= terminated(seq![header_line]));
    }
    let mut q: usize = 0;
    while q < inst.runs.len()
        invariant
            0 <= q <= inst.runs@.len(),
            inst.wf(),
            arts@.len() == inst.runs@.len(),
            names.deep_view() == names_s,
            names_s == side_names(*inst, RunnerKind::Solve),
            header_line == joined(
                seq!["domain"@, "problem"@, "name"@, "exit_code"@] + names_s,
                ","@,
            ),
            out@ == terminated(
                seq![header_line] + solve_rows_upto(*inst, arts@, names_s, q as int).map_values(
                    |row: Seq<Seq<char>>| joined(row, ","@),
                ),
            ),
        decreases inst.runs@.len() - q,
    {
        let pi_opt: Option<usize> = match inst.runs[q].kind {
            RunKind::Learner => None,
            RunKind::Solver { problem_index, .. } => Some(problem_index),
        };
        if let Some(pi) = pi_opt {
            let ti = inst.runs[q].task_index;
            let ri = inst.runs[q].runner_index;
            let mut fixed_row: Vec<String> = Vec::new();
            fixed_row.push(inst.tasks[ti].domain.clone());
            fixed_row.push(inst.tasks[ti].solve[pi].clone());
            fixed_row.push(inst.runners[ri].name.clone());
            fixed_row.push(exit_cell(&arts[q].exit_code));
            proof {
                assert(fixed_row.deep_view() =~~= seq![
                    inst.tasks@[ti as int].domain@,
                    inst.tasks@[ti as int].solve@[pi as int]@,
                    inst.runners@[ri as int].name@,
                    exit_cell_of(arts@[q as int].exit_code.deep_view()),
                ]);
            }
            let attribute = run_attr_exec(inst, q);
            let log_ref = arts[q].log.as_ref();
            let cells = row_cells(fixed_row, &names, attribute, log_ref);
            proof {
                assert(opt_text(log_ref) == arts@[q as int].log.deep_view());
                assert(cells.deep_view() =~~= solve_row(*inst, arts@, names_s, q as int));
            }
            let line = join_strings(&cells, ",");
            out.append(line.as_str());
            out.append("\n");
        }
        proof {
            reveal_strlit("\n");
            assert("\n"@ =~= seq!['\n']);
            let rows_n = solve_rows_upto(*inst, arts@, names_s, q as int);
            let rows_n1 = solve_rows_upto(*inst, arts@, names_s, q + 1);
            let jf = |row: Seq<Seq<char>>| joined(row, ","@);
            if inst.runs@[q as int].kind is Learner {
                assert(rows_n1 == rows_n);
            } else {
                assert(rows_n1 == rows_n + seq![solve_row(*inst, arts@, names_s, q as int)]);
                assert((seq![header_line] + rows_n1.map_values(jf)).drop_last() =~~= seq![
                    header_line,
                ] + rows_n.map_values(jf));
                assert((seq![header_line] + rows_n1.map_values(jf)).last() == jf(
                    solve_row(*inst, arts@, names_s, q as int),
                ));
                assert(out@ =~= terminated(seq![header_line] + rows_n1.map_values(jf)));
            }
        }
        q += 1;
    }
    out
}

/// The lines a set of runs contribute at one relative CSV path, in run
/// order: the header line comes from the first run that has the file, every
/// run contributes its remaining lines, runs without the file contribute
/// nothing.
pub open spec fn merge_lines(cs: Seq<Option<Seq<char>>>) -> Seq<Seq<char>>
    decreases cs.len(),
{
    if cs.len() == 0 {
        Seq::<Seq<char>>::empty()
    } else {
        let front = merge_lines(cs.drop_last());
        match cs.last() {
            Some(c) => {
                let ls = split_lines(c);
                if ls.len() == 0 {
                    front
                } else if front.len() == 0 {
                    ls
                } else {
                    front + ls.drop_first()
                }
            },
            None => front,
        }
    }
}

/// The merged file at one relative CSV path: the collected lines joined
/// with newlines.
pub open spec fn merged_of(cs: Seq<Option<Seq<char>>>) -> Seq<char> {
    joined(merge_lines(cs), "\n"@)
}

/// Merges the per-run contents of one relative CSV path, in run order: the
/// first file's header wins, later files contribute only their data lines.
pub fn merged_csv(contents: &Vec<Option<String>>) -> (r: String)
    ensures
        r@ == merged_of(contents.deep_view()),
{
    let ghost dv = contents.deep_view();
    let mut lines: Vec<String> = Vec::new();
    let mut i: usize = 0;
    while i < contents.len()
        invariant
            0 <= i <= contents@.len(),
            dv == contents.deep_view(),
            lines.deep_view() == merge_lines(dv.take(i as int)),
        decreases contents@.len() - i,
    {
        proof {
            assert(dv.take(i + 1).drop_last() =~~= dv.take(i as int));
            assert(dv.take(i + 1).last() == dv[i as int]);
            assert(dv[i as int] == contents@[i as int].deep_view());
        }
        if let Some(c) = &contents[i] {
            let ls = split_lines_exec(c.as_str());
            if ls.len() > 0 {
                let start: usize = if lines.len() == 0 {
                    0
                } else {
                    1
                };
                let ghost front = lines.deep_view();
                let mut k: usize = start;
                while k < ls.len()
                    invariant
                        start <= k <= ls@.len(),
                        start == 0 || start == 1,
                        ls.deep_view() == split_lines(contents@[i as int].deep_view().unwrap()),
                        lines.deep_view() == front + ls.deep_view().subrange(
                            start as int,
                            k as int,
                        ),
                    decreases ls@.len() - k,
                {
                    let ghost prev = lines.deep_view();
                    lines.push(ls[k].clone());
                    proof {
                        assert(lines.deep_view() =~~= prev + seq![ls.deep_view()[k as int]]);
                        assert(ls.deep_view().subrange(start as int, k + 1) =~~= ls.deep_view().subrange(start as int, k as int) + seq![ls.deep_view()[k as int]]);
                    }
                    k += 1;
                }
                proof {
                    let lsv = ls.deep_view();
                    if front.len() == 0 {
                        assert(lsv.subrange(0, lsv.len() as int) =~~= lsv);
                        assert(lines.deep_view() =~~= merge_lines(dv.take(i + 1)));
                    } else {
                        assert(lsv.subrange(1, lsv.len() as int) =~~= lsv.drop_first());
                        assert(lines.deep_view() =~~= merge_lines(dv.take(i + 1)));
                    }
                }
            }
        }
        proof {
            assert(lines.deep_view() =~~= merge_lines(dv.take(i + 1)));
        }
        i += 1;
    }
    proof {
        assert(dv.take(contents@.len() as int) =~~= dv);
    }
    join_strings(&lines, "\n")
}

/// Determinism of the result tables: they are functions of the instance
/// and the collected artifacts alone, so they cannot depend on how
/// execution of the runs interleaved.
pub proof fn lemma_tables_deterministic(
    i1: Instance,
    a1: Seq<RunArtifacts>,
    i2: Instance,
    a2: Seq<RunArtifacts>,
)
    requires
        i1 == i2,
        a1 == a2,
    ensures
        learn_csv_of(i1, a1) == learn_csv_of(i2, a2),
        solve_csv_of(i1, a1) == solve_csv_of(i2, a2),
{
}

/// When two runs emit a file at the same relative path, the first run's
/// header line wins: the merge is the first file's lines followed by the
/// second file's lines without its header.
pub proof fn lemma_merge_first_header_wins(c1: Seq<char>, c2: Seq<char>)
    requires
        split_lines(c1).len() > 0,
        split_lines(c2).len() > 0,
    ensures
        merge_lines(seq![Some(c1), Some(c2)]) == split_lines(c1) + split_lines(c2).drop_first(),
{
    let cs = seq![Some(c1), Some(c2)];
    assert(cs.drop_last() =~= seq![Some(c1)]);
    assert(seq![Some(c1)].drop_last() =~= Seq::<Option<Seq<char>>>::empty());
    assert(merge_lines(Seq::<Option<Seq<char>>>::empty()) == Seq::<Seq<char>>::empty());
    assert(merge_lines(seq![Some(c1)]) == split_lines(c1));
}

/// The relative path of each emitted CSV pair, in order.
pub open spec fn pair_paths(csvs: Seq<(String, String)>) -> Seq<Seq<char>> {
    Seq::new(csvs.len(), |i: int| csvs[i].0@)
}

/// The content stored for `path` at or after position `i`, first match
/// wins.
pub open spec fn content_from(csvs: Seq<(String, String)>, path: Seq<char>, i: int) -> Option<
    Seq<char>,
>
    decreases csvs.len() - i,
{
    if i < 0 || i >= csvs.len() {
        None
    } else if csvs[i].0@ == path {
        Some(csvs[i].1@)
    } else {
        content_from(csvs, path, i + 1)
    }
}

/// The content a run emitted at the given relative path, if any.
pub open spec fn content_for(csvs: Seq<(String, String)>, path: Seq<char>) -> Option<Seq<char>> {
    content_from(csvs, path, 0)
}

/// Looks up the content a run emitted at the given relative path.
pub fn lookup_csv(csvs: &Vec<(String, String)>, path: &str) -> (r: Option<String>)
    ensures
        r.deep_view() == content_for(csvs@, path@),
{
    let mut i: usize = 0;
    while i < csvs.len()
        invariant
            0 <= i <= csvs@.len(),
            content_for(csvs@, path@) == content_from(csvs@, path@, i as int),
        decreases csvs@.len() - i,
    {
        if str_eq(csvs[i].0.as_str(), path) {
            return Some(csvs[i].1.clone());
        }
        i += 1;
    }
    None
}

/// Appends the path of each pair to `out`.
pub fn push_pair_paths(out: &mut Vec<String>, csvs: &Vec<(String, String)>)
    ensures
        final(out).deep_view() == old(out).deep_view() + pair_paths(csvs@),
{
    let mut k: usize = 0;
    while k < csvs.len()
        invariant
            0 <= k <= csvs@.len(),
            out.deep_view() == old(out).deep_view() + pair_paths(csvs@).take(k as int),
        decreases csvs@.len() - k,
    {
        let ghost prev = out.deep_view();
        out.push(csvs[k].0.clone());
        proof {
            assert(out.deep_view() =~~= prev + seq![csvs@[k as int].0@]);
            assert(pair_paths(csvs@).take(k + 1) =~~= pair_paths(csvs@).take(k as int) + seq![
                pair_paths(csvs@)[k as int],
            ]);
        }
        k += 1;
    }
    proof {
        assert(pair_paths(csvs@).take(csvs@.len() as int) =~~= pair_paths(csvs@));
        assert(out.deep_view() =~~= old(out).deep_view() + pair_paths(csvs@));
    }
}

} // verus!
