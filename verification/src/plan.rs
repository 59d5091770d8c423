//! The instance planner: expands a validated suite into a concrete, ordered
//! list of runs with wired dependencies, per-run directories and runner
//! scripts.  All Learner runs come before all Solver runs; a run's directory
//! is `<work>/learn/<i>` or `<work>/solve/<j>` with `i` and `j` counting in
//! emission order.

use crate::pattern::Attribute;
use crate::script::{script_of, script_content};
use crate::suite::{
    kind_indices, lemma_kind_indices_bounds, sum_solve, lemma_sum_solve_nonneg,
    lemma_sum_solve_monotone, total_run_count, RunnerKind, Suite,
};
use crate::text::{dec_of, file_stem, stem_of, str_eq, u64_to_string};
use vstd::prelude::*;

verus! {

/// What a planned run does: learn on a task, or solve one of its problems,
/// possibly after a Learner run it depends on.
#[derive(Clone, Copy, PartialEq, Eq, Structural, Debug, Hash)]
pub enum RunKind {
    Learner,
    Solver { problem_index: usize, depends: Option<usize> },
}

/// One planned unit of work with its own directory and runner script.
pub struct Run {
    pub dir: String,
    pub exe: String,
    pub runner_index: usize,
    pub task_index: usize,
    pub kind: RunKind,
    pub skip: bool,
}

/// A runner, flattened for the instance: its attribute resolved to an index.
pub struct Runner {
    pub name: String,
    pub attribute: Option<usize>,
    pub kind: RunnerKind,
}

/// A task, flattened for the instance: its domain kept for the result
/// tables, its problems reduced to their stems.
pub struct Task {
    pub name: String,
    pub domain: String,
    pub learn: Vec<String>,
    pub solve: Vec<String>,
}

/// The planning output: ordered runs plus flattened name tables, so later
/// stages need only integer indices.
pub struct Instance {
    pub learn_dir: String,
    pub solve_dir: String,
    pub learn_mem_limit: Option<u64>,
    pub solve_mem_limit: Option<u64>,
    pub runners: Vec<Runner>,
    pub tasks: Vec<Task>,
    pub attributes: Vec<Attribute>,
    pub runs: Vec<Run>,
    pub scripts: Vec<String>,
}

impl Instance {
    /// Every index a run or runner carries points into the instance's
    /// tables.
    pub open spec fn wf(self) -> bool {
        &&& self.scripts@.len() == self.runs@.len()
        &&& forall|q: int|
            0 <= q < self.runs@.len() ==> (#[trigger] self.runs@[q]).runner_index
                < self.runners@.len() && self.runs@[q].task_index < self.tasks@.len() && (
            self.runs@[q].kind matches RunKind::Solver { problem_index: p, depends: dep }
                ==> p < self.tasks@[self.runs@[q].task_index as int].solve@.len() && (
            dep matches Some(d) ==> d < self.runs@.len()))
        &&& forall|i: int|
            0 <= i < self.runners@.len() ==> ((#[trigger] self.runners@[i]).attribute matches Some(
                a,
            ) ==> a < self.attributes@.len())
    }
}

/// The learn side's root directory under the working directory.
pub open spec fn learn_dir_of(work: Seq<char>) -> Seq<char> {
    work + "/learn"@
}

/// The solve side's root directory under the working directory.
pub open spec fn solve_dir_of(work: Seq<char>) -> Seq<char> {
    work + "/solve"@
}

/// The `i`-th run directory under a side's root.
pub open spec fn run_dir(side: Seq<char>, i: int) -> Seq<char> {
    side + seq!['/'] + dec_of(i as nat)
}

/// The runner script's path inside a run directory.
pub open spec fn exe_of(dir: Seq<char>) -> Seq<char> {
    dir + "/runner.sh"@
}

/// The arguments of a Learner run: the runner's own arguments, the task's
/// domain, then every learn problem.
pub open spec fn learner_args_of(r: crate::suite::Runner, task: crate::suite::Task) -> Seq<
    Seq<char>,
> {
    r.args.deep_view() + seq![task.domain@] + task.learn.deep_view()
}

/// The first Learn-runner position at or after `l` whose name is `n`;
/// the learner count when there is none.
pub open spec fn find_learner_from(s: Suite, n: Seq<char>, l: int) -> int
    decreases s.spec_learner_count() - l,
{
    if l < 0 || l >= s.spec_learner_count() {
        s.spec_learner_count()
    } else if s.learner_at(l).name@ == n {
        l
    } else {
        find_learner_from(s, n, l + 1)
    }
}

/// The dependency edge of the `v`-th Solve runner in task `t`: the index of
/// the Learner run of the same task produced by the depended-upon runner.
pub open spec fn dep_of(s: Suite, t: int, v: int) -> Option<usize> {
    match s.solver_at(v).depends {
        Some(d) => Some((t * s.spec_learner_count() + find_learner_from(s, d@, 0)) as usize),
        None => None,
    }
}

/// The arguments of a Solver run: the runner's own arguments, the directory
/// of the depended-upon Learner run if any, the task's domain, then the
/// problem.
pub open spec fn solver_args_of(s: Suite, work: Seq<char>, t: int, p: int, v: int) -> Seq<
    Seq<char>,
> {
    let dep_part = match s.solver_at(v).depends {
        Some(d) => seq![
            run_dir(learn_dir_of(work), t * s.spec_learner_count() + find_learner_from(s, d@, 0)),
        ],
        None => Seq::<Seq<char>>::empty(),
    };
    s.solver_at(v).args.deep_view() + dep_part + seq![s.tasks@[t].domain@, s.tasks@[t].solve@[p]@]
}

/// The position in `runs` of the Solver run for task `t`, problem `p`,
/// solver `v`.
pub open spec fn solver_slot(s: Suite, t: int, p: int, v: int) -> int {
    s.tasks@.len() * s.spec_learner_count() + (sum_solve(s.tasks@, t) + p) * s.spec_solver_count()
        + v
}

/// What the Learner run at position `p` looks like.
pub open spec fn learner_run_ok(s: Suite, work: Seq<char>, run: Run, script: Seq<char>, p: int) -> bool {
    let cl = s.spec_learner_count();
    let t = p / cl;
    let l = p % cl;
    &&& run.dir@ == run_dir(learn_dir_of(work), p)
    &&& run.exe@ == exe_of(run.dir@)
    &&& run.runner_index == l
    &&& run.task_index == t
    &&& run.kind == RunKind::Learner
    &&& run.skip == false
    &&& script == script_of(
        s.learner_at(l).path@,
        learner_args_of(s.learner_at(l), s.tasks@[t]),
        s.time_limit_learn,
        s.memory_limit_learn,
    )
}

/// What the Solver run for task `t`, problem `p`, solver `v` looks like.
pub open spec fn solver_run_ok(
    s: Suite,
    work: Seq<char>,
    run: Run,
    script: Seq<char>,
    t: int,
    p: int,
    v: int,
) -> bool {
    let cl = s.spec_learner_count();
    let j = (sum_solve(s.tasks@, t) + p) * s.spec_solver_count() + v;
    &&& run.dir@ == run_dir(solve_dir_of(work), j)
    &&& run.exe@ == exe_of(run.dir@)
    &&& run.runner_index == cl + v
    &&& run.task_index == t
    &&& run.kind == (RunKind::Solver { problem_index: p as usize, depends: dep_of(s, t, v) })
    &&& run.skip == false
    &&& script == script_of(
        s.solver_at(v).path@,
        solver_args_of(s, work, t, p, v),
        s.time_limit_solve,
        s.memory_limit_solve,
    )
}

/// Builds the directory path of the `i`-th run of a side.
fn make_run_dir(side: &String, i: usize) -> (r: String)
    ensures
        r@ == run_dir(side@, i as int),
{
    let mut r = side.clone();
    r.append("/");
    r.append(u64_to_string(i as u64).as_str());
    proof {
        assert("/"@ =~= seq!['/']) by {
            reveal_strlit("/");
        }
        assert(r@ =~= run_dir(side@, i as int));
    }
    r
}

/// Appends `/runner.sh` to a run directory.
fn make_exe(dir: &String) -> (r: String)
    ensures
        r@ == exe_of(dir@),
{
    let mut r = dir.clone();
    r.append("/runner.sh");
    r
}

proof fn lemma_mul_div_mod(t: int, l: int, cl: int)
    requires
        0 <= l < cl,
        0 <= t,
    ensures
        (t * cl + l) / cl == t,
        (t * cl + l) % cl == l,
{
    assert((t * cl + l) / cl == t && (t * cl + l) % cl == l) by (nonlinear_arith)
        requires
            0 <= l < cl,
            0 <= t,
    ;
}

proof fn lemma_mul_step(a: int, b: int)
    ensures
        (a + 1) * b == a * b + b,
{
    assert((a + 1) * b == a * b + b) by (nonlinear_arith);
}

proof fn lemma_slot_step(a: int, b: int, s: int, v: int)
    requires
        a < b,
        0 <= v < s,
    ensures
        a * s + v < b * s,
{
    assert(a * s + v < b * s) by (nonlinear_arith)
        requires
            a < b,
            0 <= v < s,
    ;
}

proof fn lemma_mul_mono(a: int, b: int, c: int)
    requires
        a <= b,
        c >= 0,
    ensures
        a * c <= b * c,
{
    assert(a * c <= b * c) by (nonlinear_arith)
        requires
            a <= b,
            c >= 0,
    ;
}

/// The Learner block `tasks * learners` fits under the total run count.
proof fn lemma_learner_base_bound(s: Suite)
    ensures
        s.tasks@.len() * s.spec_learner_count() <= total_run_count(s),
{
    lemma_sum_solve_nonneg(s.tasks@, s.tasks@.len() as int);
    assert(sum_solve(s.tasks@, s.tasks@.len() as int) * s.spec_solver_count() >= 0)
        by (nonlinear_arith)
        requires
            sum_solve(s.tasks@, s.tasks@.len() as int) >= 0,
            s.spec_solver_count() >= 0,
    ;
}

/// Every runner of the kind has a position among the kind's indices.
proof fn lemma_kind_indices_complete(runners: Seq<crate::suite::Runner>, kind: RunnerKind, j: int)
    requires
        0 <= j < runners.len(),
        runners[j].kind == kind,
    ensures
        exists|l: int|
            0 <= l < kind_indices(runners, kind).len() && #[trigger] kind_indices(runners, kind)[l]
                == j,
    decreases runners.len(),
{
    let whole = kind_indices(runners, kind);
    let front = kind_indices(runners.drop_last(), kind);
    if j == runners.len() - 1 {
        assert(whole[front.len() as int] == j);
    } else {
        assert(runners.drop_last()[j] == runners[j]);
        lemma_kind_indices_complete(runners.drop_last(), kind, j);
        let l = choose|l: int|
            0 <= l < front.len() && #[trigger] kind_indices(runners.drop_last(), kind)[l] == j;
        assert(whole[l] == j);
    }
}

/// Scanning from `from` stops at or before any position that matches.
proof fn lemma_find_learner_hits(s: Suite, n: Seq<char>, from: int, l: int)
    requires
        0 <= from <= l < s.spec_learner_count(),
        s.learner_at(l).name@ == n,
    ensures
        find_learner_from(s, n, from) <= l,
    decreases l - from,
{
    if from < l && s.learner_at(from).name@ != n {
        lemma_find_learner_hits(s, n, from + 1, l);
    }
}

/// A dependency that suite validation accepted resolves to a Learner.
proof fn lemma_depends_resolves(s: Suite, n: Seq<char>)
    requires
        exists|j: int|
            0 <= j < s.runners@.len() && s.runners@[j].kind == RunnerKind::Learn
                && s.runners@[j].name@ == n,
    ensures
        0 <= find_learner_from(s, n, 0) < s.spec_learner_count(),
        s.learner_at(find_learner_from(s, n, 0)).name@ == n,
{
    let j = choose|j: int|
        0 <= j < s.runners@.len() && s.runners@[j].kind == RunnerKind::Learn && s.runners@[j].name@
            == n;
    lemma_kind_indices_complete(s.runners@, RunnerKind::Learn, j);
    let l = choose|l: int|
        0 <= l < s.learner_indices().len() && #[trigger] s.learner_indices()[l] == j;
    assert(s.learner_at(l).name@ == n);
    lemma_find_learner_hits(s, n, 0, l);
    lemma_find_learner_props(s, n, 0);
}

/// What the scan's result satisfies.
proof fn lemma_find_learner_props(s: Suite, n: Seq<char>, from: int)
    requires
        0 <= from,
    ensures
        from <= find_learner_from(s, n, from) || s.spec_learner_count() < from,
        find_learner_from(s, n, from) <= s.spec_learner_count(),
        find_learner_from(s, n, from) < s.spec_learner_count() ==> s.learner_at(
            find_learner_from(s, n, from),
        ).name@ == n,
    decreases s.spec_learner_count() - from,
{
    if from < s.spec_learner_count() && s.learner_at(from).name@ != n {
        lemma_find_learner_props(s, n, from + 1);
    }
}

/// Finds the first Learn-runner position with the given name; the learner
/// count when there is none.
fn find_learner(s: &Suite, lidx: &Vec<usize>, name: &str) -> (r: usize)
    requires
        lidx@.map_values(|x: usize| x as int) == s.learner_indices(),
    ensures
        r == find_learner_from(*s, name@, 0),
        r <= s.spec_learner_count(),
{
    proof {
        lemma_kind_indices_bounds(s.runners@, RunnerKind::Learn);
    }
    let mut l: usize = 0;
    while l < lidx.len()
        invariant
            0 <= l <= s.spec_learner_count(),
            lidx@.map_values(|x: usize| x as int) == s.learner_indices(),
            lidx@.len() == s.spec_learner_count(),
            forall|k: int|
                0 <= k < s.learner_indices().len() ==> 0 <= #[trigger] s.learner_indices()[k]
                    < s.runners@.len(),
            find_learner_from(*s, name@, 0) == find_learner_from(*s, name@, l as int),
        decreases lidx@.len() - l,
    {
        proof {
            assert(s.learner_indices()[l as int] == lidx@[l as int] as int);
        }
        if str_eq(s.runners[lidx[l]].name.as_str(), name) {
            assert(find_learner_from(*s, name@, l as int) == l as int);
            return l;
        }
        assert(find_learner_from(*s, name@, l as int) == find_learner_from(*s, name@, l + 1));
        l += 1;
    }
    assert(find_learner_from(*s, name@, l as int) == l as int);
    l
}

/// The first attribute index at or after `j` whose name is `n`; the
/// attribute count when there is none.
pub open spec fn find_attr_from(attrs: Seq<Attribute>, n: Seq<char>, j: int) -> int
    decreases attrs.len() - j,
{
    if j < 0 || j >= attrs.len() {
        attrs.len() as int
    } else if attrs[j].name@ == n {
        j
    } else {
        find_attr_from(attrs, n, j + 1)
    }
}

/// The attribute index an instance runner carries: the first declared
/// attribute set with the name the suite runner names.
pub open spec fn attr_resolved(s: Suite, r: crate::suite::Runner) -> Option<usize> {
    match r.attribute {
        Some(a) => Some(find_attr_from(s.attributes@, a@, 0) as usize),
        None => None,
    }
}

proof fn lemma_find_attr_props(attrs: Seq<Attribute>, n: Seq<char>, from: int)
    requires
        0 <= from,
    ensures
        find_attr_from(attrs, n, from) <= attrs.len(),
        find_attr_from(attrs, n, from) < attrs.len() ==> from <= find_attr_from(attrs, n, from)
            && attrs[find_attr_from(attrs, n, from)].name@ == n && (forall|k: int|
            from <= k < find_attr_from(attrs, n, from) ==> attrs[k].name@ != n),
        find_attr_from(attrs, n, from) == attrs.len() ==> forall|k: int|
            from <= k < attrs.len() ==> attrs[k].name@ != n,
    decreases attrs.len() - from,
{
    if from < attrs.len() && attrs[from].name@ != n {
        lemma_find_attr_props(attrs, n, from + 1);
    }
}

/// Copies a vector of strings.
fn clone_string_vec(v: &Vec<String>) -> (r: Vec<String>)
    ensures
        r.deep_view() == v.deep_view(),
{
    let mut r: Vec<String> = Vec::new();
    let mut i: usize = 0;
    while i < v.len()
        invariant
            0 <= i <= v@.len(),
            r.deep_view() == v.deep_view().take(i as int),
        decreases v@.len() - i,
    {
        let ghost prev = r.deep_view();
        r.push(v[i].clone());
        proof {
            assert(r.deep_view() =~~= prev + seq![v@[i as int]@]);
            assert(v.deep_view().take(i + 1) =~~= v.deep_view().take(i as int) + seq![
                v.deep_view()[i as int],
            ]);
        }
        i += 1;
    }
    proof {
        assert(v.deep_view().take(v@.len() as int) =~~= v.deep_view());
    }
    r
}

/// Builds the argument vector of a Learner run.
fn learner_args_exec(s: &Suite, t: usize, ri: usize) -> (r: Vec<String>)
    requires
        t < s.tasks@.len(),
        ri < s.runners@.len(),
    ensures
        r.deep_view() == learner_args_of(s.runners@[ri as int], s.tasks@[t as int]),
{
    let mut r = clone_string_vec(&s.runners[ri].args);
    r.push(s.tasks[t].domain.clone());
    proof {
        assert(r.deep_view() =~~= s.runners@[ri as int].args.deep_view() + seq![
            s.tasks@[t as int].domain@,
        ]);
    }
    let ghost head = r.deep_view();
    let probs = &s.tasks[t].learn;
    let mut k: usize = 0;
    while k < probs.len()
        invariant
            0 <= k <= probs@.len(),
            r.deep_view() == head + probs.deep_view().take(k as int),
        decreases probs@.len() - k,
    {
        let ghost prev = r.deep_view();
        r.push(probs[k].clone());
        proof {
            assert(r.deep_view() =~~= prev + seq![probs@[k as int]@]);
            assert(probs.deep_view().take(k + 1) =~~= probs.deep_view().take(k as int) + seq![
                probs.deep_view()[k as int],
            ]);
        }
        k += 1;
    }
    proof {
        assert(probs.deep_view().take(probs@.len() as int) =~~= probs.deep_view());
        assert(r.deep_view() =~~= learner_args_of(s.runners@[ri as int], s.tasks@[t as int]));
    }
    r
}

/// Builds the argument vector of a Solver run; `dep_dir` is the directory of
/// the depended-upon Learner run, already resolved by the caller.
fn solver_args_exec(
    s: &Suite,
    t: usize,
    p: usize,
    ri: usize,
    dep_dir: Option<String>,
    Ghost(work): Ghost<Seq<char>>,
    Ghost(v): Ghost<int>,
) -> (r: Vec<String>)
    requires
        t < s.tasks@.len(),
        p < s.tasks@[t as int].solve@.len(),
        0 <= v < s.spec_solver_count(),
        ri == s.solver_indices()[v],
        ri < s.runners@.len(),
        s.solver_at(v).depends matches Some(d) ==> dep_dir matches Some(ds) && ds@ == run_dir(
            learn_dir_of(work),
            t * s.spec_learner_count() + find_learner_from(*s, d@, 0),
        ),
        s.solver_at(v).depends is None ==> dep_dir is None,
    ensures
        r.deep_view() == solver_args_of(*s, work, t as int, p as int, v),
{
    let mut r = clone_string_vec(&s.runners[ri].args);
    if let Some(ds) = dep_dir {
        let ghost prev = r.deep_view();
        r.push(ds);
        proof {
            assert(r.deep_view() =~~= prev + seq![
                run_dir(
                    learn_dir_of(work),
                    t * s.spec_learner_count() + find_learner_from(
                        *s,
                        s.solver_at(v).depends.unwrap()@,
                        0,
                    ),
                ),
            ]);
        }
    }
    r.push(s.tasks[t].domain.clone());
    r.push(s.tasks[t].solve[p].clone());
    proof {
        assert(r.deep_view() =~~= solver_args_of(*s, work, t as int, p as int, v));
    }
    r
}

/// Emits one Learner run per task and Learn runner, tasks outermost, with
/// directories numbered in emission order.
fn push_learners(
    s: &Suite,
    lidx: &Vec<usize>,
    learn_dir: &String,
    runs: &mut Vec<Run>,
    scripts: &mut Vec<String>,
    Ghost(work): Ghost<Seq<char>>,
)
    requires
        s.wf(),
        old(runs)@.len() == 0,
        old(scripts)@.len() == 0,
        lidx@.map_values(|x: usize| x as int) == s.learner_indices(),
        learn_dir@ == learn_dir_of(work),
    ensures
        final(runs)@.len() == s.tasks@.len() * s.spec_learner_count(),
        final(scripts)@.len() == final(runs)@.len(),
        forall|q: int|
            0 <= q < final(runs)@.len() ==> learner_run_ok(
                *s,
                work,
                #[trigger] final(runs)@[q],
                final(scripts)@[q]@,
                q,
            ),
{
    let ghost cl = s.spec_learner_count();
    proof {
        lemma_kind_indices_bounds(s.runners@, RunnerKind::Learn);
        lemma_learner_base_bound(*s);
    }
    let mut t: usize = 0;
    while t < s.tasks.len()
        invariant
            0 <= t <= s.tasks@.len(),
            s.wf(),
            cl == s.spec_learner_count(),
            lidx@.map_values(|x: usize| x as int) == s.learner_indices(),
            lidx@.len() == cl,
            learn_dir@ == learn_dir_of(work),
            forall|k: int|
                0 <= k < s.learner_indices().len() ==> 0 <= #[trigger] s.learner_indices()[k]
                    < s.runners@.len(),
            s.tasks@.len() * cl <= total_run_count(*s),
            runs@.len() == t * cl,
            scripts@.len() == runs@.len(),
            forall|q: int|
                0 <= q < runs@.len() ==> learner_run_ok(
                    *s,
                    work,
                    #[trigger] runs@[q],
                    scripts@[q]@,
                    q,
                ),
        decreases s.tasks@.len() - t,
    {
        let mut l: usize = 0;
        proof {
            lemma_mul_mono(t as int + 1, s.tasks@.len() as int, cl);
            lemma_mul_step(t as int, cl);
        }
        while l < lidx.len()
            invariant
                0 <= l <= cl,
                0 <= t < s.tasks@.len(),
                s.wf(),
                cl == s.spec_learner_count(),
                lidx@.map_values(|x: usize| x as int) == s.learner_indices(),
                lidx@.len() == cl,
                learn_dir@ == learn_dir_of(work),
                forall|k: int|
                    0 <= k < s.learner_indices().len() ==> 0 <= #[trigger] s.learner_indices()[k]
                        < s.runners@.len(),
                (t + 1) * cl <= total_run_count(*s),
                (t + 1) * cl == t * cl + cl,
                runs@.len() == t * cl + l,
                scripts@.len() == runs@.len(),
                forall|q: int|
                    0 <= q < runs@.len() ==> learner_run_ok(
                        *s,
                        work,
                        #[trigger] runs@[q],
                        scripts@[q]@,
                        q,
                    ),
            decreases lidx@.len() - l,
        {
            let p = runs.len();
            proof {
                assert(p as int == t * cl + l);
                assert(p < usize::MAX as int);
                lemma_mul_div_mod(t as int, l as int, cl);
            }
            let dir = make_run_dir(learn_dir, p);
            let exe = make_exe(&dir);
            let ri = lidx[l];
            proof {
                assert(s.learner_indices()[l as int] == ri as int);
                assert(s.learner_at(l as int) == s.runners@[ri as int]);
            }
            let args = learner_args_exec(s, t, ri);
            let script = script_content(
                s.runners[ri].path.as_str(),
                &args,
                s.time_limit_learn,
                s.memory_limit_learn,
            );
            let ghost old_runs = runs@;
            let ghost old_scripts = scripts@;
            runs.push(
                Run {
                    dir,
                    exe,
                    runner_index: l,
                    task_index: t,
                    kind: RunKind::Learner,
                    skip: false,
                },
            );
            scripts.push(script);
            proof {
                assert(learner_run_ok(*s, work, runs@[p as int], scripts@[p as int]@, p as int));
                assert forall|q: int|
                    0 <= q < runs@.len() implies learner_run_ok(
                    *s,
                    work,
                    #[trigger] runs@[q],
                    scripts@[q]@,
                    q,
                ) by {
                    if q < p {
                        assert(runs@[q] == old_runs[q]);
                        assert(scripts@[q] == old_scripts[q]);
                    }
                }
            }
            l += 1;
        }
        t += 1;
    }
    proof {
        lemma_mul_mono(t as int, s.tasks@.len() as int, cl);
    }
}

/// Every runner is a Learn or a Solve runner.
proof fn lemma_kind_partition(runners: Seq<crate::suite::Runner>)
    ensures
        kind_indices(runners, RunnerKind::Learn).len() + kind_indices(
            runners,
            RunnerKind::Solve,
        ).len() == runners.len(),
    decreases runners.len(),
{
    if runners.len() > 0 {
        lemma_kind_partition(runners.drop_last());
    }
}

/// Task `t`, problem `p`, solver `v` is a Solver run the plan holds.
pub open spec fn valid_triple(s: Suite, t: int, p: int, v: int) -> bool {
    &&& 0 <= t < s.tasks@.len()
    &&& 0 <= p < s.tasks@[t].solve@.len()
    &&& 0 <= v < s.spec_solver_count()
}

/// Emission order on Solver triples: tasks outermost, then problems, then
/// solvers.
pub open spec fn lex_before(t1: int, p1: int, v1: int, t2: int, p2: int, v2: int) -> bool {
    t1 < t2 || (t1 == t2 && (p1 < p2 || (p1 == p2 && v1 < v2)))
}

/// Earlier triples sit at earlier positions.
proof fn lemma_lex_slot_lt(s: Suite, t1: int, p1: int, v1: int, t2: int, p2: int, v2: int)
    requires
        valid_triple(s, t1, p1, v1),
        0 <= t2 <= s.tasks@.len(),
        0 <= p2,
        t2 < s.tasks@.len() ==> p2 <= s.tasks@[t2].solve@.len(),
        0 <= v2 <= s.spec_solver_count(),
        lex_before(t1, p1, v1, t2, p2, v2),
    ensures
        solver_slot(s, t1, p1, v1) < solver_slot(s, t2, p2, v2),
{
    let cs = s.spec_solver_count();
    if t1 < t2 {
        assert(sum_solve(s.tasks@, t1 + 1) == sum_solve(s.tasks@, t1) + s.tasks@[t1].solve@.len());
        lemma_sum_solve_monotone(s.tasks@, t1 + 1, t2);
        assert(sum_solve(s.tasks@, t1) + p1 < sum_solve(s.tasks@, t2) + p2);
        lemma_slot_step(sum_solve(s.tasks@, t1) + p1, sum_solve(s.tasks@, t2) + p2, cs, v1);
    } else if p1 < p2 {
        lemma_slot_step(sum_solve(s.tasks@, t1) + p1, sum_solve(s.tasks@, t2) + p2, cs, v1);
    }
}

/// What every Solver position of the plan satisfies, including the
/// dependency wiring: a resolved dependency points at a Learner run of the
/// same task, earlier in the list.
pub open spec fn solver_pos_ok(s: Suite, work: Seq<char>, runs: Seq<Run>, q: int) -> bool {
    let base = s.tasks@.len() * s.spec_learner_count();
    &&& runs[q].dir@ == run_dir(solve_dir_of(work), q - base)
    &&& runs[q].exe@ == exe_of(runs[q].dir@)
    &&& runs[q].skip == false
    &&& runs[q].task_index < s.tasks@.len()
    &&& s.spec_learner_count() <= runs[q].runner_index < s.spec_learner_count()
        + s.spec_solver_count()
    &&& runs[q].kind matches RunKind::Solver { problem_index: pi, depends: dep }
        && pi < s.tasks@[runs[q].task_index as int].solve@.len() && (dep matches Some(d) ==> d < base
        && runs[d as int].kind == RunKind::Learner && runs[d as int].task_index
            == runs[q].task_index)
}

/// Dependency wiring: a Solver run's resolved dependency always points at a
/// Learner run of the same task, earlier in the list.
pub proof fn lemma_solver_depends_wired(s: Suite, work: Seq<char>, runs: Seq<Run>, q: int)
    requires
        0 <= q < runs.len(),
        solver_pos_ok(s, work, runs, q),
        runs[q].kind matches RunKind::Solver { depends: Some(d), .. },
    ensures
        ({
            let d = (runs[q].kind)->depends.unwrap();
            &&& d < s.tasks@.len() * s.spec_learner_count()
            &&& runs[d as int].kind == RunKind::Learner
            &&& runs[d as int].task_index == runs[q].task_index
        }),
{
}

/// Emits the Solver runs: per task, per solve problem, per Solve runner,
/// after all Learner runs stand in the list.
fn push_solvers(
    s: &Suite,
    sidx: &Vec<usize>,
    lidx: &Vec<usize>,
    learn_dir: &String,
    solve_dir: &String,
    runs: &mut Vec<Run>,
    scripts: &mut Vec<String>,
    Ghost(work): Ghost<Seq<char>>,
)
    requires
        s.wf(),
        old(runs)@.len() == s.tasks@.len() * s.spec_learner_count(),
        old(scripts)@.len() == old(runs)@.len(),
        lidx@.map_values(|x: usize| x as int) == s.learner_indices(),
        sidx@.map_values(|x: usize| x as int) == s.solver_indices(),
        learn_dir@ == learn_dir_of(work),
        solve_dir@ == solve_dir_of(work),
        forall|q: int|
            0 <= q < old(runs)@.len() ==> learner_run_ok(
                *s,
                work,
                #[trigger] old(runs)@[q],
                old(scripts)@[q]@,
                q,
            ),
    ensures
        final(runs)@.len() == total_run_count(*s),
        final(scripts)@.len() == final(runs)@.len(),
        forall|q: int|
            0 <= q < old(runs)@.len() ==> final(runs)@[q] == old(runs)@[q] && final(scripts)@[q]
                == old(scripts)@[q],
        forall|q: int|
            old(runs)@.len() <= q < final(runs)@.len() ==> solver_pos_ok(
                *s,
                work,
                final(runs)@,
                q,
            ),
        forall|t1: int, p1: int, v1: int|
            valid_triple(*s, t1, p1, v1) ==> solver_run_ok(
                *s,
                work,
                final(runs)@[#[trigger] solver_slot(*s, t1, p1, v1)],
                final(scripts)@[solver_slot(*s, t1, p1, v1)]@,
                t1,
                p1,
                v1,
            ),
{
    let ghost cl = s.spec_learner_count();
    let ghost cs = s.spec_solver_count();
    let ghost base = s.tasks@.len() * cl;
    let ghost runs0 = runs@;
    let ghost scripts0 = scripts@;
    proof {
        lemma_kind_indices_bounds(s.runners@, RunnerKind::Learn);
        lemma_kind_indices_bounds(s.runners@, RunnerKind::Solve);
        lemma_learner_base_bound(*s);
        lemma_sum_solve_nonneg(s.tasks@, s.tasks@.len() as int);
    }
    let lcount = lidx.len();
    let scount = sidx.len();
    let n_runners = s.runners.len();
    proof {
        assert(s.runners@.len() <= usize::MAX as int);
    }
    let mut t: usize = 0;
    while t < s.tasks.len()
        invariant
            0 <= t <= s.tasks@.len(),
            s.wf(),
            cl == s.spec_learner_count(),
            cs == s.spec_solver_count(),
            base == s.tasks@.len() * cl,
            lcount == cl,
            scount == cs,
            lidx@.map_values(|x: usize| x as int) == s.learner_indices(),
            sidx@.map_values(|x: usize| x as int) == s.solver_indices(),
            learn_dir@ == learn_dir_of(work),
            solve_dir@ == solve_dir_of(work),
            forall|k: int|
                0 <= k < s.learner_indices().len() ==> 0 <= #[trigger] s.learner_indices()[k]
                    < s.runners@.len(),
            forall|k: int|
                0 <= k < s.solver_indices().len() ==> 0 <= #[trigger] s.solver_indices()[k]
                    < s.runners@.len(),
            base <= total_run_count(*s),
            s.runners@.len() <= usize::MAX as int,
            runs@.len() == base + sum_solve(s.tasks@, t as int) * cs,
            scripts@.len() == runs@.len(),
            runs0.len() == base,
            scripts0.len() == base,
            forall|q: int| 0 <= q < base ==> runs@[q] == runs0[q] && scripts@[q] == scripts0[q],
            forall|q: int|
                0 <= q < base ==> learner_run_ok(*s, work, #[trigger] runs@[q], scripts@[q]@, q),
            forall|q: int| base <= q < runs@.len() ==> solver_pos_ok(*s, work, runs@, q),
            forall|t1: int, p1: int, v1: int|
                valid_triple(*s, t1, p1, v1) && t1 < t ==> solver_run_ok(
                    *s,
                    work,
                    runs@[#[trigger] solver_slot(*s, t1, p1, v1)],
                    scripts@[solver_slot(*s, t1, p1, v1)]@,
                    t1,
                    p1,
                    v1,
                ),
        decreases s.tasks@.len() - t,
    {
        let n_probs = s.tasks[t].solve.len();
        let mut p: usize = 0;
        while p < n_probs
            invariant
                0 <= p <= n_probs,
                n_probs == s.tasks@[t as int].solve@.len(),
                0 <= t < s.tasks@.len(),
                s.wf(),
                cl == s.spec_learner_count(),
                cs == s.spec_solver_count(),
                base == s.tasks@.len() * cl,
                lcount == cl,
                scount == cs,
                lidx@.map_values(|x: usize| x as int) == s.learner_indices(),
                sidx@.map_values(|x: usize| x as int) == s.solver_indices(),
                learn_dir@ == learn_dir_of(work),
                solve_dir@ == solve_dir_of(work),
                forall|k: int|
                    0 <= k < s.learner_indices().len() ==> 0 <= #[trigger] s.learner_indices()[k]
                        < s.runners@.len(),
                forall|k: int|
                    0 <= k < s.solver_indices().len() ==> 0 <= #[trigger] s.solver_indices()[k]
                        < s.runners@.len(),
                base <= total_run_count(*s),
                s.runners@.len() <= usize::MAX as int,
                runs@.len() == base + (sum_solve(s.tasks@, t as int) + p) * cs,
                scripts@.len() == runs@.len(),
                runs0.len() == base,
                scripts0.len() == base,
                forall|q: int| 0 <= q < base ==> runs@[q] == runs0[q] && scripts@[q] == scripts0[q],
                forall|q: int|
                    0 <= q < base ==> learner_run_ok(
                        *s,
                        work,
                        #[trigger] runs@[q],
                        scripts@[q]@,
                        q,
                    ),
                forall|q: int| base <= q < runs@.len() ==> solver_pos_ok(*s, work, runs@, q),
                forall|t1: int, p1: int, v1: int|
                    valid_triple(*s, t1, p1, v1) && lex_before(
                        t1,
                        p1,
                        v1,
                        t as int,
                        p as int,
                        0,
                    ) ==> solver_run_ok(
                        *s,
                        work,
                        runs@[#[trigger] solver_slot(*s, t1, p1, v1)],
                        scripts@[solver_slot(*s, t1, p1, v1)]@,
                        t1,
                        p1,
                        v1,
                    ),
            decreases n_probs - p,
        {
            let mut v: usize = 0;
            while v < scount
                invariant
                    0 <= v <= cs,
                    0 <= p < n_probs,
                    n_probs == s.tasks@[t as int].solve@.len(),
                    0 <= t < s.tasks@.len(),
                    s.wf(),
                    cl == s.spec_learner_count(),
                    cs == s.spec_solver_count(),
                    base == s.tasks@.len() * cl,
                    lcount == cl,
                    scount == cs,
                    lidx@.map_values(|x: usize| x as int) == s.learner_indices(),
                    sidx@.map_values(|x: usize| x as int) == s.solver_indices(),
                    learn_dir@ == learn_dir_of(work),
                    solve_dir@ == solve_dir_of(work),
                    forall|k: int|
                        0 <= k < s.learner_indices().len() ==> 0 <= #[trigger] s.learner_indices()[k] < s.runners@.len(),
                    forall|k: int|
                        0 <= k < s.solver_indices().len() ==> 0 <= #[trigger] s.solver_indices()[k] < s.runners@.len(),
                    base <= total_run_count(*s),
                    s.runners@.len() <= usize::MAX as int,
                    runs@.len() == base + (sum_solve(s.tasks@, t as int) + p) * cs + v,
                    scripts@.len() == runs@.len(),
                    runs0.len() == base,
                    scripts0.len() == base,
                    forall|q: int|
                        0 <= q < base ==> runs@[q] == runs0[q] && scripts@[q] == scripts0[q],
                    forall|q: int|
                        0 <= q < base ==> learner_run_ok(
                            *s,
                            work,
                            #[trigger] runs@[q],
                            scripts@[q]@,
                            q,
                        ),
                    forall|q: int| base <= q < runs@.len() ==> solver_pos_ok(*s, work, runs@, q),
                    forall|t1: int, p1: int, v1: int|
                        valid_triple(*s, t1, p1, v1) && lex_before(
                            t1,
                            p1,
                            v1,
                            t as int,
                            p as int,
                            v as int,
                        ) ==> solver_run_ok(
                            *s,
                            work,
                            runs@[#[trigger] solver_slot(*s, t1, p1, v1)],
                            scripts@[solver_slot(*s, t1, p1, v1)]@,
                            t1,
                            p1,
                            v1,
                        ),
                decreases cs - v,
            {
                proof {
                    lemma_lex_slot_lt(
                        *s,
                        t as int,
                        p as int,
                        v as int,
                        s.tasks@.len() as int,
                        0,
                        0,
                    );
                    lemma_sum_solve_nonneg(s.tasks@, s.tasks@.len() as int);
                    assert(solver_slot(*s, t as int, p as int, v as int) < total_run_count(*s))
                        by {
                        assert(sum_solve(s.tasks@, s.tasks@.len() as int) * cs + 0 <= sum_solve(
                            s.tasks@,
                            s.tasks@.len() as int,
                        ) * cs);
                    }
                    assert(runs@.len() < total_run_count(*s) <= usize::MAX as int);
                    lemma_sum_solve_nonneg(s.tasks@, t as int);
                    assert(base >= 0 && (sum_solve(s.tasks@, t as int) + p) * cs >= 0)
                        by (nonlinear_arith)
                        requires
                            cl >= 0,
                            cs >= 0,
                            base == s.tasks@.len() * cl,
                            s.tasks@.len() >= 0,
                            sum_solve(s.tasks@, t as int) >= 0,
                            p >= 0,
                    ;
                    lemma_kind_partition(s.runners@);
                }
                let q = runs.len();
                let j = q - s.tasks.len() * lcount;
                proof {
                    assert(s.tasks@.len() * cl == base);
                    assert(j as int == (sum_solve(s.tasks@, t as int) + p) * cs + v);
                }
                let dir = make_run_dir(solve_dir, j);
                let exe = make_exe(&dir);
                let ri = sidx[v];
                proof {
                    assert(s.solver_indices()[v as int] == ri as int);
                    assert(s.solver_at(v as int) == s.runners@[ri as int]);
                }
                let dep: Option<usize> = match &s.runners[ri].depends {
                    Some(d) => {
                        proof {
                            assert(!crate::suite::depends_bad_at(*s, ri as int));
                            lemma_depends_resolves(*s, d@);
                            lemma_slot_step(t as int, s.tasks@.len() as int, cl, find_learner_from(*s, d@, 0));
                        }
                        let fl = find_learner(s, lidx, d.as_str());
                        Some(t * lcount + fl)
                    },
                    None => None,
                };
                let dep_dir: Option<String> = match dep {
                    Some(d) => Some(make_run_dir(learn_dir, d)),
                    None => None,
                };
                proof {
                    assert(dep == dep_of(*s, t as int, v as int));
                }
                let args = solver_args_exec(
                    s,
                    t,
                    p,
                    ri,
                    dep_dir,
                    Ghost(work),
                    Ghost(v as int),
                );
                let script = script_content(
                    s.runners[ri].path.as_str(),
                    &args,
                    s.time_limit_solve,
                    s.memory_limit_solve,
                );
                let ghost old_runs = runs@;
                let ghost old_scripts = scripts@;
                runs.push(
                    Run {
                        dir,
                        exe,
                        runner_index: lcount + v,
                        task_index: t,
                        kind: RunKind::Solver { problem_index: p, depends: dep },
                        skip: false,
                    },
                );
                scripts.push(script);
                proof {
                    lemma_kind_partition(s.runners@);
                    assert(runs@[q as int].kind == RunKind::Solver {
                        problem_index: p,
                        depends: dep_of(*s, t as int, v as int),
                    });
                    match dep {
                        Some(d) => {
                            lemma_mul_div_mod(
                                t as int,
                                find_learner_from(
                                    *s,
                                    s.solver_at(v as int).depends.unwrap()@,
                                    0,
                                ),
                                cl,
                            );
                            assert(learner_run_ok(
                                *s,
                                work,
                                runs@[d as int],
                                scripts@[d as int]@,
                                d as int,
                            ));
                        },
                        None => {},
                    }
                    assert(solver_pos_ok(*s, work, runs@, q as int));
                    assert(solver_run_ok(
                        *s,
                        work,
                        runs@[q as int],
                        scripts@[q as int]@,
                        t as int,
                        p as int,
                        v as int,
                    ));
                    assert(solver_slot(*s, t as int, p as int, v as int) == q as int);
                    assert forall|q1: int| base <= q1 < runs@.len() implies solver_pos_ok(
                        *s,
                        work,
                        runs@,
                        q1,
                    ) by {
                        if q1 < q {
                            assert(solver_pos_ok(*s, work, old_runs, q1));
                            assert(runs@[q1] == old_runs[q1]);
                        }
                    }
                    assert forall|t1: int, p1: int, v1: int|
                        valid_triple(*s, t1, p1, v1) && lex_before(
                            t1,
                            p1,
                            v1,
                            t as int,
                            p as int,
                            v + 1,
                        ) implies solver_run_ok(
                        *s,
                        work,
                        runs@[#[trigger] solver_slot(*s, t1, p1, v1)],
                        scripts@[solver_slot(*s, t1, p1, v1)]@,
                        t1,
                        p1,
                        v1,
                    ) by {
                        if lex_before(t1, p1, v1, t as int, p as int, v as int) {
                            lemma_lex_slot_lt(*s, t1, p1, v1, t as int, p as int, v as int);
                            lemma_sum_solve_nonneg(s.tasks@, t1);
                            assert((sum_solve(s.tasks@, t1) + p1) * cs + v1 >= 0)
                                by (nonlinear_arith)
                                requires
                                    cs >= 0,
                                    sum_solve(s.tasks@, t1) >= 0,
                                    p1 >= 0,
                                    v1 >= 0,
                            ;
                            assert(runs@[solver_slot(*s, t1, p1, v1)] == old_runs[solver_slot(
                                *s,
                                t1,
                                p1,
                                v1,
                            )]);
                            assert(scripts@[solver_slot(*s, t1, p1, v1)] == old_scripts[solver_slot(
                                *s,
                                t1,
                                p1,
                                v1,
                            )]);
                        }
                    }
                }
                v += 1;
            }
            proof {
                lemma_mul_step(sum_solve(s.tasks@, t as int) + p, cs);
            }
            p += 1;
        }
        proof {
            assert(sum_solve(s.tasks@, t + 1) == sum_solve(s.tasks@, t as int)
                + s.tasks@[t as int].solve@.len());
        }
        t += 1;
    }
}

/// Each problem path reduced to its file stem.
pub open spec fn stems_of(ps: Seq<Seq<char>>) -> Seq<Seq<char>> {
    ps.map_values(|p: Seq<char>| stem_of(p))
}

/// Reduces each path to its file stem.
fn stems_exec(v: &Vec<String>) -> (r: Vec<String>)
    ensures
        r.deep_view() == stems_of(v.deep_view()),
{
    let mut r: Vec<String> = Vec::new();
    let mut i: usize = 0;
    while i < v.len()
        invariant
            0 <= i <= v@.len(),
            r.deep_view() == stems_of(v.deep_view()).take(i as int),
        decreases v@.len() - i,
    {
        let ghost prev = r.deep_view();
        r.push(file_stem(v[i].as_str()));
        proof {
            assert(r.deep_view() =~~= prev + seq![stem_of(v@[i as int]@)]);
            assert(stems_of(v.deep_view()).take(i + 1) =~~= stems_of(v.deep_view()).take(i as int)
                + seq![stems_of(v.deep_view())[i as int]]);
            assert(stems_of(v.deep_view())[i as int] == stem_of(v@[i as int]@));
        }
        i += 1;
    }
    proof {
        assert(stems_of(v.deep_view()).take(v@.len() as int) =~~= stems_of(v.deep_view()));
    }
    r
}

/// Resolves a runner's attribute name to the index of the first declared
/// attribute set bearing it.
fn resolve_attr(s: &Suite, ri: usize) -> (r: Option<usize>)
    requires
        ri < s.runners@.len(),
        !crate::suite::attr_bad_at(*s, ri as int),
    ensures
        r == attr_resolved(*s, s.runners@[ri as int]),
        r matches Some(a) ==> a < s.attributes@.len(),
{
    match &s.runners[ri].attribute {
        Some(a) => {
            proof {
                lemma_find_attr_props(s.attributes@, a@, 0);
            }
            match s.find_attribute(a.as_str()) {
                Some(j) => {
                    proof {
                        let f = find_attr_from(s.attributes@, a@, 0);
                        if f < s.attributes@.len() {
                            if f < j {
                                assert(s.attributes@[f].name@ != a@);
                            }
                            if j < f {
                                assert(s.attributes@[j as int].name@ != a@);
                            }
                        } else {
                            assert(s.attributes@[j as int].name@ != a@);
                        }
                    }
                    Some(j)
                },
                None => {
                    // a validated suite declares every attribute a runner
                    // names, so the lookup cannot fail
                    proof {
                        assert(false);
                    }
                    None
                },
            }
        },
        None => None,
    }
}

/// Builds the instance's runner table: the Learn runners in declaration
/// order, then the Solve runners, each with its attribute resolved.
fn build_runner_table(s: &Suite, lidx: &Vec<usize>, sidx: &Vec<usize>) -> (r: Vec<Runner>)
    requires
        s.wf(),
        lidx@.map_values(|x: usize| x as int) == s.learner_indices(),
        sidx@.map_values(|x: usize| x as int) == s.solver_indices(),
    ensures
        r@.len() == s.spec_learner_count() + s.spec_solver_count(),
        forall|l: int|
            0 <= l < s.spec_learner_count() ==> (#[trigger] r@[l]).name@ == s.learner_at(l).name@
                && r@[l].kind == RunnerKind::Learn && r@[l].attribute == attr_resolved(
                *s,
                s.learner_at(l),
            ),
        forall|v: int|
            0 <= v < s.spec_solver_count() ==> (#[trigger] r@[s.spec_learner_count() + v]).name@
                == s.solver_at(v).name@ && r@[s.spec_learner_count() + v].kind == RunnerKind::Solve
                && r@[s.spec_learner_count() + v].attribute == attr_resolved(*s, s.solver_at(v)),
        forall|i: int|
            0 <= i < r@.len() ==> ((#[trigger] r@[i]).attribute matches Some(a) ==> a
                < s.attributes@.len()),
{
    proof {
        lemma_kind_indices_bounds(s.runners@, RunnerKind::Learn);
        lemma_kind_indices_bounds(s.runners@, RunnerKind::Solve);
    }
    let mut r: Vec<Runner> = Vec::new();
    let mut l: usize = 0;
    while l < lidx.len()
        invariant
            0 <= l <= s.spec_learner_count(),
            s.wf(),
            lidx@.map_values(|x: usize| x as int) == s.learner_indices(),
            lidx@.len() == s.spec_learner_count(),
            forall|k: int|
                0 <= k < s.learner_indices().len() ==> 0 <= #[trigger] s.learner_indices()[k]
                    < s.runners@.len(),
            r@.len() == l,
            forall|k: int|
                0 <= k < l ==> (#[trigger] r@[k]).name@ == s.learner_at(k).name@ && r@[k].kind
                    == RunnerKind::Learn && r@[k].attribute == attr_resolved(*s, s.learner_at(k)),
            forall|i: int|
                0 <= i < r@.len() ==> ((#[trigger] r@[i]).attribute matches Some(a) ==> a
                    < s.attributes@.len()),
        decreases lidx@.len() - l,
    {
        let ri = lidx[l];
        proof {
            assert(s.learner_indices()[l as int] == ri as int);
        }
        let attribute = resolve_attr(s, ri);
        r.push(
            Runner { name: s.runners[ri].name.clone(), attribute, kind: RunnerKind::Learn },
        );
        l += 1;
    }
    let ghost cl = s.spec_learner_count();
    let mut v: usize = 0;
    while v < sidx.len()
        invariant
            0 <= v <= s.spec_solver_count(),
            s.wf(),
            cl == s.spec_learner_count(),
            sidx@.map_values(|x: usize| x as int) == s.solver_indices(),
            sidx@.len() == s.spec_solver_count(),
            forall|k: int|
                0 <= k < s.solver_indices().len() ==> 0 <= #[trigger] s.solver_indices()[k]
                    < s.runners@.len(),
            r@.len() == cl + v,
            forall|k: int|
                0 <= k < cl ==> (#[trigger] r@[k]).name@ == s.learner_at(k).name@ && r@[k].kind
                    == RunnerKind::Learn && r@[k].attribute == attr_resolved(*s, s.learner_at(k)),
            forall|k: int|
                0 <= k < v ==> (#[trigger] r@[cl + k]).name@ == s.solver_at(k).name@ && r@[cl
                    + k].kind == RunnerKind::Solve && r@[cl + k].attribute == attr_resolved(
                    *s,
                    s.solver_at(k),
                ),
            forall|i: int|
                0 <= i < r@.len() ==> ((#[trigger] r@[i]).attribute matches Some(a) ==> a
                    < s.attributes@.len()),
        decreases sidx@.len() - v,
    {
        let ri = sidx[v];
        proof {
            assert(s.solver_indices()[v as int] == ri as int);
        }
        let attribute = resolve_attr(s, ri);
        r.push(
            Runner { name: s.runners[ri].name.clone(), attribute, kind: RunnerKind::Solve },
        );
        v += 1;
    }
    r
}

/// Builds the instance's task table: names and domains kept, problems
/// reduced to their stems.
fn build_task_table(s: &Suite) -> (r: Vec<Task>)
    ensures
        r@.len() == s.tasks@.len(),
        forall|t: int|
            0 <= t < s.tasks@.len() ==> (#[trigger] r@[t]).name@ == s.tasks@[t].name@
                && r@[t].domain@ == s.tasks@[t].domain@ && r@[t].learn.deep_view() == stems_of(
                s.tasks@[t].learn.deep_view(),
            ) && r@[t].solve.deep_view() == stems_of(s.tasks@[t].solve.deep_view()),
{
    let mut r: Vec<Task> = Vec::new();
    let mut t: usize = 0;
    while t < s.tasks.len()
        invariant
            0 <= t <= s.tasks@.len(),
            r@.len() == t,
            forall|k: int|
                0 <= k < t ==> (#[trigger] r@[k]).name@ == s.tasks@[k].name@ && r@[k].domain@
                    == s.tasks@[k].domain@ && r@[k].learn.deep_view() == stems_of(
                    s.tasks@[k].learn.deep_view(),
                ) && r@[k].solve.deep_view() == stems_of(s.tasks@[k].solve.deep_view()),
        decreases s.tasks@.len() - t,
    {
        let learn = stems_exec(&s.tasks[t].learn);
        let solve = stems_exec(&s.tasks[t].solve);
        r.push(
            Task {
                name: s.tasks[t].name.clone(),
                domain: s.tasks[t].domain.clone(),
                learn,
                solve,
            },
        );
        t += 1;
    }
    r
}

proof fn lemma_div_bound(q: int, t: int, cl: int)
    requires
        0 <= q < t * cl,
        cl > 0,
    ensures
        0 <= q / cl < t,
        0 <= q % cl < cl,
{
    assert(0 <= q / cl < t && 0 <= q % cl < cl) by (nonlinear_arith)
        requires
            0 <= q < t * cl,
            cl > 0,
    ;
}

/// Expands the validated suite into an instance: the ordered run list with
/// wired dependencies, the text of each run's `runner.sh`, and the flattened
/// runner and task tables.  Learner runs come first, tasks outermost; Solver
/// runs follow, per task, per solve problem, per Solve runner.
pub fn generate(suite: Suite, work_dir: &str) -> (inst: Instance)
    requires
        suite.wf(),
    ensures
        inst.wf(),
        inst.learn_dir@ == learn_dir_of(work_dir@),
        inst.solve_dir@ == solve_dir_of(work_dir@),
        inst.learn_mem_limit == suite.memory_limit_learn,
        inst.solve_mem_limit == suite.memory_limit_solve,
        inst.attributes@ == suite.attributes@,
        inst.runners@.len() == suite.spec_learner_count() + suite.spec_solver_count(),
        forall|l: int|
            0 <= l < suite.spec_learner_count() ==> (#[trigger] inst.runners@[l]).name@
                == suite.learner_at(l).name@ && inst.runners@[l].kind == RunnerKind::Learn
                && inst.runners@[l].attribute == attr_resolved(suite, suite.learner_at(l)),
        forall|v: int|
            0 <= v < suite.spec_solver_count() ==> (#[trigger] inst.runners@[suite.spec_learner_count() + v]).name@ == suite.solver_at(v).name@
                && inst.runners@[suite.spec_learner_count() + v].kind == RunnerKind::Solve
                && inst.runners@[suite.spec_learner_count() + v].attribute == attr_resolved(
                suite,
                suite.solver_at(v),
            ),
        inst.tasks@.len() == suite.tasks@.len(),
        forall|t: int|
            0 <= t < suite.tasks@.len() ==> (#[trigger] inst.tasks@[t]).name@
                == suite.tasks@[t].name@ && inst.tasks@[t].domain@ == suite.tasks@[t].domain@
                && inst.tasks@[t].learn.deep_view() == stems_of(suite.tasks@[t].learn.deep_view())
                && inst.tasks@[t].solve.deep_view() == stems_of(suite.tasks@[t].solve.deep_view()),
        inst.runs@.len() == total_run_count(suite),
        inst.scripts@.len() == inst.runs@.len(),
        forall|q: int|
            0 <= q < suite.tasks@.len() * suite.spec_learner_count() ==> learner_run_ok(
                suite,
                work_dir@,
                #[trigger] inst.runs@[q],
                inst.scripts@[q]@,
                q,
            ),
        forall|q: int|
            suite.tasks@.len() * suite.spec_learner_count() <= q < inst.runs@.len()
                ==> solver_pos_ok(suite, work_dir@, inst.runs@, q),
        forall|t1: int, p1: int, v1: int|
            valid_triple(suite, t1, p1, v1) ==> solver_run_ok(
                suite,
                work_dir@,
                inst.runs@[#[trigger] solver_slot(suite, t1, p1, v1)],
                inst.scripts@[solver_slot(suite, t1, p1, v1)]@,
                t1,
                p1,
                v1,
            ),
{
    let ghost work = work_dir@;
    let ghost cl = suite.spec_learner_count();
    let ghost cs = suite.spec_solver_count();
    let ghost base = suite.tasks@.len() * cl;
    let mut learn_dir = work_dir.to_owned();
    learn_dir.append("/learn");
    let mut solve_dir = work_dir.to_owned();
    solve_dir.append("/solve");
    let lidx = suite.kind_index_vec(RunnerKind::Learn);
    let sidx = suite.kind_index_vec(RunnerKind::Solve);
    let mut runs: Vec<Run> = Vec::new();
    let mut scripts: Vec<String> = Vec::new();
    push_learners(&suite, &lidx, &learn_dir, &mut runs, &mut scripts, Ghost(work));
    push_solvers(
        &suite,
        &sidx,
        &lidx,
        &learn_dir,
        &solve_dir,
        &mut runs,
        &mut scripts,
        Ghost(work),
    );
    let runners = build_runner_table(&suite, &lidx, &sidx);
    let tasks = build_task_table(&suite);
    let inst = Instance {
        learn_dir,
        solve_dir,
        learn_mem_limit: suite.memory_limit_learn,
        solve_mem_limit: suite.memory_limit_solve,
        runners,
        tasks,
        attributes: suite.attributes,
        runs,
        scripts,
    };
    proof {
        lemma_learner_base_bound(suite);
        assert forall|q: int| 0 <= q < inst.runs@.len() implies (#[trigger] inst.runs@[q]).runner_index
            < inst.runners@.len() && inst.runs@[q].task_index < inst.tasks@.len() && (
        inst.runs@[q].kind matches RunKind::Solver { problem_index: p, depends: dep } ==> p
            < inst.tasks@[inst.runs@[q].task_index as int].solve@.len() && (dep matches Some(d)
            ==> d < inst.runs@.len())) by {
            if q < base {
                assert(learner_run_ok(suite, work, inst.runs@[q], inst.scripts@[q]@, q));
                assert(base > 0);
                assert(cl > 0) by (nonlinear_arith)
                    requires
                        base == suite.tasks@.len() * cl,
                        base > 0,
                        cl >= 0,
                ;
                lemma_div_bound(q, suite.tasks@.len() as int, cl);
            } else {
                assert(solver_pos_ok(suite, work, inst.runs@, q));
                let ti = inst.runs@[q].task_index as int;
                assert(inst.tasks@[ti].solve.deep_view() == stems_of(
                    suite.tasks@[ti].solve.deep_view(),
                ));
                assert(inst.tasks@[ti].solve@.len() == suite.tasks@[ti].solve@.len()) by {
                    assert(inst.tasks@[ti].solve.deep_view().len() == inst.tasks@[
                        ti
                    ].solve@.len());
                }
            }
        }
    }
    inst
}

/// Whether a run of the given kind is skipped on resume: a prior exit code
/// must be on disk, forcing learn re-runs everything, and forcing solve
/// re-runs every Solver.
pub open spec fn skip_expected(kind: RunKind, present: bool, force_learn: bool, force_solve: bool) -> bool {
    present && (match kind {
        RunKind::Learner => !force_learn,
        RunKind::Solver { .. } => !force_learn && !force_solve,
    })
}

/// The resume rules: forcing learn re-runs everything; a run without a
/// prior exit code always re-runs; with a full prior tree and no force flag
/// nothing re-runs; forcing only solve skips exactly the Learners.
pub proof fn lemma_skip_rules(kind: RunKind, present: bool, force_learn: bool, force_solve: bool)
    ensures
        force_learn ==> !skip_expected(kind, present, force_learn, force_solve),
        !present ==> !skip_expected(kind, present, force_learn, force_solve),
        present && !force_learn && !force_solve ==> skip_expected(
            kind,
            present,
            force_learn,
            force_solve,
        ),
        present && !force_learn && force_solve ==> (skip_expected(
            kind,
            present,
            force_learn,
            force_solve,
        ) <==> kind is Learner),
{
}

/// Marks the runs of a reused working tree that need not run again:
/// `present[q]` says whether run `q`'s `exit_code` file exists.
pub fn mark_skips(inst: &mut Instance, present: &Vec<bool>, force_learn: bool, force_solve: bool)
    requires
        present@.len() == old(inst).runs@.len(),
    ensures
        final(inst).runs@.len() == old(inst).runs@.len(),
        forall|q: int|
            0 <= q < final(inst).runs@.len() ==> {
                let old_run = old(inst).runs@[q];
                let new_run = #[trigger] final(inst).runs@[q];
                new_run.dir == old_run.dir && new_run.exe == old_run.exe && new_run.runner_index
                    == old_run.runner_index && new_run.task_index == old_run.task_index
                    && new_run.kind == old_run.kind && new_run.skip == skip_expected(
                    old_run.kind,
                    present@[q],
                    force_learn,
                    force_solve,
                )
            },
        final(inst).learn_dir == old(inst).learn_dir,
        final(inst).solve_dir == old(inst).solve_dir,
        final(inst).learn_mem_limit == old(inst).learn_mem_limit,
        final(inst).solve_mem_limit == old(inst).solve_mem_limit,
        final(inst).runners == old(inst).runners,
        final(inst).tasks == old(inst).tasks,
        final(inst).attributes == old(inst).attributes,
        final(inst).scripts == old(inst).scripts,
        old(inst).wf() ==> final(inst).wf(),
{
    let n = inst.runs.len();
    let mut q: usize = 0;
    while q < n
        invariant
            0 <= q <= n,
            n == inst.runs@.len(),
            present@.len() == n,
            inst.runs@.len() == old(inst).runs@.len(),
            forall|k: int| q <= k < n ==> inst.runs@[k] == old(inst).runs@[k],
            forall|k: int|
                0 <= k < q ==> {
                    let old_run = old(inst).runs@[k];
                    let new_run = #[trigger] inst.runs@[k];
                    new_run.dir == old_run.dir && new_run.exe == old_run.exe
                        && new_run.runner_index == old_run.runner_index && new_run.task_index
                        == old_run.task_index && new_run.kind == old_run.kind && new_run.skip
                        == skip_expected(old_run.kind, present@[k], force_learn, force_solve)
                },
            inst.learn_dir == old(inst).learn_dir,
            inst.solve_dir == old(inst).solve_dir,
            inst.learn_mem_limit == old(inst).learn_mem_limit,
            inst.solve_mem_limit == old(inst).solve_mem_limit,
            inst.runners == old(inst).runners,
            inst.tasks == old(inst).tasks,
            inst.attributes == old(inst).attributes,
            inst.scripts == old(inst).scripts,
        decreases n - q,
    {
        let has_code = present[q];
        let skip = has_code && (match inst.runs[q].kind {
            RunKind::Learner => !force_learn,
            RunKind::Solver { .. } => !force_learn && !force_solve,
        });
        let run = &mut inst.runs[q];
        run.skip = skip;
        q += 1;
    }
}

/// A path strictly below the directory `w`.
pub open spec fn strict_descendant(d: Seq<char>, w: Seq<char>) -> bool {
    d.len() > w.len() + 1 && d.take(w.len() as int) == w && d[w.len() as int] == '/'
}

/// Every planned run directory is unique and lies strictly below the
/// working directory.
pub proof fn lemma_run_dirs_unique(work: Seq<char>, runs: Seq<Run>, base: int)
    requires
        0 <= base <= runs.len(),
        forall|q: int| 0 <= q < base ==> (#[trigger] runs[q].dir)@ == run_dir(
            learn_dir_of(work),
            q,
        ),
        forall|q: int|
            base <= q < runs.len() ==> (#[trigger] runs[q].dir)@ == run_dir(
                solve_dir_of(work),
                q - base,
            ),
    ensures
        forall|i: int, j: int|
            0 <= i < j < runs.len() ==> (#[trigger] runs[i].dir)@ != (#[trigger] runs[j].dir)@,
        forall|i: int| 0 <= i < runs.len() ==> strict_descendant((#[trigger] runs[i].dir)@, work),
{
    reveal_strlit("/learn");
    reveal_strlit("/solve");
    assert forall|i: int| 0 <= i < runs.len() implies strict_descendant(
        (#[trigger] runs[i].dir)@,
        work,
    ) by {
        if i < base {
            crate::text::lemma_dec_of_len(i as nat);
            assert(runs[i].dir@.take(work.len() as int) =~= work);
        } else {
            crate::text::lemma_dec_of_len((i - base) as nat);
            assert(runs[i].dir@.take(work.len() as int) =~= work);
        }
    }
    assert forall|i: int, j: int| 0 <= i < j < runs.len() implies (#[trigger] runs[i].dir)@ != (
    #[trigger] runs[j].dir)@ by {
        let wl = work.len() as int;
        if i < base && j < base {
            if runs[i].dir@ == runs[j].dir@ {
                assert(dec_of(i as nat) =~= runs[i].dir@.skip(wl + 7));
                assert(dec_of(j as nat) =~= runs[j].dir@.skip(wl + 7));
                crate::text::lemma_dec_of_injective(i as nat, j as nat);
            }
        } else if base <= i && base <= j {
            if runs[i].dir@ == runs[j].dir@ {
                assert(dec_of((i - base) as nat) =~= runs[i].dir@.skip(wl + 7));
                assert(dec_of((j - base) as nat) =~= runs[j].dir@.skip(wl + 7));
                crate::text::lemma_dec_of_injective((i - base) as nat, (j - base) as nat);
            }
        } else {
            assert(runs[i].dir@[wl + 1] == "/learn"@[1]);
            assert(runs[j].dir@[wl + 1] == "/solve"@[1]);
            assert("/learn"@[1] == 'l');
            assert("/solve"@[1] == 's');
        }
    }
}

} // verus!
