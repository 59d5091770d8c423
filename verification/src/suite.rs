//! The declarative suite: runners, attribute sets and tasks, with the
//! validity conditions the planner relies on.

use crate::pattern::Attribute;
use crate::text::str_eq;
use vstd::prelude::*;

verus! {

/// Whether a runner learns or solves.
#[derive(Clone, Copy, PartialEq, Eq, Structural, Debug)]
pub enum RunnerKind {
    Learn,
    Solve,
}

/// A named external executable with a fixed argument prefix.
pub struct Runner {
    pub name: String,
    pub path: String,
    pub kind: RunnerKind,
    pub args: Vec<String>,
    pub depends: Option<String>,
    pub attribute: Option<String>,
}

/// A named problem family: one domain file, a learn problem set and a solve
/// problem set.
pub struct Task {
    pub name: String,
    pub domain: String,
    pub learn: Vec<String>,
    pub solve: Vec<String>,
}

/// The declarative description of an experiment.
pub struct Suite {
    pub time_limit_learn: Option<u64>,
    pub time_limit_solve: Option<u64>,
    pub memory_limit_learn: Option<u64>,
    pub memory_limit_solve: Option<u64>,
    pub runners: Vec<Runner>,
    pub attributes: Vec<Attribute>,
    pub tasks: Vec<Task>,
}

/// The indices of the runners of the given kind, in declaration order.
pub open spec fn kind_indices(runners: Seq<Runner>, kind: RunnerKind) -> Seq<int>
    decreases runners.len(),
{
    if runners.len() == 0 {
        Seq::<int>::empty()
    } else {
        let front = kind_indices(runners.drop_last(), kind);
        if runners.last().kind == kind {
            front + seq![runners.len() - 1]
        } else {
            front
        }
    }
}

pub proof fn lemma_kind_indices_bounds(runners: Seq<Runner>, kind: RunnerKind)
    ensures
        forall|l: int|
            0 <= l < kind_indices(runners, kind).len() ==> 0 <= #[trigger] kind_indices(
                runners,
                kind,
            )[l] < runners.len(),
    decreases runners.len(),
{
    if runners.len() > 0 {
        lemma_kind_indices_bounds(runners.drop_last(), kind);
        let front = kind_indices(runners.drop_last(), kind);
        let whole = kind_indices(runners, kind);
        assert forall|l: int| 0 <= l < whole.len() implies 0 <= #[trigger] whole[l]
            < runners.len() by {
            if l < front.len() {
                assert(whole[l] == front[l]);
            }
        }
    }
}

impl Suite {
    /// The indices of the Learn runners.
    pub open spec fn learner_indices(self) -> Seq<int> {
        kind_indices(self.runners@, RunnerKind::Learn)
    }

    /// The indices of the Solve runners.
    pub open spec fn solver_indices(self) -> Seq<int> {
        kind_indices(self.runners@, RunnerKind::Solve)
    }

    /// How many Learn runners the suite declares.
    pub open spec fn spec_learner_count(self) -> int {
        self.learner_indices().len() as int
    }

    /// How many Solve runners the suite declares.
    pub open spec fn spec_solver_count(self) -> int {
        self.solver_indices().len() as int
    }

    /// The `l`-th Learn runner.
    pub open spec fn learner_at(self, l: int) -> Runner {
        self.runners@[self.learner_indices()[l]]
    }

    /// The `v`-th Solve runner.
    pub open spec fn solver_at(self, v: int) -> Runner {
        self.runners@[self.solver_indices()[v]]
    }

    /// Every `depends` names a declared Learn runner.
    pub open spec fn depends_ok(self) -> bool {
        forall|i: int| 0 <= i < self.runners@.len() ==> !depends_bad_at(self, i)
    }

    /// Every `attribute` names a declared attribute set.
    pub open spec fn attributes_ok(self) -> bool {
        forall|i: int| 0 <= i < self.runners@.len() ==> !attr_bad_at(self, i)
    }

    /// Each task has the problems the declared runners need.
    pub open spec fn tasks_ok(self) -> bool {
        forall|t: int|
            0 <= t < self.tasks@.len() ==> !task_bad_learn(self, t) && !task_bad_solve(self, t)
                && !task_bad_none(self, t)
    }

    /// The planned run count and the limit arithmetic stay within machine
    /// bounds.
    pub open spec fn sizes_ok(self) -> bool {
        &&& total_run_count(self) <= usize::MAX as int
        &&& (self.memory_limit_learn matches Some(m) ==> m <= u64::MAX / 1000)
        &&& (self.memory_limit_solve matches Some(m) ==> m <= u64::MAX / 1000)
    }

    /// A validated suite: what `validate` accepts and the planner requires.
    pub open spec fn wf(self) -> bool {
        self.depends_ok() && self.attributes_ok() && self.tasks_ok() && self.sizes_ok()
    }
}

/// Runner `i` declares a dependency that no Learn runner satisfies.
pub open spec fn depends_bad_at(s: Suite, i: int) -> bool {
    s.runners@[i].depends matches Some(d) && !(exists|j: int|
        0 <= j < s.runners@.len() && s.runners@[j].kind == RunnerKind::Learn
            && s.runners@[j].name@ == d@)
}

/// Runner `i` names an attribute set that is not declared.
pub open spec fn attr_bad_at(s: Suite, i: int) -> bool {
    s.runners@[i].attribute matches Some(a) && !(exists|j: int|
        0 <= j < s.attributes@.len() && s.attributes@[j].name@ == a@)
}

/// Task `t` has no learn problems although a Learn runner exists.
pub open spec fn task_bad_learn(s: Suite, t: int) -> bool {
    s.tasks@[t].learn@.len() == 0 && s.spec_learner_count() > 0
}

/// Task `t` has no solve problems although a Solve runner exists.
pub open spec fn task_bad_solve(s: Suite, t: int) -> bool {
    s.tasks@[t].solve@.len() == 0 && s.spec_solver_count() > 0
}

/// Task `t` has no problems at all.
pub open spec fn task_bad_none(s: Suite, t: int) -> bool {
    s.tasks@[t].learn@.len() == 0 && s.tasks@[t].solve@.len() == 0
}

/// The solve problems of the first `n` tasks, counted together.
pub open spec fn sum_solve(tasks: Seq<Task>, n: int) -> int
    decreases n,
{
    if n <= 0 {
        0
    } else {
        sum_solve(tasks, n - 1) + tasks[n - 1].solve@.len()
    }
}

/// The learn problems of the first `n` tasks, counted together.
pub open spec fn sum_learn(tasks: Seq<Task>, n: int) -> int
    decreases n,
{
    if n <= 0 {
        0
    } else {
        sum_learn(tasks, n - 1) + tasks[n - 1].learn@.len()
    }
}

/// How many runs the planner will emit for the suite.
pub open spec fn total_run_count(s: Suite) -> int {
    s.tasks@.len() * s.spec_learner_count() + sum_solve(s.tasks@, s.tasks@.len() as int)
        * s.spec_solver_count()
}

/// Why a suite was rejected.
#[derive(Clone, Copy, PartialEq, Eq, Structural, Debug)]
pub enum SuiteError {
    /// The runner's `depends` names no declared Learn runner.
    BadDepends { runner: usize },
    /// The runner's `attribute` names no declared attribute set.
    BadAttribute { runner: usize },
    /// The task has no learn problems although a Learn runner exists.
    NoLearnProblems { task: usize },
    /// The task has no solve problems although a Solve runner exists.
    NoSolveProblems { task: usize },
    /// The task has no problems at all.
    NoProblems { task: usize },
    /// The planned run count or a limit exceeds what the machine can hold.
    TooLarge,
}

impl Suite {
    /// The indices of the runners of the given kind, in declaration order.
    pub fn kind_index_vec(&self, kind: RunnerKind) -> (r: Vec<usize>)
        ensures
            r@.map_values(|x: usize| x as int) == kind_indices(self.runners@, kind),
    {
        let ghost whole = kind_indices(self.runners@, kind);
        let mut r: Vec<usize> = Vec::new();
        let mut i: usize = 0;
        while i < self.runners.len()
            invariant
                0 <= i <= self.runners@.len(),
                r@.map_values(|x: usize| x as int) == kind_indices(self.runners@.take(i as int), kind),
            decreases self.runners@.len() - i,
        {
            proof {
                assert(self.runners@.take(i + 1).drop_last() =~= self.runners@.take(i as int));
                assert(self.runners@.take(i + 1).last() == self.runners@[i as int]);
            }
            if self.runners[i].kind == kind {
                let ghost prev = r@.map_values(|x: usize| x as int);
                r.push(i);
                proof {
                    assert(r@.map_values(|x: usize| x as int) =~= prev + seq![i as int]);
                }
            }
            i += 1;
        }
        proof {
            assert(self.runners@.take(self.runners@.len() as int) =~= self.runners@);
        }
        r
    }

    /// How many Learn runners the suite declares.
    pub fn learner_count(&self) -> (n: usize)
        ensures
            n == self.spec_learner_count(),
    {
        self.kind_index_vec(RunnerKind::Learn).len()
    }

    /// How many Solve runners the suite declares.
    pub fn solver_count(&self) -> (n: usize)
        ensures
            n == self.spec_solver_count(),
    {
        self.kind_index_vec(RunnerKind::Solve).len()
    }

    /// Looks up the first attribute set with the given name.
    pub fn find_attribute(&self, name: &str) -> (r: Option<usize>)
        ensures
            r matches Some(j) ==> j < self.attributes@.len() && self.attributes@[j as int].name@
                == name@ && (forall|k: int| 0 <= k < j ==> self.attributes@[k].name@ != name@),
            r is None ==> forall|k: int|
                0 <= k < self.attributes@.len() ==> self.attributes@[k].name@ != name@,
    {
        let mut j: usize = 0;
        while j < self.attributes.len()
            invariant
                0 <= j <= self.attributes@.len(),
                forall|k: int| 0 <= k < j ==> self.attributes@[k].name@ != name@,
            decreases self.attributes@.len() - j,
        {
            if str_eq(self.attributes[j].name.as_str(), name) {
                return Some(j);
            }
            j += 1;
        }
        None
    }

    /// Whether some Learn runner bears the given name.
    fn has_learner_named(&self, name: &str) -> (r: bool)
        ensures
            r == exists|j: int|
                0 <= j < self.runners@.len() && self.runners@[j].kind == RunnerKind::Learn
                    && self.runners@[j].name@ == name@,
    {
        let mut j: usize = 0;
        while j < self.runners.len()
            invariant
                0 <= j <= self.runners@.len(),
                forall|k: int|
                    0 <= k < j ==> !(self.runners@[k].kind == RunnerKind::Learn
                        && self.runners@[k].name@ == name@),
            decreases self.runners@.len() - j,
        {
            if self.runners[j].kind == RunnerKind::Learn && str_eq(
                self.runners[j].name.as_str(),
                name,
            ) {
                return true;
            }
            j += 1;
        }
        false
    }

    /// Checks the suite's validity conditions, in declaration order: each
    /// `depends` and `attribute` must be declared, each task must have the
    /// problems the declared runners need, and the planned work must fit the
    /// machine.  Returns the first failure.
    pub fn validate(&self) -> (r: Result<(), SuiteError>)
        ensures
            r is Ok <==> self.wf(),
            r matches Err(SuiteError::BadDepends { runner }) ==> depends_bad_at(*self, runner as int)
                && (forall|k: int| 0 <= k < runner ==> !depends_bad_at(*self, k)),
            r matches Err(SuiteError::BadAttribute { runner }) ==> self.depends_ok() && attr_bad_at(
                *self,
                runner as int,
            ) && (forall|k: int| 0 <= k < runner ==> !attr_bad_at(*self, k)),
            r matches Err(SuiteError::NoLearnProblems { task }) ==> self.depends_ok()
                && self.attributes_ok() && task_bad_learn(*self, task as int) && task_clean_before(
                *self,
                task as int,
            ),
            r matches Err(SuiteError::NoSolveProblems { task }) ==> self.depends_ok()
                && self.attributes_ok() && !task_bad_learn(*self, task as int) && task_bad_solve(
                *self,
                task as int,
            ) && task_clean_before(*self, task as int),
            r matches Err(SuiteError::NoProblems { task }) ==> self.depends_ok()
                && self.attributes_ok() && !task_bad_learn(*self, task as int) && !task_bad_solve(
                *self,
                task as int,
            ) && task_bad_none(*self, task as int) && task_clean_before(*self, task as int),
            r matches Err(SuiteError::TooLarge) ==> self.depends_ok() && self.attributes_ok()
                && self.tasks_ok() && !self.sizes_ok(),
    {
        let mut i: usize = 0;
        while i < self.runners.len()
            invariant
                0 <= i <= self.runners@.len(),
                forall|k: int| 0 <= k < i ==> !depends_bad_at(*self, k),
            decreases self.runners@.len() - i,
        {
            if let Some(d) = &self.runners[i].depends {
                if !self.has_learner_named(d.as_str()) {
                    proof {
                        assert(depends_bad_at(*self, i as int));
                        assert(!self.depends_ok());
                    }
                    return Err(SuiteError::BadDepends { runner: i });
                }
            }
            i += 1;
        }
        let mut i: usize = 0;
        while i < self.runners.len()
            invariant
                0 <= i <= self.runners@.len(),
                self.depends_ok(),
                forall|k: int| 0 <= k < i ==> !attr_bad_at(*self, k),
            decreases self.runners@.len() - i,
        {
            if let Some(a) = &self.runners[i].attribute {
                if self.find_attribute(a.as_str()).is_none() {
                    proof {
                        assert(attr_bad_at(*self, i as int));
                        assert(!self.attributes_ok());
                    }
                    return Err(SuiteError::BadAttribute { runner: i });
                }
            }
            i += 1;
        }
        let lc = self.learner_count();
        let sc = self.solver_count();
        let mut t: usize = 0;
        while t < self.tasks.len()
            invariant
                0 <= t <= self.tasks@.len(),
                self.depends_ok(),
                self.attributes_ok(),
                lc == self.spec_learner_count(),
                sc == self.spec_solver_count(),
                task_clean_before(*self, t as int),
            decreases self.tasks@.len() - t,
        {
            if self.tasks[t].learn.len() == 0 && lc > 0 {
                proof {
                    assert(task_bad_learn(*self, t as int));
                    assert(!self.tasks_ok());
                }
                return Err(SuiteError::NoLearnProblems { task: t });
            }
            if self.tasks[t].solve.len() == 0 && sc > 0 {
                proof {
                    assert(task_bad_solve(*self, t as int));
                    assert(!self.tasks_ok());
                }
                return Err(SuiteError::NoSolveProblems { task: t });
            }
            if self.tasks[t].learn.len() == 0 && self.tasks[t].solve.len() == 0 {
                proof {
                    assert(task_bad_none(*self, t as int));
                    assert(!self.tasks_ok());
                }
                return Err(SuiteError::NoProblems { task: t });
            }
            t += 1;
        }
        if self.checked_total_runs().is_none() {
            return Err(SuiteError::TooLarge);
        }
        if let Some(m) = self.memory_limit_learn {
            if m > u64::MAX / 1000 {
                return Err(SuiteError::TooLarge);
            }
        }
        if let Some(m) = self.memory_limit_solve {
            if m > u64::MAX / 1000 {
                return Err(SuiteError::TooLarge);
            }
        }
        Ok(())
    }

    /// The planned run count, or nothing when it exceeds `usize`.
    pub fn checked_total_runs(&self) -> (r: Option<usize>)
        ensures
            r matches Some(n) ==> n == total_run_count(*self),
            r is None ==> total_run_count(*self) > usize::MAX as int,
    {
        let lc = self.learner_count();
        let sc = self.solver_count();
        let ghost n_tasks = self.tasks@.len() as int;
        proof {
            lemma_sum_solve_nonneg(self.tasks@, n_tasks);
            lemma_mul_nonneg(sum_solve(self.tasks@, n_tasks), self.spec_solver_count());
            lemma_mul_nonneg(n_tasks, self.spec_learner_count());
        }
        let learn_part = match self.tasks.len().checked_mul(lc) {
            Some(n) => n,
            None => {
                return None;
            },
        };
        if sc == 0 {
            proof {
                assert(sum_solve(self.tasks@, n_tasks) * self.spec_solver_count() == 0)
                    by (nonlinear_arith)
                    requires
                        self.spec_solver_count() == 0,
                ;
            }
            return Some(learn_part);
        }
        let mut solve_problems: usize = 0;
        let mut t: usize = 0;
        while t < self.tasks.len()
            invariant
                0 <= t <= self.tasks@.len(),
                solve_problems == sum_solve(self.tasks@, t as int),
                sc == self.spec_solver_count(),
                sc >= 1,
                learn_part == n_tasks * self.spec_learner_count(),
                n_tasks == self.tasks@.len() as int,
            decreases self.tasks@.len() - t,
        {
            solve_problems = match solve_problems.checked_add(self.tasks[t].solve.len()) {
                Some(n) => n,
                None => {
                    proof {
                        lemma_sum_solve_monotone(self.tasks@, t + 1, n_tasks);
                        lemma_mul_ge(sum_solve(self.tasks@, n_tasks), sc as int);
                    }
                    return None;
                },
            };
            t += 1;
        }
        let solve_part = match solve_problems.checked_mul(sc) {
            Some(n) => n,
            None => {
                return None;
            },
        };
        match learn_part.checked_add(solve_part) {
            Some(n) => Some(n),
            None => None,
        }
    }
}

proof fn lemma_mul_nonneg(a: int, b: int)
    requires
        a >= 0,
        b >= 0,
    ensures
        a * b >= 0,
{
    assert(a * b >= 0) by (nonlinear_arith)
        requires
            a >= 0,
            b >= 0,
    ;
}

impl Suite {
    /// Looks up the first runner with the given name.
    pub fn get_runner(&self, name: &str) -> (r: Option<&Runner>)
        ensures
            r matches Some(rr) ==> exists|j: int|
                0 <= j < self.runners@.len() && self.runners@[j] == *rr && self.runners@[j].name@
                    == name@ && (forall|k: int| 0 <= k < j ==> self.runners@[k].name@ != name@),
            r is None ==> forall|k: int|
                0 <= k < self.runners@.len() ==> self.runners@[k].name@ != name@,
    {
        let mut j: usize = 0;
        while j < self.runners.len()
            invariant
                0 <= j <= self.runners@.len(),
                forall|k: int| 0 <= k < j ==> self.runners@[k].name@ != name@,
            decreases self.runners@.len() - j,
        {
            if str_eq(self.runners[j].name.as_str(), name) {
                return Some(&self.runners[j]);
            }
            j += 1;
        }
        None
    }

    /// Looks up the first task with the given name.
    pub fn get_task(&self, name: &str) -> (r: Option<&Task>)
        ensures
            r matches Some(t) ==> exists|j: int|
                0 <= j < self.tasks@.len() && self.tasks@[j] == *t && self.tasks@[j].name@ == name@
                    && (forall|k: int| 0 <= k < j ==> self.tasks@[k].name@ != name@),
            r is None ==> forall|k: int|
                0 <= k < self.tasks@.len() ==> self.tasks@[k].name@ != name@,
    {
        let mut j: usize = 0;
        while j < self.tasks.len()
            invariant
                0 <= j <= self.tasks@.len(),
                forall|k: int| 0 <= k < j ==> self.tasks@[k].name@ != name@,
            decreases self.tasks@.len() - j,
        {
            if str_eq(self.tasks[j].name.as_str(), name) {
                return Some(&self.tasks[j]);
            }
            j += 1;
        }
        None
    }

    /// Looks up the first attribute set with the given name.
    pub fn get_attribute(&self, name: &str) -> (r: Option<&Attribute>)
        ensures
            r matches Some(a) ==> exists|j: int|
                0 <= j < self.attributes@.len() && self.attributes@[j] == *a
                    && self.attributes@[j].name@ == name@,
            r is None ==> forall|k: int|
                0 <= k < self.attributes@.len() ==> self.attributes@[k].name@ != name@,
    {
        match self.find_attribute(name) {
            Some(j) => Some(&self.attributes[j]),
            None => None,
        }
    }

    /// The declared runner names, in order.
    pub fn runner_names(&self) -> (r: Vec<String>)
        ensures
            r.deep_view() == Seq::new(self.runners@.len(), |j: int| self.runners@[j].name@),
    {
        let ghost expected = Seq::new(self.runners@.len(), |j: int| self.runners@[j].name@);
        let mut r: Vec<String> = Vec::new();
        let mut j: usize = 0;
        while j < self.runners.len()
            invariant
                0 <= j <= self.runners@.len(),
                expected == Seq::new(self.runners@.len(), |k: int| self.runners@[k].name@),
                r.deep_view() == expected.take(j as int),
            decreases self.runners@.len() - j,
        {
            let ghost prev = r.deep_view();
            r.push(self.runners[j].name.clone());
            proof {
                assert(r.deep_view() =~~= prev + seq![expected[j as int]]);
                assert(expected.take(j + 1) =~~= expected.take(j as int) + seq![
                    expected[j as int],
                ]);
            }
            j += 1;
        }
        proof {
            assert(expected.take(self.runners@.len() as int) =~~= expected);
        }
        r
    }

    /// The declared task names, in order.
    pub fn task_names(&self) -> (r: Vec<String>)
        ensures
            r.deep_view() == Seq::new(self.tasks@.len(), |j: int| self.tasks@[j].name@),
    {
        let ghost expected = Seq::new(self.tasks@.len(), |j: int| self.tasks@[j].name@);
        let mut r: Vec<String> = Vec::new();
        let mut j: usize = 0;
        while j < self.tasks.len()
            invariant
                0 <= j <= self.tasks@.len(),
                expected == Seq::new(self.tasks@.len(), |k: int| self.tasks@[k].name@),
                r.deep_view() == expected.take(j as int),
            decreases self.tasks@.len() - j,
        {
            let ghost prev = r.deep_view();
            r.push(self.tasks[j].name.clone());
            proof {
                assert(r.deep_view() =~~= prev + seq![expected[j as int]]);
                assert(expected.take(j + 1) =~~= expected.take(j as int) + seq![
                    expected[j as int],
                ]);
            }
            j += 1;
        }
        proof {
            assert(expected.take(self.tasks@.len() as int) =~~= expected);
        }
        r
    }

    /// How many learn problems the tasks declare together.
    pub fn total_problems_learn(&self) -> (r: Option<usize>)
        ensures
            r matches Some(n) ==> n == sum_learn(self.tasks@, self.tasks@.len() as int),
            r is None ==> sum_learn(self.tasks@, self.tasks@.len() as int) > usize::MAX as int,
    {
        let mut total: usize = 0;
        let mut t: usize = 0;
        while t < self.tasks.len()
            invariant
                0 <= t <= self.tasks@.len(),
                total == sum_learn(self.tasks@, t as int),
            decreases self.tasks@.len() - t,
        {
            total = match total.checked_add(self.tasks[t].learn.len()) {
                Some(n) => n,
                None => {
                    proof {
                        lemma_sum_learn_monotone(self.tasks@, t + 1, self.tasks@.len() as int);
                    }
                    return None;
                },
            };
            t += 1;
        }
        Some(total)
    }

    /// How many solve problems the tasks declare together.
    pub fn total_problems_solve(&self) -> (r: Option<usize>)
        ensures
            r matches Some(n) ==> n == sum_solve(self.tasks@, self.tasks@.len() as int),
            r is None ==> sum_solve(self.tasks@, self.tasks@.len() as int) > usize::MAX as int,
    {
        let mut total: usize = 0;
        let mut t: usize = 0;
        while t < self.tasks.len()
            invariant
                0 <= t <= self.tasks@.len(),
                total == sum_solve(self.tasks@, t as int),
            decreases self.tasks@.len() - t,
        {
            total = match total.checked_add(self.tasks[t].solve.len()) {
                Some(n) => n,
                None => {
                    proof {
                        lemma_sum_solve_monotone(self.tasks@, t + 1, self.tasks@.len() as int);
                    }
                    return None;
                },
            };
            t += 1;
        }
        Some(total)
    }
}

pub proof fn lemma_sum_learn_monotone(tasks: Seq<Task>, a: int, b: int)
    requires
        0 <= a <= b,
    ensures
        sum_learn(tasks, a) <= sum_learn(tasks, b),
    decreases b - a,
{
    if a < b {
        lemma_sum_learn_monotone(tasks, a, b - 1);
    }
}

/// No problem-set condition fails for any task before `t`.
pub open spec fn task_clean_before(s: Suite, t: int) -> bool {
    forall|u: int|
        0 <= u < t ==> !task_bad_learn(s, u) && !task_bad_solve(s, u) && !task_bad_none(s, u)
}

pub proof fn lemma_sum_solve_nonneg(tasks: Seq<Task>, n: int)
    ensures
        sum_solve(tasks, n) >= 0,
    decreases n,
{
    if n > 0 {
        lemma_sum_solve_nonneg(tasks, n - 1);
    }
}

pub proof fn lemma_sum_solve_monotone(tasks: Seq<Task>, a: int, b: int)
    requires
        0 <= a <= b,
    ensures
        sum_solve(tasks, a) <= sum_solve(tasks, b),
    decreases b - a,
{
    if a < b {
        lemma_sum_solve_monotone(tasks, a, b - 1);
    }
}

proof fn lemma_mul_ge(a: int, b: int)
    requires
        a >= 0,
        b >= 1,
    ensures
        a * b >= a,
{
    assert(a * b >= a) by (nonlinear_arith)
        requires
            a >= 0,
            b >= 1,
    ;
}

} // verus!
