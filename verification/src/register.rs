//! The result register: collects what each finished run left behind and
//! exports the aggregated outputs in one step.

use crate::aggregate::{
    content_for, learn_csv, learn_csv_of, lookup_csv, merged_csv, merged_of, pair_paths,
    push_pair_paths, solve_csv, solve_csv_of, RunArtifacts,
};
use crate::plan::{Instance, RunKind};
use crate::text::{dec_of, dedup_first, dedup_strings, u64_to_string};
use vstd::prelude::*;

verus! {

/// What one finished Learner run left behind.
pub struct LearnResult {
    pub exit_code: Option<String>,
    pub log: Option<String>,
    pub csvs: Vec<(String, String)>,
}

/// What one finished Solver run left behind.
pub struct SolveResult {
    pub exit_code: Option<String>,
    pub log: Option<String>,
    pub csvs: Vec<(String, String)>,
}

/// The collected results of a whole harness invocation: one entry per
/// Learner run and one per Solver run, in emission order.
pub struct Register {
    pub learn: Vec<LearnResult>,
    pub solve: Vec<SolveResult>,
}

/// The artifacts vector the register describes, indexed like the instance's
/// runs: Learner results first, then Solver results.
pub open spec fn arts_of(reg: Register, n: int) -> Seq<RunArtifacts> {
    Seq::new(
        n as nat,
        |q: int|
            if q < reg.learn@.len() {
                RunArtifacts {
                    exit_code: reg.learn@[q].exit_code,
                    log: reg.learn@[q].log,
                }
            } else {
                RunArtifacts {
                    exit_code: reg.solve@[q - reg.learn@.len()].exit_code,
                    log: reg.solve@[q - reg.learn@.len()].log,
                }
            },
    )
}

/// The relative CSV paths of all Learner results, concatenated in order.
pub open spec fn learn_flat_paths(rs: Seq<LearnResult>) -> Seq<Seq<char>>
    decreases rs.len(),
{
    if rs.len() == 0 {
        Seq::<Seq<char>>::empty()
    } else {
        learn_flat_paths(rs.drop_last()) + pair_paths(rs.last().csvs@)
    }
}

/// The relative CSV paths of all Solver results, concatenated in order.
pub open spec fn solve_flat_paths(rs: Seq<SolveResult>) -> Seq<Seq<char>>
    decreases rs.len(),
{
    if rs.len() == 0 {
        Seq::<Seq<char>>::empty()
    } else {
        solve_flat_paths(rs.drop_last()) + pair_paths(rs.last().csvs@)
    }
}

/// The per-result content at one relative path, learn side.
pub open spec fn learn_contents(rs: Seq<LearnResult>, path: Seq<char>) -> Seq<Option<Seq<char>>> {
    Seq::new(rs.len(), |i: int| content_for(rs[i].csvs@, path))
}

/// The per-result content at one relative path, solve side.
pub open spec fn solve_contents(rs: Seq<SolveResult>, path: Seq<char>) -> Seq<Option<Seq<char>>> {
    Seq::new(rs.len(), |i: int| content_for(rs[i].csvs@, path))
}

/// The aggregated outputs: the two result tables and, per side, one merged
/// file per relative CSV path the runs emitted.
pub struct Outputs {
    pub learn_csv: String,
    pub solve_csv: String,
    pub learn_files: Vec<(String, String)>,
    pub solve_files: Vec<(String, String)>,
}

impl Register {
    /// An empty register.
    pub fn new() -> (r: Register)
        ensures
            r.learn@.len() == 0,
            r.solve@.len() == 0,
    {
        Register { learn: Vec::new(), solve: Vec::new() }
    }

    /// Records what a finished Learner run left behind.
    pub fn register_learn(&mut self, r: LearnResult)
        ensures
            final(self).learn@ == old(self).learn@.push(r),
            final(self).solve@ == old(self).solve@,
    {
        self.learn.push(r);
    }

    /// Records what a finished Solver run left behind.
    pub fn register_solve(&mut self, r: SolveResult)
        ensures
            final(self).solve@ == old(self).solve@.push(r),
            final(self).learn@ == old(self).learn@,
    {
        self.solve.push(r);
    }

    /// The header names for a row of positional argument columns.
    pub fn arg_header(count: usize) -> (r: Vec<String>)
        ensures
            r@.len() == count,
            forall|i: int| 0 <= i < count ==> r.deep_view()[i] == "arg_"@ + dec_of(i as nat),
    {
        let mut r: Vec<String> = Vec::new();
        let mut i: usize = 0;
        while i < count
            invariant
                0 <= i <= count,
                r@.len() == i,
                forall|k: int| 0 <= k < i ==> r.deep_view()[k] == "arg_"@ + dec_of(k as nat),
            decreases count - i,
        {
            let mut cell = "arg_".to_owned();
            cell.append(u64_to_string(i as u64).as_str());
            let ghost prev = r.deep_view();
            r.push(cell);
            proof {
                assert(r.deep_view() =~~= prev + seq!["arg_"@ + dec_of(i as nat)]);
            }
            i += 1;
        }
        r
    }

    /// Aggregates everything the register holds against the instance:
    /// `learn.csv` and `solve.csv` in emission order, and per side one
    /// merged file per relative CSV path, the first contributor's header
    /// winning.
    pub fn export(&self, inst: &Instance) -> (r: Outputs)
        requires
            inst.wf(),
            self.learn@.len() + self.solve@.len() == inst.runs@.len(),
            forall|q: int|
                0 <= q < inst.runs@.len() ==> ((#[trigger] inst.runs@[q].kind) is Learner <==> q
                    < self.learn@.len()),
        ensures
            r.learn_csv@ == learn_csv_of(*inst, arts_of(*self, inst.runs@.len() as int)),
            r.solve_csv@ == solve_csv_of(*inst, arts_of(*self, inst.runs@.len() as int)),
            r.learn_files@.len() == dedup_first(learn_flat_paths(self.learn@)).len(),
            forall|k: int|
                0 <= k < r.learn_files@.len() ==> (#[trigger] r.learn_files@[k]).0@ == dedup_first(
                    learn_flat_paths(self.learn@),
                )[k] && r.learn_files@[k].1@ == merged_of(
                    learn_contents(self.learn@, dedup_first(learn_flat_paths(self.learn@))[k]),
                ),
            r.solve_files@.len() == dedup_first(solve_flat_paths(self.solve@)).len(),
            forall|k: int|
                0 <= k < r.solve_files@.len() ==> (#[trigger] r.solve_files@[k]).0@ == dedup_first(
                    solve_flat_paths(self.solve@),
                )[k] && r.solve_files@[k].1@ == merged_of(
                    solve_contents(self.solve@, dedup_first(solve_flat_paths(self.solve@))[k]),
                ),
    {
        let n = inst.runs.len();
        let lc = self.learn.len();
        let mut arts: Vec<RunArtifacts> = Vec::new();
        let mut q: usize = 0;
        while q < n
            invariant
                0 <= q <= n,
                n == inst.runs@.len(),
                lc == self.learn@.len(),
                self.learn@.len() + self.solve@.len() == n,
                arts@.len() == q,
                forall|k: int| 0 <= k < q ==> arts@[k] == arts_of(*self, n as int)[k],
            decreases n - q,
        {
            if q < lc {
                arts.push(
                    RunArtifacts {
                        exit_code: self.learn[q].exit_code.clone(),
                        log: self.learn[q].log.clone(),
                    },
                );
            } else {
                arts.push(
                    RunArtifacts {
                        exit_code: self.solve[q - lc].exit_code.clone(),
                        log: self.solve[q - lc].log.clone(),
                    },
                );
            }
            q += 1;
        }
        proof {
            assert(arts@ =~= arts_of(*self, n as int));
        }
        let learn_table = learn_csv(inst, &arts);
        let solve_table = solve_csv(inst, &arts);

        let mut raw_learn_paths: Vec<String> = Vec::new();
        let mut i: usize = 0;
        while i < self.learn.len()
            invariant
                0 <= i <= self.learn@.len(),
                raw_learn_paths.deep_view() == learn_flat_paths(self.learn@.take(i as int)),
            decreases self.learn@.len() - i,
        {
            push_pair_paths(&mut raw_learn_paths, &self.learn[i].csvs);
            proof {
                assert(self.learn@.take(i + 1).drop_last() =~= self.learn@.take(i as int));
                assert(self.learn@.take(i + 1).last() == self.learn@[i as int]);
            }
            i += 1;
        }
        proof {
            assert(self.learn@.take(self.learn@.len() as int) =~= self.learn@);
        }
        let learn_paths = dedup_strings(&raw_learn_paths);
        let mut learn_files: Vec<(String, String)> = Vec::new();
        let mut k: usize = 0;
        while k < learn_paths.len()
            invariant
                0 <= k <= learn_paths@.len(),
                learn_paths.deep_view() == dedup_first(learn_flat_paths(self.learn@)),
                learn_files@.len() == k,
                forall|j: int|
                    0 <= j < k ==> (#[trigger] learn_files@[j]).0@ == learn_paths.deep_view()[j]
                        && learn_files@[j].1@ == merged_of(
                        learn_contents(self.learn@, learn_paths.deep_view()[j]),
                    ),
            decreases learn_paths@.len() - k,
        {
            let path = &learn_paths[k];
            let mut contents: Vec<Option<String>> = Vec::new();
            let mut i2: usize = 0;
            while i2 < self.learn.len()
                invariant
                    0 <= i2 <= self.learn@.len(),
                    contents@.len() == i2,
                    forall|j: int|
                        0 <= j < i2 ==> (#[trigger] contents@[j]).deep_view() == content_for(
                            self.learn@[j].csvs@,
                            path@,
                        ),
                decreases self.learn@.len() - i2,
            {
                contents.push(lookup_csv(&self.learn[i2].csvs, path.as_str()));
                i2 += 1;
            }
            proof {
                assert(contents.deep_view() =~~= learn_contents(self.learn@, path@));
            }
            let merged = merged_csv(&contents);
            learn_files.push((path.clone(), merged));
            k += 1;
        }

        let mut raw_solve_paths: Vec<String> = Vec::new();
        let mut i: usize = 0;
        while i < self.solve.len()
            invariant
                0 <= i <= self.solve@.len(),
                raw_solve_paths.deep_view() == solve_flat_paths(self.solve@.take(i as int)),
            decreases self.solve@.len() - i,
        {
            push_pair_paths(&mut raw_solve_paths, &self.solve[i].csvs);
            proof {
                assert(self.solve@.take(i + 1).drop_last() =~= self.solve@.take(i as int));
                assert(self.solve@.take(i + 1).last() == self.solve@[i as int]);
            }
            i += 1;
        }
        proof {
            assert(self.solve@.take(self.solve@.len() as int) =~= self.solve@);
        }
        let solve_paths = dedup_strings(&raw_solve_paths);
        let mut solve_files: Vec<(String, String)> = Vec::new();
        let mut k: usize = 0;
        while k < solve_paths.len()
            invariant
                0 <= k <= solve_paths@.len(),
                solve_paths.deep_view() == dedup_first(solve_flat_paths(self.solve@)),
                solve_files@.len() == k,
                forall|j: int|
                    0 <= j < k ==> (#[trigger] solve_files@[j]).0@ == solve_paths.deep_view()[j]
                        && solve_files@[j].1@ == merged_of(
                        solve_contents(self.solve@, solve_paths.deep_view()[j]),
                    ),
            decreases solve_paths@.len() - k,
        {
            let path = &solve_paths[k];
            let mut contents: Vec<Option<String>> = Vec::new();
            let mut i2: usize = 0;
            while i2 < self.solve.len()
                invariant
                    0 <= i2 <= self.solve@.len(),
                    contents@.len() == i2,
                    forall|j: int|
                        0 <= j < i2 ==> (#[trigger] contents@[j]).deep_view() == content_for(
                            self.solve@[j].csvs@,
                            path@,
                        ),
                decreases self.solve@.len() - i2,
            {
                contents.push(lookup_csv(&self.solve[i2].csvs, path.as_str()));
                i2 += 1;
            }
            proof {
                assert(contents.deep_view() =~~= solve_contents(self.solve@, path@));
            }
            let merged = merged_csv(&contents);
            solve_files.push((path.clone(), merged));
            k += 1;
        }

        Outputs {
            learn_csv: learn_table,
            solve_csv: solve_table,
            learn_files,
            solve_files,
        }
    }
}

} // verus!