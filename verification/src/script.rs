//! The runner script that executes one job: it applies the memory limit,
//! wraps the command in `timeout`, captures the combined output in `log` and
//! records the exit status in `exit_code`.  Also the batch submission script
//! that runs a side's directories as an indexed array job.

use crate::text::{dec_of, u64_to_string};
use vstd::prelude::*;

verus! {

/// The arguments, each preceded by one space.
pub open spec fn args_cat(args: Seq<Seq<char>>) -> Seq<char>
    decreases args.len(),
{
    if args.len() == 0 {
        Seq::<char>::empty()
    } else {
        args_cat(args.drop_last()) + seq![' '] + args.last()
    }
}

/// The command line the script runs: the optional `timeout` wrapper, the
/// executable, the literal word `out`, and the arguments.
pub open spec fn command_of(exe: Seq<char>, args: Seq<Seq<char>>, time_limit: Option<u64>) -> Seq<
    char,
> {
    let timeout_part = match time_limit {
        Some(t) => "timeout "@ + dec_of(t as nat) + "s "@,
        None => Seq::<char>::empty(),
    };
    timeout_part + exe + " out"@ + args_cat(args)
}

/// The full text of `runner.sh`.  A memory limit of `m` MiB becomes
/// `ulimit -v` with `m * 1000` (the conversion existing suites rely on).
pub open spec fn script_of(
    exe: Seq<char>,
    args: Seq<Seq<char>>,
    time_limit: Option<u64>,
    memory_limit: Option<u64>,
) -> Seq<char> {
    let ulimit_part = match memory_limit {
        Some(m) => "ulimit -v "@ + dec_of((m * 1000) as nat) + "\n"@,
        None => Seq::<char>::empty(),
    };
    "#!/bin/bash\n"@ + ulimit_part + "$(eval \""@ + command_of(exe, args, time_limit)
        + "\"&>log)\n"@ + "echo $? > exit_code"@
}

/// Builds the text of one job's `runner.sh`.
pub fn script_content(
    exe: &str,
    args: &Vec<String>,
    time_limit: Option<u64>,
    memory_limit: Option<u64>,
) -> (r: String)
    requires
        memory_limit matches Some(m) ==> m <= u64::MAX / 1000,
    ensures
        r@ == script_of(exe@, args.deep_view(), time_limit, memory_limit),
{
    let mut r = String::new();
    r.append("#!/bin/bash\n");
    if let Some(m) = memory_limit {
        assert(m * 1000 <= u64::MAX);
        r.append("ulimit -v ");
        r.append(u64_to_string(m * 1000).as_str());
        r.append("\n");
    }
    r.append("$(eval \"");
    if let Some(t) = time_limit {
        r.append("timeout ");
        r.append(u64_to_string(t).as_str());
        r.append("s ");
    }
    r.append(exe);
    r.append(" out");
    let mut i: usize = 0;
    while i < args.len()
        invariant
            0 <= i <= args@.len(),
            r@ == "#!/bin/bash\n"@ + (match memory_limit {
                Some(m) => "ulimit -v "@ + dec_of((m * 1000) as nat) + "\n"@,
                None => Seq::<char>::empty(),
            }) + "$(eval \""@ + (match time_limit {
                Some(t) => "timeout "@ + dec_of(t as nat) + "s "@,
                None => Seq::<char>::empty(),
            }) + exe@ + " out"@ + args_cat(args.deep_view().take(i as int)),
        decreases args@.len() - i,
    {
        r.append(" ");
        r.append(args[i].as_str());
        proof {
            let dv = args.deep_view();
            assert(dv.take(i + 1).drop_last() =~= dv.take(i as int));
            assert(dv.take(i + 1).last() == dv[i as int]);
            assert(dv[i as int] == args@[i as int]@);
            assert(args_cat(dv.take(i + 1)) == args_cat(dv.take(i as int)) + seq![' ']
                + dv[i as int]);
            assert(" "@ =~= seq![' ']) by {
                reveal_strlit(" ");
            }
        }
        i += 1;
    }
    proof {
        assert(args.deep_view().take(args@.len() as int) =~= args.deep_view());
    }
    r.append("\"&>log)\n");
    r.append("echo $? > exit_code");
    proof {
        assert(r@ =~= script_of(exe@, args.deep_view(), time_limit, memory_limit));
    }
    r
}

/// The full text of a side's batch submission script: `side_root` is the
/// directory whose numbered subdirectories hold the planned runs.  A memory
/// limit of `m` MiB asks for `ceil(m / 999)` GiB; without a limit, 16.
pub open spec fn submission_script_of(side_root: Seq<char>, memory_limit: Option<u64>) -> Seq<
    char,
> {
    let gigs: nat = match memory_limit {
        Some(m) => (((m + 998) / 999) as nat),
        None => 16,
    };
    "#!/bin/bash\n"@ + "#SBATCH --mem="@ + dec_of(gigs) + "G\n"@ + "DIR="@ + side_root
        + "/${SLURM_ARRAY_TASK_ID}\n"@ + "cd ${DIR}\n"@ + "./runner.sh\n"@
}

/// Builds the text of a side's batch submission script.
pub fn submission_script(side_root: &str, memory_limit: Option<u64>) -> (r: String)
    requires
        memory_limit matches Some(m) ==> m <= u64::MAX / 1000,
    ensures
        r@ == submission_script_of(side_root@, memory_limit),
{
    let gigs: u64 = match memory_limit {
        Some(m) => (m + 998) / 999,
        None => 16,
    };
    let mut r = String::new();
    r.append("#!/bin/bash\n");
    r.append("#SBATCH --mem=");
    r.append(u64_to_string(gigs).as_str());
    r.append("G\n");
    r.append("DIR=");
    r.append(side_root);
    r.append("/${SLURM_ARRAY_TASK_ID}\n");
    r.append("cd ${DIR}\n");
    r.append("./runner.sh\n");
    proof {
        assert(r@ =~= submission_script_of(side_root@, memory_limit));
    }
    r
}

/// The `--array=0-(N-1)` argument that submits one job per planned run.
pub fn sbatch_array_arg(n: u64) -> (r: String)
    requires
        n >= 1,
    ensures
        r@ == "--array=0-"@ + dec_of((n - 1) as nat),
{
    let mut r = String::new();
    r.append("--array=0-");
    r.append(u64_to_string(n - 1).as_str());
    r
}

} // verus!
