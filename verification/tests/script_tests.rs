use expbench::script::{sbatch_array_arg, script_content, submission_script};

fn args(parts: &[&str]) -> Vec<String> {
    parts.iter().map(|p| (*p).to_owned()).collect()
}

#[test]
fn script_with_both_limits() {
    let text = script_content("/bin/solve", &args(&["--s", "/w/learn/0", "D", "p1"]), Some(5), Some(128));
    assert_eq!(
        text,
        "#!/bin/bash\nulimit -v 128000\n$(eval \"timeout 5s /bin/solve out --s /w/learn/0 D p1\"&>log)\necho $? > exit_code"
    );
}

#[test]
fn script_without_limits() {
    let text = script_content("/bin/x", &args(&[]), None, None);
    assert_eq!(text, "#!/bin/bash\n$(eval \"/bin/x out\"&>log)\necho $? > exit_code");
}

#[test]
fn script_with_time_limit_only() {
    let text = script_content("/bin/x", &args(&["a"]), Some(1), None);
    assert_eq!(text, "#!/bin/bash\n$(eval \"timeout 1s /bin/x out a\"&>log)\necho $? > exit_code");
}

#[test]
fn script_with_memory_limit_only() {
    let text = script_content("/bin/x", &args(&["a"]), None, Some(2));
    assert_eq!(text, "#!/bin/bash\nulimit -v 2000\n$(eval \"/bin/x out a\"&>log)\necho $? > exit_code");
}

#[test]
fn submission_script_with_limit() {
    let text = submission_script("/w/learn", Some(128));
    assert_eq!(
        text,
        "#!/bin/bash\n#SBATCH --mem=1G\nDIR=/w/learn/${SLURM_ARRAY_TASK_ID}\ncd ${DIR}\n./runner.sh\n"
    );
}

#[test]
fn submission_script_without_limit() {
    let text = submission_script("/w/solve", None);
    assert_eq!(
        text,
        "#!/bin/bash\n#SBATCH --mem=16G\nDIR=/w/solve/${SLURM_ARRAY_TASK_ID}\ncd ${DIR}\n./runner.sh\n"
    );
}

#[test]
fn submission_memory_rounds_up() {
    let text = submission_script("/w/learn", Some(1000));
    assert!(text.contains("--mem=2G\n"));
    let exact = submission_script("/w/learn", Some(999));
    assert!(exact.contains("--mem=1G\n"));
}

#[test]
fn array_argument_covers_all_runs() {
    assert_eq!(sbatch_array_arg(1), "--array=0-0");
    assert_eq!(sbatch_array_arg(12), "--array=0-11");
}
