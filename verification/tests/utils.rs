use slurm_monitor::utils::{
    get_all_job_ids_from_sacct, parse_job_id, parse_sacct_multiple_output, parse_sacct_output,
    parse_squeue_output, CommandResult, JobStatus,
};

#[test]
fn test_parse_job_id() {
    assert_eq!(parse_job_id("Submitted batch job 12345"), Some(12345));
    assert_eq!(parse_job_id("Submitted batch job 999999999"), Some(999999999));
    assert_eq!(parse_job_id("Invalid output"), None);
}

#[test]
fn test_parse_job_id_embedded_and_overflow() {
    assert_eq!(parse_job_id("noise\nSubmitted batch job 7 done"), Some(7));
    assert_eq!(parse_job_id("Submitted batch job 99999999999999999999999"), None);
    assert_eq!(parse_job_id("Submitted batch job x"), None);
    assert_eq!(parse_job_id(""), None);
}

#[test]
fn test_parse_sacct_output() {
    let output = "JobID|JobName|State\n12345|test_job|RUNNING\n";
    let result = parse_sacct_output(output);
    assert_eq!(result.get("JobID"), Some(&"12345".to_string()));
    assert_eq!(result.get("JobName"), Some(&"test_job".to_string()));
    assert_eq!(result.get("State"), Some(&"RUNNING".to_string()));
}

#[test]
fn test_parse_sacct_output_merges_substeps() {
    let output = "JobID|State|StdOut|StdErr\n9|RUNNING||\n9.batch|COMPLETED|/tmp/out.log|/tmp/err.log\n";
    let result = parse_sacct_output(output);
    // The last non-empty value across rows wins for every field.
    assert_eq!(result.get("JobID"), Some(&"9.batch".to_string()));
    assert_eq!(result.get("State"), Some(&"COMPLETED".to_string()));
    assert_eq!(result.get("StdOut"), Some(&"/tmp/out.log".to_string()));
    assert_eq!(result.get("StdErr"), Some(&"/tmp/err.log".to_string()));
}

#[test]
fn test_parse_sacct_output_empty_substep_fields_kept() {
    // An empty sub-step value never erases an earlier one.
    let output = "JobID|JobName|StdOut\n9|myjob|/tmp/a.log\n9.batch||\n";
    let result = parse_sacct_output(output);
    assert_eq!(result.get("JobName"), Some(&"myjob".to_string()));
    assert_eq!(result.get("StdOut"), Some(&"/tmp/a.log".to_string()));
}

#[test]
fn test_parse_sacct_output_too_short() {
    assert_eq!(parse_sacct_output("JobID|State\n").len(), 0);
    assert_eq!(parse_sacct_output("").len(), 0);
}

#[test]
fn test_parse_sacct_multiple_output() {
    let output = "JobID|State\n1|RUNNING\n2|FAILED\n";
    let rows = parse_sacct_multiple_output(output);
    assert_eq!(rows.len(), 2);
    assert_eq!(rows[0].get("JobID"), Some(&"1".to_string()));
    assert_eq!(rows[1].get("State"), Some(&"FAILED".to_string()));
}

#[test]
fn test_parse_squeue_output() {
    let output = "JOBID STATE TIME NODES\n77 RUNNING 1:23 2\n";
    let result = parse_squeue_output(output);
    assert_eq!(result.get("job_id"), Some(&"77".to_string()));
    assert_eq!(result.get("state"), Some(&"RUNNING".to_string()));
    assert_eq!(result.get("time"), Some(&"1:23".to_string()));
    assert_eq!(result.get("nodes"), Some(&"2".to_string()));
}

#[test]
fn test_parse_squeue_output_short() {
    assert_eq!(parse_squeue_output("JOBID STATE\n").len(), 0);
    assert_eq!(parse_squeue_output("JOBID STATE TIME NODES\n77 RUNNING\n").len(), 0);
}

#[test]
fn test_job_status_from_slurm_state() {
    assert_eq!(JobStatus::from_slurm_state("PENDING"), JobStatus::Queued);
    assert_eq!(JobStatus::from_slurm_state("RUNNING"), JobStatus::Running);
    assert_eq!(JobStatus::from_slurm_state("COMPLETED"), JobStatus::Completed);
    assert_eq!(JobStatus::from_slurm_state("FAILED"), JobStatus::Failed);
    assert_eq!(JobStatus::from_slurm_state("CANCELLED"), JobStatus::Failed);
}

#[test]
fn test_job_status_fallback_matching() {
    assert_eq!(JobStatus::from_slurm_state("pending"), JobStatus::Queued);
    assert_eq!(
        JobStatus::from_slurm_state("CANCELLED by 1000"),
        JobStatus::Failed
    );
    assert_eq!(
        JobStatus::from_slurm_state("weird COMPLETED thing"),
        JobStatus::Completed
    );
    assert_eq!(JobStatus::from_slurm_state("SOMETHING ELSE"), JobStatus::Unknown);
    assert_eq!(JobStatus::from_slurm_state(""), JobStatus::Unknown);
}

#[test]
fn test_job_status_as_str() {
    assert_eq!(JobStatus::Queued.as_str(), "QUEUED");
    assert_eq!(JobStatus::Unknown.as_str(), "UNKNOWN");
}

#[test]
fn test_get_all_job_ids_sorted_and_distinct() {
    let res = CommandResult {
        stdout: "3\n12.batch\n12\n7_0\n3\n".to_string(),
        stderr: String::new(),
        return_code: 0,
    };
    assert_eq!(get_all_job_ids_from_sacct(Some(&res)), vec![12, 7, 3]);
}

#[test]
fn test_get_all_job_ids_unusable_listing() {
    let failed = CommandResult {
        stdout: "5\n".to_string(),
        stderr: String::new(),
        return_code: 1,
    };
    assert!(get_all_job_ids_from_sacct(Some(&failed)).is_empty());
    let blank = CommandResult {
        stdout: "  \n ".to_string(),
        stderr: String::new(),
        return_code: 0,
    };
    assert!(get_all_job_ids_from_sacct(Some(&blank)).is_empty());
    assert!(get_all_job_ids_from_sacct(None).is_empty());
}
