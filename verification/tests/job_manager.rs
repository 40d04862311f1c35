use slurm_monitor::job_manager::JobManager;
use slurm_monitor::utils::{CommandResult, JobStatus};

fn ok_result(stdout: &str) -> CommandResult {
    CommandResult {
        stdout: stdout.to_string(),
        stderr: String::new(),
        return_code: 0,
    }
}

#[test]
fn test_job_manager_new() {
    let manager = JobManager::new();
    assert!(manager.list_tracked_jobs().is_empty());
}

#[test]
fn test_add_remove_tracked_job() {
    let mut manager = JobManager::new();

    manager.add_tracked_job(12345);
    assert!(manager.is_tracking(12345));
    assert_eq!(manager.list_tracked_jobs().len(), 1);

    manager.remove_tracked_job(12345);
    assert!(!manager.is_tracking(12345));
    assert!(manager.list_tracked_jobs().is_empty());
}

#[test]
fn test_resolve_output_path() {
    let manager = JobManager::new();

    let resolved = manager.resolve_output_path("slurm-%j.out", 12345, "/home/user");
    assert!(resolved.contains("slurm-12345.out"));
}

#[test]
fn test_resolve_output_path_cases() {
    let manager = JobManager::new();
    assert_eq!(
        manager.resolve_output_path("slurm-%j.out", 12345, "/home/user"),
        "/home/user/slurm-12345.out"
    );
    assert_eq!(
        manager.resolve_output_path("/abs/%A_%a.log", 7, "/home/user"),
        "/abs/7_0.log"
    );
    assert_eq!(manager.resolve_output_path("", 7, "/home/user"), "");
    assert_eq!(manager.resolve_output_path("rel.log", 7, ""), "rel.log");
    assert_eq!(
        manager.resolve_output_path("rel.log", 7, "/w/"),
        "/w/rel.log"
    );
}

#[test]
fn test_submit_job_tracks_announced_id() {
    let mut manager = JobManager::new();
    let id = manager.submit_job("run.sh", "Submitted batch job 42\n");
    assert_eq!(id, Some(42));
    assert!(manager.is_tracking(42));

    let bad = manager.submit_job("run.sh", "sbatch: error");
    assert_eq!(bad, None);
    assert_eq!(manager.list_tracked_jobs(), vec![42]);
}

#[test]
fn test_get_job_status_two_tiers() {
    let manager = JobManager::new();
    let live = ok_result("RUNNING\n");
    let hist = ok_result("COMPLETED|extra\n");

    assert_eq!(
        manager.get_job_status(Some(&live), None),
        JobStatus::Running
    );
    // An empty live answer falls through to history.
    let empty_live = ok_result("  \n");
    assert_eq!(
        manager.get_job_status(Some(&empty_live), Some(&hist)),
        JobStatus::Completed
    );
    assert_eq!(manager.get_job_status(None, None), JobStatus::Unknown);
    let failed = CommandResult {
        stdout: "RUNNING\n".to_string(),
        stderr: String::new(),
        return_code: 1,
    };
    assert_eq!(
        manager.get_job_status(Some(&failed), None),
        JobStatus::Unknown
    );
}

#[test]
fn test_get_job_info_fields() {
    let manager = JobManager::new();
    let hist = ok_result(
        "JobID|JobName|State|Start|End|Elapsed|WorkDir|StdOut|StdErr\n\
         42|myjob|RUNNING|10:00|11:00|01:00|/work|slurm-%j.out|\n\
         42.batch||||||/work||/work/err-%j.log\n",
    );
    let info = manager.get_job_info(42, Some(&hist)).unwrap();
    assert_eq!(info.job_id, 42);
    assert_eq!(info.job_name, "myjob");
    assert_eq!(info.state, "RUNNING");
    assert_eq!(info.elapsed, "01:00");
    assert_eq!(info.work_dir, "/work");
    assert_eq!(info.stdout_path, "/work/slurm-42.out");
    assert_eq!(info.stderr_path, "/work/err-42.log");
}

#[test]
fn test_get_job_info_unusable() {
    let manager = JobManager::new();
    assert!(manager.get_job_info(1, None).is_none());
    let failed = CommandResult {
        stdout: "data".to_string(),
        stderr: String::new(),
        return_code: 1,
    };
    assert!(manager.get_job_info(1, Some(&failed)).is_none());
    let missing_state = ok_result("JobID|JobName\n8|x\n");
    let info = manager.get_job_info(8, Some(&missing_state)).unwrap();
    assert_eq!(info.state, "UNKNOWN");
    assert_eq!(info.job_name, "x");
    assert_eq!(info.stdout_path, "");
}
