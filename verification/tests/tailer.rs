use slurm_monitor::app::JobData;
use slurm_monitor::log_tailer::{make_label, parse_label, FileState, SubscriptionSet};
use slurm_monitor::status_monitor::{apply_monitor_command, MonitorCommand};

#[test]
fn test_tail_round_trip() {
    // A file written with "line1\nline2\n", tailed from offset 0.
    let content = "line1\nline2\n";
    let mut state = FileState::new("/tmp/job.out".to_string());
    state.record_initial_missing();

    let start = state.next_read_from(content.len() as u64);
    assert_eq!(start, Some(0));
    state.record_delta(content.len() as u64);
    assert_eq!(state.last_position, content.len() as u64);

    let lines = JobData::process_log_content(content);
    assert_eq!(lines, vec!["line1".to_string(), "line2".to_string()]);
}

#[test]
fn test_truncation_resets_offset() {
    let mut state = FileState::new("/tmp/job.out".to_string());
    let first = state.next_read_from(12);
    assert_eq!(first, Some(0));
    state.record_delta(12);

    // The file shrank below the recorded offset: read again from the start.
    let after_truncation = state.next_read_from(5);
    assert_eq!(after_truncation, Some(0));
    assert_eq!(state.last_position, 0);
}

#[test]
fn test_no_growth_no_read() {
    let mut state = FileState::new("/tmp/job.out".to_string());
    state.record_delta(8);
    assert_eq!(state.next_read_from(8), None);
    assert_eq!(state.next_read_from(10), Some(8));
}

#[test]
fn test_initial_read_protocol() {
    let mut state = FileState::new("/tmp/job.out".to_string());
    assert!(state.needs_initial_read());
    assert!(state.record_initial_content(6));
    assert!(!state.needs_initial_read());
    assert_eq!(state.last_position, 6);

    let mut empty = FileState::new("/tmp/empty.out".to_string());
    assert!(!empty.record_initial_content(0));
    assert_eq!(empty.last_position, 0);

    let mut missing = FileState::new("/tmp/missing.out".to_string());
    missing.record_initial_missing();
    assert!(!missing.needs_initial_read());
}

#[test]
fn test_deleted_file_resets() {
    let mut state = FileState::new("/tmp/job.out".to_string());
    state.record_delta(100);
    state.record_deleted();
    assert_eq!(state.last_position, 0);
}

#[test]
fn test_subscription_set() {
    let mut subs = SubscriptionSet::new();
    subs.insert("stdout_1".to_string(), FileState::new("/tmp/a".to_string()));
    subs.insert("stderr_1".to_string(), FileState::new("/tmp/b".to_string()));
    assert_eq!(subs.len(), 2);
    assert_eq!(subs.label_at(0), "stdout_1");
    assert_eq!(subs.path_at(1), "/tmp/b");
    assert!(subs.needs_initial_read_at(0));

    // Re-adding a label replaces its subscription.
    subs.insert("stdout_1".to_string(), FileState::new("/tmp/c".to_string()));
    assert_eq!(subs.len(), 2);
    assert_eq!(subs.path_at(0), "/tmp/c");

    subs.remove("stdout_1");
    assert_eq!(subs.len(), 1);
    assert_eq!(subs.label_at(0), "stderr_1");
    subs.remove("unknown");
    assert_eq!(subs.len(), 1);
}

#[test]
fn test_label_round_trip() {
    let label = make_label("stdout", 42);
    assert_eq!(label, "stdout_42");
    let parsed = parse_label(&label).unwrap();
    assert_eq!(parsed.0, "stdout");
    assert_eq!(parsed.1, 42);

    assert!(parse_label("nounderscore").is_none());
    assert!(parse_label("stdout_notanumber").is_none());
    assert!(parse_label("stdout_").is_none());
}

#[test]
fn test_apply_monitor_command() {
    let mut jobs: Vec<u64> = Vec::new();
    assert!(!apply_monitor_command(&mut jobs, &MonitorCommand::AddJob(5)));
    assert!(!apply_monitor_command(&mut jobs, &MonitorCommand::AddJob(3)));
    assert!(!apply_monitor_command(&mut jobs, &MonitorCommand::AddJob(5)));
    assert_eq!(jobs, vec![5, 3]);

    assert!(!apply_monitor_command(&mut jobs, &MonitorCommand::RemoveJob(5)));
    assert_eq!(jobs, vec![3]);

    assert!(apply_monitor_command(&mut jobs, &MonitorCommand::Stop));
    assert_eq!(jobs, vec![3]);
}
