use slurm_monitor::app::{get_visible_lines, App, FocusedPanel, JobData};
use slurm_monitor::job_manager::JobInfo;
use slurm_monitor::utils::JobStatus;

#[test]
fn test_carriage_return_simulation() {
    // A progress bar overwritten in place leaves only the final text.
    let lines = JobData::process_log_content("AAA\rBB\n");
    assert_eq!(lines, vec!["BB".to_string()]);
}

#[test]
fn test_process_log_content_shapes() {
    assert_eq!(
        JobData::process_log_content("line1\nline2\n"),
        vec!["line1".to_string(), "line2".to_string()]
    );
    // A trailing fragment becomes a provisional last line.
    assert_eq!(
        JobData::process_log_content("done\npart"),
        vec!["done".to_string(), "part".to_string()]
    );
    // Carriage return only discards the current unterminated line.
    assert_eq!(
        JobData::process_log_content("keep\nAAA\rBB"),
        vec!["keep".to_string(), "BB".to_string()]
    );
    assert_eq!(JobData::process_log_content(""), Vec::<String>::new());
    assert_eq!(JobData::process_log_content("\n"), vec!["".to_string()]);
}

#[test]
fn test_navigation_cycles_descending() {
    // Jobs {5, 3, 1}, in several insertion orders: next cycles 5, 3, 1, 5...
    let orders: Vec<Vec<u64>> = vec![
        vec![5, 3, 1],
        vec![1, 3, 5],
        vec![3, 5, 1],
        vec![1, 5, 3],
        vec![5, 1, 3],
        vec![3, 1, 5],
    ];
    for order in orders {
        let mut app = App::new();
        for id in &order {
            app.add_job(*id);
        }
        assert_eq!(app.get_sorted_job_ids(), vec![5, 3, 1]);
        app.current_job_id = Some(5);
        let mut seen: Vec<u64> = Vec::new();
        for _ in 0..6 {
            seen.push(app.current_job_id.unwrap());
            app.next_job();
        }
        assert_eq!(seen, vec![5, 3, 1, 5, 3, 1]);
        assert_eq!(app.current_job_id, Some(5));
    }
}

#[test]
fn test_prev_job_wraps() {
    let mut app = App::new();
    app.add_job(5);
    app.add_job(3);
    app.add_job(1);
    app.current_job_id = Some(5);
    app.prev_job();
    assert_eq!(app.current_job_id, Some(1));
    app.prev_job();
    assert_eq!(app.current_job_id, Some(3));
    app.prev_job();
    assert_eq!(app.current_job_id, Some(5));
}

#[test]
fn test_add_and_remove_job_selection() {
    let mut app = App::new();
    app.add_job(3);
    assert_eq!(app.current_job_id, Some(3));
    app.add_job(9);
    assert_eq!(app.current_job_id, Some(3));
    app.remove_job(3);
    // The highest remaining id is reselected.
    assert_eq!(app.current_job_id, Some(9));
    app.remove_job(9);
    assert_eq!(app.current_job_id, None);
    // A deleted job is remembered.
    assert!(app.deleted_jobs.contains(&3));
    assert!(app.deleted_jobs.contains(&9));
}

#[test]
fn test_status_last_write_wins() {
    let mut app = App::new();
    let mut info1 = JobInfo::for_id(7);
    info1.job_name = "first".to_string();
    let mut info2 = JobInfo::for_id(7);
    info2.job_name = "second".to_string();

    app.update_job_status(7, JobStatus::Queued, info1);
    app.update_job_status(7, JobStatus::Running, info2);

    let job = &app.jobs[0].1;
    assert_eq!(job.status, JobStatus::Running);
    assert_eq!(job.info.job_name, "second");
    assert_eq!(app.current_job_id, Some(7));
}

#[test]
fn test_update_log_appends_and_follows() {
    let mut app = App::new();
    app.add_job(1);
    app.stdout_panel_height = 2;
    app.update_log(1, "stdout", "a\nb\nc\n");
    let job = &app.jobs[0].1;
    assert_eq!(job.stdout_lines.len(), 3);
    // Auto-scroll follows the tail: 3 lines, 2 visible.
    assert_eq!(job.stdout_scroll, 1);
    assert!(!job.stdout_scroll_mode);

    // An unknown channel or job changes nothing.
    app.update_log(1, "other", "x");
    app.update_log(99, "stdout", "x");
    assert_eq!(app.jobs.len(), 1);
    assert_eq!(app.jobs[0].1.stdout_lines.len(), 3);
}

#[test]
fn test_scroll_down_at_bottom_clears_mode() {
    let mut app = App::new();
    app.add_job(1);
    app.stdout_panel_height = 2;
    app.update_log(1, "stdout", "a\nb\nc\nd\n");
    // Enter scroll mode away from the bottom, then ride down to it.
    app.scroll_to_top();
    assert!(app.is_in_scroll_mode());
    app.scroll_down(10);
    // The offset is capped at the bottom; the movement keeps scroll mode.
    assert_eq!(app.jobs[0].1.stdout_scroll, 2);
    assert!(app.is_in_scroll_mode());
    // Scrolling down while already at the maximum offset leaves the offset
    // alone and clears manual scroll mode.
    app.scroll_down(1);
    assert_eq!(app.jobs[0].1.stdout_scroll, 2);
    assert!(!app.is_in_scroll_mode());
}

#[test]
fn test_scroll_noop_when_content_fits() {
    let mut app = App::new();
    app.add_job(1);
    app.stdout_panel_height = 10;
    app.update_log(1, "stdout", "a\nb\n");
    app.scroll_down(3);
    assert_eq!(app.jobs[0].1.stdout_scroll, 0);
    assert!(!app.is_in_scroll_mode());
    app.scroll_up(3);
    assert_eq!(app.jobs[0].1.stdout_scroll, 0);
    assert!(!app.is_in_scroll_mode());
}

#[test]
fn test_scroll_up_enters_mode() {
    let mut app = App::new();
    app.add_job(1);
    app.stderr_panel_height = 2;
    app.focused_panel = FocusedPanel::Stderr;
    app.update_log(1, "stderr", "a\nb\nc\nd\n");
    assert_eq!(app.jobs[0].1.stderr_scroll, 2);
    app.scroll_up(1);
    assert_eq!(app.jobs[0].1.stderr_scroll, 1);
    assert!(app.is_in_scroll_mode());
    // Riding back down reaches the bottom; a further press at the bottom
    // leaves scroll mode.
    app.scroll_down(1);
    app.scroll_down(1);
    assert!(!app.is_in_scroll_mode());
}

#[test]
fn test_switch_focus_toggles() {
    let mut app = App::new();
    assert_eq!(app.focused_panel, FocusedPanel::Stdout);
    app.switch_focus();
    assert_eq!(app.focused_panel, FocusedPanel::Stderr);
    app.switch_focus();
    assert_eq!(app.focused_panel, FocusedPanel::Stdout);
}

#[test]
fn test_get_visible_lines_window() {
    let lines: Vec<String> = vec!["a", "b", "c", "d", "e"]
        .into_iter()
        .map(|s| s.to_string())
        .collect();
    assert_eq!(get_visible_lines(&lines, 0, 2), vec!["a".to_string(), "b".to_string()]);
    assert_eq!(get_visible_lines(&lines, 3, 2), vec!["d".to_string(), "e".to_string()]);
    // The offset is clamped to the lowest full window.
    assert_eq!(get_visible_lines(&lines, 99, 2), vec!["d".to_string(), "e".to_string()]);
    assert_eq!(get_visible_lines(&lines, 0, 99), lines);
    assert!(get_visible_lines(&Vec::new(), 0, 2).is_empty());
}

#[test]
fn test_update_panel_heights_from_layout() {
    let mut app = App::new();
    app.update_panel_heights(80, 24);
    // 24 rows: 3 for the header leave 21, halved into 11 and 10, less two
    // border rows each.
    assert_eq!(app.stdout_panel_height, 9);
    assert_eq!(app.stderr_panel_height, 8);
    assert_eq!(app.max_visible_lines, app.stdout_panel_height);

    // A tiny frame still leaves room for one line.
    app.update_panel_heights(10, 1);
    assert_eq!(app.stdout_panel_height, 1);
    assert_eq!(app.stderr_panel_height, 1);
}

#[test]
fn test_remove_current_job() {
    let mut app = App::new();
    app.add_job(4);
    app.add_job(8);
    app.current_job_id = Some(8);
    app.remove_current_job();
    assert_eq!(app.current_job_id, Some(4));
    assert_eq!(app.get_sorted_job_ids(), vec![4]);
}
