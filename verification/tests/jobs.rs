use my_rust_shell::jobs::{Job, JobStatus, JobTable};

// ── JobTable::new ─────────────────────────────────────────────

#[test]
fn test_job_table_new() {
    let table = JobTable::new();
    assert!(table.jobs.is_empty());
    assert_eq!(table.next_id, 1);
}

// ── next_available_id ─────────────────────────────────────────

#[test]
fn test_next_available_id_empty() {
    let table = JobTable::new();
    assert_eq!(table.next_available_id(), 1);
}

#[test]
fn test_next_available_id_after_add() {
    let mut table = JobTable::new();
    table.add("true".to_string(), 100);
    // One job with id=1 exists, so next available is 2
    assert_eq!(table.next_available_id(), 2);
}

#[test]
fn test_next_available_id_reuses_freed_id() {
    let mut table = JobTable::new();
    table.add("true".to_string(), 100);
    // Manually remove the job to simulate a freed slot
    table.jobs.clear();
    assert_eq!(
        table.next_available_id(),
        1,
        "should reuse id 1 after removal"
    );
}

// ── Job::format_line ──────────────────────────────────────────

fn job(id: usize, full_cmd: &str, status: JobStatus) -> Job {
    Job {
        id,
        pid: 4242,
        full_cmd: full_cmd.to_string(),
        status,
        notified: false,
    }
}

#[test]
fn test_job_format_line_running_plus() {
    let job = job(1, "my_cmd", JobStatus::Running);
    let line = job.format_line('+');
    // Format: {:<6} with "[1]+" (4 chars) → "[1]+  " — 2 padding spaces
    //         {:<24} with "Running" (7 chars) → "Running" + 17 spaces
    assert_eq!(line, "[1]+  Running                 my_cmd &");
}

#[test]
fn test_job_format_line_running_minus() {
    let job = job(2, "other_cmd", JobStatus::Running);
    let line = job.format_line('-');
    assert_eq!(line, "[2]-  Running                 other_cmd &");
}

#[test]
fn test_job_format_line_done() {
    let job = job(5, "finished_job", JobStatus::Done);
    let line = job.format_line(' ');
    // marker: "[5] " (4 chars) → padded to 6 → "[5]   "
    // "Done" (4 chars) → padded to 24 → "Done" + 20 spaces
    assert_eq!(line, "[5]   Done                    finished_job");
}

#[test]
fn test_job_format_line_done_no_suffix() {
    // Done jobs should NOT have " &" suffix
    let job = job(3, "done_cmd", JobStatus::Done);
    let line = job.format_line('+');
    assert!(
        !line.ends_with(" &"),
        "Done jobs should not have ' &' suffix: {line:?}"
    );
    assert_eq!(line, "[3]+  Done                    done_cmd");
}

#[test]
fn test_job_format_line_wide_id() {
    // Two-digit IDs should still align properly
    let job = job(42, "wide_id_cmd", JobStatus::Running);
    let line = job.format_line('+');
    // marker "[42]+" is 5 chars, padded to min width 6 → "[42]+ " (1 space)
    assert_eq!(line, "[42]+ Running                 wide_id_cmd &");
}

// ── JobTable::add ─────────────────────────────────────────────

#[test]
fn test_job_table_add_increases_count() {
    let mut table = JobTable::new();
    table.add("true".to_string(), 100);
    assert_eq!(table.jobs.len(), 1);
}

#[test]
fn test_job_table_add_increments_next_id() {
    let mut table = JobTable::new();
    table.add("true".to_string(), 100);
    assert_eq!(table.next_id, 2);
}

#[test]
fn test_job_table_add_returns_id() {
    let mut table = JobTable::new();
    let id = table.add("true".to_string(), 100);
    assert_eq!(id, 1);
}

#[test]
fn test_job_table_add_stores_fields() {
    let mut table = JobTable::new();
    let pid = 31337;
    table.add("echo hi".to_string(), pid);

    let job = &table.jobs[0];
    assert_eq!(job.id, 1);
    assert_eq!(job.pid, pid);
    assert_eq!(job.full_cmd, "echo hi");
    assert!(matches!(job.status, JobStatus::Running));
    assert!(!job.notified);
}

#[test]
fn test_job_table_add_multiple_jobs() {
    let mut table = JobTable::new();
    table.add("job1".to_string(), 101);
    table.add("job2".to_string(), 102);
    table.add("job3".to_string(), 103);

    assert_eq!(table.jobs.len(), 3);
    assert_eq!(table.jobs[0].id, 1);
    assert_eq!(table.jobs[1].id, 2);
    assert_eq!(table.jobs[2].id, 3);
    assert_eq!(table.next_id, 4);
}

// ── update_statuses ───────────────────────────────────────────

#[test]
fn test_update_statuses_detects_completed() {
    let mut table = JobTable::new();
    table.add("true".to_string(), 100);
    // The process has exited by the time of the check
    table.update_statuses(&[true]);
    assert!(matches!(table.jobs[0].status, JobStatus::Done));
}

#[test]
fn test_update_statuses_keeps_running_alive() {
    let mut table = JobTable::new();
    table.add("true".to_string(), 100);
    assert!(matches!(table.jobs[0].status, JobStatus::Running));
    table.update_statuses(&[false]);
    assert!(matches!(table.jobs[0].status, JobStatus::Running));
}

// ── poll ──────────────────────────────────────────────────────

#[test]
fn test_poll_removes_done_jobs() {
    let mut table = JobTable::new();
    table.add("true".to_string(), 100);
    let notes = table.poll(&[true]);
    assert!(table.jobs.is_empty(), "Done jobs should be removed by poll");
    assert_eq!(notes, vec!["[1]+  Done                    true"]);
}

#[test]
fn test_poll_keeps_running_jobs() {
    let mut table = JobTable::new();
    table.add("true".to_string(), 100);
    table.update_statuses(&[false]);
    let before = table.jobs.len();
    let notes = table.poll(&[false]);
    assert!(
        table.jobs.len() <= before,
        "poll should not increase job count"
    );
    assert_eq!(table.jobs.len(), 1);
    assert!(notes.is_empty());
}

// ── further cases ─────────────────────────────────────────────

#[test]
fn freed_id_in_the_middle_is_reused() {
    let mut table = JobTable::new();
    table.add("a".to_string(), 1);
    table.add("b".to_string(), 2);
    table.add("c".to_string(), 3);
    table.poll(&[false, true, false]);
    assert_eq!(table.jobs.len(), 2);
    assert_eq!(table.next_available_id(), 2);
    let id = table.add("d".to_string(), 4);
    assert_eq!(id, 2);
    assert_eq!(table.next_available_id(), 4);
}

#[test]
fn notifications_are_given_once() {
    let mut table = JobTable::new();
    table.add("a".to_string(), 1);
    table.add("b".to_string(), 2);
    table.update_statuses(&[true, false]);
    let first = table.print_notifications();
    assert_eq!(first, vec!["[1]-  Done                    a"]);
    assert!(table.jobs[0].notified);
    let second = table.print_notifications();
    assert!(second.is_empty());
    table.remove_done();
    assert_eq!(table.jobs.len(), 1);
    assert_eq!(table.jobs[0].full_cmd, "b");
}
