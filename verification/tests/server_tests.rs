use vtt::jobs::{
    check_job_source, check_job_url, format_job_id, overall_status, request_job_id, result_check,
    upload_file_name, ApiError, JobEntry, JobTable,
};
use vtt::types::JobStatus;

fn msg(e: &ApiError) -> String {
    match e {
        ApiError::NotFound(m) | ApiError::BadRequest(m) | ApiError::Conflict(m) | ApiError::Internal(m) => m.clone(),
    }
}

#[test]
fn inserted_jobs_are_found_again() {
    let mut t = JobTable::new();
    t.insert(JobEntry::queued(7, "a.mp4".to_string()));
    t.insert(JobEntry::queued(9, "b.mp4".to_string()));
    let e = t.get(7).unwrap();
    assert_eq!(e.source, "a.mp4");
    assert_eq!(e.status, JobStatus::Queued);
    assert!(t.get(8).is_none());
    t.insert(JobEntry::queued(7, "c.mp4".to_string()));
    assert_eq!(t.get(7).unwrap().source, "c.mp4");
}

#[test]
fn status_changes_apply_to_one_job() {
    let mut t = JobTable::new();
    t.insert(JobEntry::queued(1, "a".to_string()));
    t.insert(JobEntry::queued(2, "b".to_string()));
    t.set_status(1, JobStatus::Processing);
    t.fail(2, "boom".to_string());
    t.set_source(1, "Title.mp4".to_string());
    t.set_status(3, JobStatus::Completed);
    assert_eq!(t.get(1).unwrap().status, JobStatus::Processing);
    assert_eq!(t.get(1).unwrap().source, "Title.mp4");
    assert_eq!(t.get(2).unwrap().status, JobStatus::Failed);
    assert_eq!(t.get(2).unwrap().error, Some("boom".to_string()));
    assert!(t.get(3).is_none());
}

#[test]
fn cancel_only_queued_jobs() {
    let id = 0x1234u128;
    let text = format_job_id(id);
    let mut t = JobTable::new();
    t.insert(JobEntry::queued(id, "a".to_string()));
    assert_eq!(t.cancel(&text).unwrap(), text);
    let e = t.get(id).unwrap();
    assert_eq!(e.status, JobStatus::Failed);
    assert_eq!(e.error, Some("cancelled by user".to_string()));
    assert_eq!(msg(&t.cancel(&text).unwrap_err()), "job already failed");

    let mut t = JobTable::new();
    t.insert(JobEntry::queued(id, "a".to_string()));
    t.set_status(id, JobStatus::Processing);
    assert_eq!(msg(&t.cancel(&text).unwrap_err()), "cannot cancel a job that is currently processing");
    assert_eq!(t.get(id).unwrap().status, JobStatus::Processing);
}

#[test]
fn cancel_reports_bad_and_unknown_ids() {
    let mut t = JobTable::new();
    match t.cancel("not-a-uuid") {
        Err(ApiError::BadRequest(m)) => assert_eq!(m, "invalid job ID: not-a-uuid"),
        other => panic!("{other:?}"),
    }
    let text = format_job_id(5);
    match t.cancel(&text) {
        Err(ApiError::NotFound(m)) => assert_eq!(m, format!("job not found: {text}")),
        other => panic!("{other:?}"),
    }
}

#[test]
fn job_ids_print_as_hyphenated_uuids() {
    assert_eq!(format_job_id(0), "00000000-0000-0000-0000-000000000000");
    assert_eq!(format_job_id(1), "00000000-0000-0000-0000-000000000001");
}

#[test]
fn cancel_all_leaves_nothing_queued() {
    let mut t = JobTable::new();
    t.insert(JobEntry::queued(1, "a".to_string()));
    t.insert(JobEntry::queued(2, "b".to_string()));
    t.insert(JobEntry::queued(3, "c".to_string()));
    t.set_status(2, JobStatus::Processing);
    assert_eq!(t.cancel_all(), 2);
    assert_eq!(t.get(1).unwrap().status, JobStatus::Failed);
    assert_eq!(t.get(2).unwrap().status, JobStatus::Processing);
    assert_eq!(t.get(3).unwrap().error, Some("cancelled by user".to_string()));
    assert_eq!(t.cancel_all(), 0);
}

#[test]
fn lookup_by_text() {
    let mut t = JobTable::new();
    t.insert(JobEntry::queued(42, "a".to_string()));
    let text = format_job_id(42);
    assert_eq!(t.lookup(&text).unwrap().source, "a");
    assert!(matches!(t.lookup("zzz"), Err(ApiError::BadRequest(_))));
}

#[test]
fn results_are_served_for_completed_jobs_only() {
    assert!(result_check(JobStatus::Completed).is_ok());
    assert_eq!(msg(&result_check(JobStatus::Failed).unwrap_err()), "job failed");
    assert_eq!(msg(&result_check(JobStatus::Queued).unwrap_err()), "job is not completed (status: queued)");
    assert_eq!(msg(&result_check(JobStatus::Processing).unwrap_err()), "job is not completed (status: processing)");
}

#[test]
fn request_checks() {
    assert_eq!(msg(&check_job_source("").unwrap_err()), "source must not be empty");
    assert_eq!(msg(&check_job_source("/nonexistent/x.mp4").unwrap_err()), "file not found: /nonexistent/x.mp4");
    assert_eq!(msg(&check_job_source("/").unwrap_err()), "only mp4 files are supported");
    assert_eq!(upload_file_name(None).unwrap(), "upload.mp4");
    assert_eq!(upload_file_name(Some("a.mp4")).unwrap(), "a.mp4");
    assert_eq!(msg(&upload_file_name(Some("a.mov")).unwrap_err()), "only mp4 files are supported");
    assert_eq!(msg(&check_job_url("").unwrap_err()), "url must not be empty");
    assert!(check_job_url("https://x").is_ok());
    assert_eq!(overall_status(true, true, true), "ok");
    assert_eq!(overall_status(true, false, true), "degraded");
}

#[test]
fn shown_job_ids_read_back() {
    for id in [0u128, 1, 0x1234, u128::MAX, 0x550e8400_e29b_41d4_a716_446655440000] {
        assert_eq!(request_job_id(&format_job_id(id)).ok(), Some(id));
    }
    assert!(request_job_id("not-a-uuid").is_err());
}
