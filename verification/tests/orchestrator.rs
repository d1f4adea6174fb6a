use dirsync::orchestrator::{after_commit, after_uploads, Action, SyncError};

#[test]
fn run_without_chunks_skips_the_commit() {
    assert_eq!(after_uploads(&vec![]), Action::Succeed);
}

#[test]
fn run_with_successful_uploads_commits() {
    assert_eq!(after_uploads(&vec![true]), Action::Commit);
    assert_eq!(after_uploads(&vec![true, true, true]), Action::Commit);
}

#[test]
fn one_failed_upload_fails_the_run_without_commit() {
    assert_eq!(after_uploads(&vec![false]), Action::Fail(SyncError::Upload));
    assert_eq!(after_uploads(&vec![true, false, true]), Action::Fail(SyncError::Upload));
    assert_eq!(after_uploads(&vec![true, true, false]), Action::Fail(SyncError::Upload));
}

#[test]
fn commit_result_ends_the_run() {
    assert_eq!(after_commit(true), Action::Succeed);
    assert_eq!(after_commit(false), Action::Fail(SyncError::Commit));
}

#[test]
fn error_kinds_differ() {
    assert_ne!(SyncError::Scan, SyncError::ManifestFetch);
    assert_ne!(SyncError::Upload, SyncError::Commit);
}
