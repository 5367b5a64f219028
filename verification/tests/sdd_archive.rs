use sha2::{Digest, Sha256};

use wiki::digest::hash_bytes;
use wiki::sdd_archive::{archive_move, archive_ready, content_fingerprint, ChangeFile};
use wiki::sdd_check::ChangeStructure;
use wiki::sdd_parse::TaskDoc;
use wiki::sdd_verify::SddError;

fn file(path: &str, content: &[u8]) -> ChangeFile {
    ChangeFile { path: path.to_string(), content: content.to_vec() }
}

fn task(id: &str, status: &str) -> TaskDoc {
    TaskDoc {
        id: id.to_string(),
        priority: "must".to_string(),
        status: status.to_string(),
        task_type: "impl".to_string(),
        requirement_refs: vec![],
        acceptance_refs: vec![],
        dependencies: vec![],
        blocked_reason: None,
        unblock_condition: None,
        dropped_reason: None,
        has_definition: true,
    }
}

fn structure(tasks: Vec<TaskDoc>, has_tasks: bool) -> ChangeStructure {
    ChangeStructure {
        requirements: vec![],
        tasks,
        coverage: vec![],
        has_tasks,
        evidence_ids: vec![],
        issues: vec![],
    }
}

fn invalid_message(result: Result<(), SddError>) -> String {
    match result {
        Err(SddError::Invalid(message)) => message,
        Err(other) => panic!("unexpected error kind: {}", other.message()),
        Ok(()) => panic!("expected an error"),
    }
}

#[test]
fn fingerprint_hashes_files_framed_in_path_order() {
    let files = vec![file("tasks/T-001.md", b"task"), file("spec/R-001.md", b"req")];
    let mut hasher = Sha256::new();
    hasher.update(b"spec/R-001.md\0req\0tasks/T-001.md\0task\0");
    let expected: String = hasher.finalize().iter().map(|b| format!("{b:02x}")).collect();
    assert_eq!(content_fingerprint(&files), expected);
}

#[test]
fn fingerprint_ignores_listing_order_and_sees_content_changes() {
    let a = vec![file("spec/a.md", b"one"), file("spec/b.md", b"two"), file("tasks/t.md", b"three")];
    let b = vec![file("tasks/t.md", b"three"), file("spec/b.md", b"two"), file("spec/a.md", b"one")];
    assert_eq!(content_fingerprint(&a), content_fingerprint(&b));
    let changed = vec![file("spec/a.md", b"one"), file("spec/b.md", b"two!"), file("tasks/t.md", b"three")];
    assert_ne!(content_fingerprint(&a), content_fingerprint(&changed));
}

#[test]
fn fingerprint_of_no_files_is_the_digest_of_nothing() {
    assert_eq!(content_fingerprint(&Vec::new()), hash_bytes(b""));
    assert_eq!(hash_bytes(b""), "e3b0c44298fc1c149afbf4c8996fb92427ae41e4649b934ca495991b7852b855");
}

#[test]
fn archive_requires_verified_status() {
    let s = structure(vec![], false);
    assert_eq!(
        invalid_message(archive_ready("needs_fix", &s, Some("abc"))),
        "SDD_ARCHIVE_NOT_READY: status is needs_fix, expected verified."
    );
}

#[test]
fn archive_requires_finished_tasks() {
    let s = structure(vec![task("T-001", "done"), task("T-002", "in_progress"), task("T-003", "todo")], true);
    assert_eq!(
        invalid_message(archive_ready("verified", &s, Some("abc"))),
        "SDD_ARCHIVE_TASKS_INCOMPLETE: 任务 T-002 尚未完成：in_progress"
    );
    let done = structure(vec![task("T-001", "done"), task("T-002", "Dropped")], true);
    assert!(archive_ready("verified", &done, Some("abc")).is_ok());
    let undeclared = structure(vec![task("T-001", "todo")], false);
    assert!(archive_ready("verified", &undeclared, Some("abc")).is_ok());
}

#[test]
fn archive_requires_recorded_fingerprint() {
    let s = structure(vec![], false);
    assert_eq!(
        invalid_message(archive_ready("verified", &s, None)),
        "SDD_VERIFICATION_STALE: verified fingerprint is missing; rerun wiki sdd verify."
    );
}

#[test]
fn archive_move_refuses_changed_content_and_existing_destination() {
    assert_eq!(
        invalid_message(archive_move("abc", "abd", false, "docs/sdd/archives/x")),
        "SDD_VERIFICATION_STALE: spec/ or tasks/ changed after verification; rerun wiki sdd verify."
    );
    assert_eq!(
        invalid_message(archive_move("abc", "abc", true, "docs/sdd/archives/x")),
        "SDD_ARCHIVE_EXISTS: docs/sdd/archives/x"
    );
    assert!(archive_move("abc", "abc", false, "docs/sdd/archives/x").is_ok());
}

#[test]
fn archive_status_is_checked_first() {
    assert!(wiki::sdd_archive::archive_status("verified").is_ok());
    assert_eq!(
        invalid_message(wiki::sdd_archive::archive_status("draft")),
        "SDD_ARCHIVE_NOT_READY: status is draft, expected verified."
    );
}
