use statute_annotator::queue::{final_rows, ChapterUnit, CommitError, QueueError, WorkQueue};
use statute_annotator::record::{Buffer, LawRow};

fn row(code: &str) -> LawRow {
    LawRow {
        penal_code: code.to_string(),
        chapter: "c".to_string(),
        summary: "s".to_string(),
        illustrations: vec!["".to_string()],
        sidenotes: vec!["".to_string()],
    }
}

fn unit(id: i32, text: &str) -> ChapterUnit {
    ChapterUnit { id, text: text.to_string() }
}

fn record(code: &str, summary: &str) -> Buffer {
    Buffer {
        chapter: "".to_string(),
        penal_code: code.to_string(),
        summary: Some(summary.to_string()),
        illustrations: None,
        sidenotes: None,
    }
}

fn pending_ids(q: &WorkQueue) -> Vec<i32> {
    q.list_pending().iter().map(|u| u.id).collect()
}

#[test]
fn bootstrap_numbers_units_from_one() {
    let mut q = WorkQueue::new();
    assert!(q.needs_bootstrap());
    assert!(q.bootstrap(vec!["a".to_string(), "b".to_string()]));
    assert_eq!(pending_ids(&q), vec![1, 2]);
    assert_eq!(q.list_pending()[1].text, "b");
}

#[test]
fn bootstrap_twice_changes_nothing() {
    let mut q = WorkQueue::new();
    q.bootstrap(vec!["a".to_string(), "b".to_string()]);
    assert!(!q.bootstrap(vec!["x".to_string()]));
    assert_eq!(pending_ids(&q), vec![1, 2]);
    assert_eq!(q.list_pending()[0].text, "a");
}

#[test]
fn run_resumes_at_remaining_unit() {
    let mut q = WorkQueue::restore(vec![unit(2, "second")], vec![1], vec![]).unwrap();
    assert!(!q.needs_bootstrap());
    let next = q.next_unit().unwrap().id;
    assert_eq!(next, 2);
    assert_eq!(q.commit(2, vec![row("302")]), Ok(()));
    assert!(q.next_unit().is_none());
    assert_eq!(q.completed(), &vec![1, 2]);
    // a later run has nothing to write
    assert!(!q.bootstrap(vec!["again".to_string()]));
    assert!(q.list_pending().is_empty());
    assert_eq!(q.commit(3, vec![row("1")]), Err(CommitError::NotNext));
    assert_eq!(q.laws().len(), 1);
}

#[test]
fn failed_commit_leaves_unit_pending() {
    let mut q = WorkQueue::new();
    q.bootstrap(vec!["a".to_string(), "b".to_string()]);
    assert_eq!(q.commit(1, vec![row("10")]), Ok(()));
    // the second row repeats a stored key: nothing of this commit may stay
    assert_eq!(q.commit(2, vec![row("11"), row("10")]), Err(CommitError::DuplicateKey));
    assert_eq!(pending_ids(&q), vec![2]);
    assert_eq!(q.completed(), &vec![1]);
    assert_eq!(q.laws().len(), 1);
    assert_eq!(q.commit(2, vec![row("12"), row("12")]), Err(CommitError::DuplicateKey));
    assert_eq!(q.laws().len(), 1);
}

#[test]
fn commit_must_take_lowest_pending_unit() {
    let mut q = WorkQueue::new();
    q.bootstrap(vec!["a".to_string(), "b".to_string()]);
    assert_eq!(q.commit(2, vec![]), Err(CommitError::NotNext));
    assert_eq!(pending_ids(&q), vec![1, 2]);
}

#[test]
fn every_unit_in_exactly_one_state() {
    let mut q = WorkQueue::new();
    q.bootstrap(vec!["a".to_string(), "b".to_string(), "c".to_string()]);
    q.commit(1, vec![row("1")]).unwrap();
    q.commit(2, vec![row("2")]).unwrap();
    let pending = pending_ids(&q);
    for id in 1..=3 {
        let p = pending.contains(&id);
        let c = q.completed().contains(&id);
        assert!(p != c);
    }
}

#[test]
fn restore_refuses_broken_contents() {
    assert_eq!(WorkQueue::restore(vec![unit(3, ""), unit(2, "")], vec![], vec![]).err(), Some(QueueError::Unordered));
    assert_eq!(WorkQueue::restore(vec![], vec![1, 1], vec![]).err(), Some(QueueError::RepeatedCompleted));
    assert_eq!(WorkQueue::restore(vec![unit(1, "")], vec![1], vec![]).err(), Some(QueueError::BothStates));
    assert_eq!(WorkQueue::restore(vec![], vec![], vec![row("1"), row("1")]).err(), Some(QueueError::RepeatedKey));
    assert!(WorkQueue::restore(vec![unit(2, ""), unit(5, "")], vec![1], vec![row("1")]).is_ok());
}

#[test]
fn final_rows_keep_last_snapshot_per_code() {
    let records = vec![record("302", "a"), record("302", "a b"), record("303", "c"), record("302", "d")];
    let rows = final_rows(&records);
    let codes: Vec<&str> = rows.iter().map(|r| r.penal_code.as_str()).collect();
    assert_eq!(codes, vec!["303", "302"]);
    assert_eq!(rows[1].summary, "d");
    let mut q = WorkQueue::new();
    q.bootstrap(vec!["x".to_string()]);
    assert_eq!(q.commit(1, rows), Ok(()));
}

#[test]
fn restored_laws_block_repeated_codes() {
    let mut q = WorkQueue::restore(vec![unit(2, "second")], vec![1], vec![row("302")]).unwrap();
    assert_eq!(q.commit(2, vec![row("302")]), Err(CommitError::DuplicateKey));
    assert_eq!(pending_ids(&q), vec![2]);
}

#[test]
fn final_rows_leave_out_unassigned_codes() {
    let records = vec![record("", "chapter start"), record("1", "a"), record("", "later")];
    let rows = final_rows(&records);
    let codes: Vec<&str> = rows.iter().map(|r| r.penal_code.as_str()).collect();
    assert_eq!(codes, vec!["1"]);
}
