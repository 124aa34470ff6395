//! Change store behavior: heads, dependency checks, queries.

use docsync::{ApplyError, Automerge, Change, ChangeHash};

fn h(n: u8) -> ChangeHash {
    let mut b = [0u8; 32];
    b[0] = n;
    ChangeHash(b)
}

fn ch(id: u8, deps: Vec<ChangeHash>) -> Change {
    Change { hash: h(id), deps, payload: vec![id] }
}

#[test]
fn heads_are_sorted_and_undominated() {
    let mut doc = Automerge::new();
    doc.apply_changes(vec![ch(3, vec![]), ch(1, vec![]), ch(2, vec![h(3)])]).unwrap();
    // 3 is dominated by 2; 1 and 2 remain, sorted ascending.
    assert_eq!(doc.get_heads(), vec![h(1), h(2)]);
}

#[test]
fn apply_rejects_missing_dependency() {
    let mut doc = Automerge::new();
    let r = doc.apply_changes(vec![ch(2, vec![h(1)])]);
    assert_eq!(r, Err(ApplyError::MissingDep(h(1))));
    assert_eq!(doc.get_heads(), vec![]);
}

#[test]
fn apply_rejects_out_of_order_batch() {
    let mut doc = Automerge::new();
    let r = doc.apply_changes(vec![ch(2, vec![h(1)]), ch(1, vec![])]);
    assert_eq!(r, Err(ApplyError::MissingDep(h(1))));
    assert_eq!(doc.get_heads(), vec![]);
}

#[test]
fn apply_accepts_in_order_batch_and_skips_duplicates() {
    let mut doc = Automerge::new();
    doc.apply_changes(vec![ch(1, vec![]), ch(2, vec![h(1)])]).unwrap();
    doc.apply_changes(vec![ch(1, vec![]), ch(3, vec![h(2)])]).unwrap();
    assert_eq!(doc.num_changes(), 3);
    assert_eq!(doc.get_heads(), vec![h(3)]);
}

#[test]
fn get_changes_returns_everything_not_implied() {
    let mut doc = Automerge::new();
    doc.apply_changes(vec![ch(1, vec![]), ch(2, vec![h(1)]), ch(3, vec![h(2)])]).unwrap();
    let all = doc.get_changes(&[]);
    assert_eq!(all.len(), 3);
    assert_eq!(all[0].hash, h(1));
    let since_two = doc.get_changes(&[h(2)]);
    assert_eq!(since_two.len(), 1);
    assert_eq!(since_two[0].hash, h(3));
    let since_head = doc.get_changes(&[h(3)]);
    assert_eq!(since_head.len(), 0);
}

#[test]
fn get_missing_deps_reports_unknown_heads_sorted() {
    let mut doc = Automerge::new();
    doc.apply_changes(vec![ch(1, vec![])]).unwrap();
    let missing = doc.get_missing_deps(&[h(9), h(1), h(4)]);
    assert_eq!(missing, vec![h(4), h(9)]);
}

#[test]
fn get_change_by_hash_finds_stored_changes() {
    let mut doc = Automerge::new();
    doc.apply_changes(vec![ch(1, vec![])]).unwrap();
    assert!(doc.get_change_by_hash(&h(1)).is_some());
    assert!(doc.get_change_by_hash(&h(2)).is_none());
}
