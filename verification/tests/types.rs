//! The log and its index arithmetic.

use murmur::raft::{Log, LogEntry, Term};

fn log_with_terms(terms: &[Term]) -> Log {
    Log::from_entries(terms.iter().map(|&t| LogEntry::new(t, vec![])).collect())
}

#[test]
fn empty_log_origin() {
    let log = Log::new();
    assert_eq!(log.last_index(), 0);
    assert_eq!(log.last_term(), 0);
    assert_eq!(log.term_at(0), Some(0)); // synthetic origin
    assert_eq!(log.term_at(1), None);
    assert!(log.get(0).is_none());
}

#[test]
fn term_and_get_by_index() {
    let log = log_with_terms(&[1, 1, 2]);
    assert_eq!(log.last_index(), 3);
    assert_eq!(log.last_term(), 2);
    assert_eq!(log.term_at(1), Some(1));
    assert_eq!(log.term_at(2), Some(1));
    assert_eq!(log.term_at(3), Some(2));
    assert_eq!(log.term_at(4), None);
    assert_eq!(log.get(2).unwrap().term, 1);
}

#[test]
fn entries_after_slices_correctly() {
    let log = log_with_terms(&[1, 2, 3]);
    assert_eq!(log.entries_after(0).len(), 3); // everything
    assert_eq!(log.entries_after(1).len(), 2); // indices 2,3
    assert_eq!(log.entries_after(3).len(), 0); // nothing past the end
    assert_eq!(log.entries_after(9).len(), 0); // clamped
    assert_eq!(log.entries_after(1)[0].term, 2);
}

#[test]
fn truncate_erases_suffix() {
    let mut log = log_with_terms(&[1, 2, 3]);
    log.truncate_after(1);
    assert_eq!(log.last_index(), 1);
    assert_eq!(log.last_term(), 1);
    log.truncate_after(0);
    assert!(log.is_empty());
}

#[test]
fn append_returns_new_index() {
    let mut log = Log::new();
    assert_eq!(log.append(LogEntry::new(1, vec![])), 1);
    assert_eq!(log.append(LogEntry::new(1, vec![])), 2);
}
