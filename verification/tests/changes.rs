use pijul_core::changes::{check_deps, complete_deps, contains_cs, reversed, ChangeStore, DepsError, CS};
use pijul_core::channel::{ApplyError, ChangeLog, UnapplyError};
use pijul_core::table::{Gather, GatherError, Table, TableError};
use pijul_core::memory::{ChangeNotFound, InsertError, Memory};
use pijul_core::prefix::{has_prefix, hash_from_prefix, PrefixError};

fn h(n: u128) -> pijul_core::changes::Hash {
    pijul_core::changes::Hash(0, n)
}

fn c(n: u128) -> CS {
    CS::Change(h(n))
}

fn s(n: u128) -> CS {
    CS::State(pijul_core::changes::Merkle(n, 0))
}

fn store(entries: &[(u128, &[u128])]) -> Memory {
    let mut m = Memory::new();
    for (change, deps) in entries {
        let (next, res) = m.insert(h(*change), deps.iter().map(|d| h(*d)).collect());
        assert_eq!(res, Ok(()));
        m = next;
    }
    m
}

#[test]
fn store_takes_changes_after_their_dependencies() {
    let m = Memory::new();
    assert_eq!(m.len(), 0);
    let (m, res) = m.insert(h(1), vec![]);
    assert_eq!(res, Ok(()));
    let (m, res) = m.insert(h(2), vec![h(1)]);
    assert_eq!(res, Ok(()));
    assert_eq!(m.len(), 2);
    assert!(m.contains(&h(1)));
    assert!(!m.contains(&h(3)));
    assert_eq!(m.find(&h(2)), Some(1));
    assert_eq!(m.get_dependencies(&h(2)), Ok(vec![h(1)]));
    assert_eq!(m.get_dependencies(&h(1)), Ok(vec![]));
    assert_eq!(m.get_dependencies(&h(9)), Err(ChangeNotFound(h(9))));
}

#[test]
fn store_refuses_a_change_with_a_missing_dependency() {
    let m = store(&[(1, &[])]);
    let (m, res) = m.insert(h(3), vec![h(1), h(2), h(7)]);
    assert_eq!(res, Err(InsertError::MissingDependency(h(2))));
    assert_eq!(m.len(), 1);
    assert!(!m.contains(&h(3)));
    let (m, res) = m.insert(h(1), vec![]);
    assert_eq!(res, Err(InsertError::AlreadyKnown));
    assert_eq!(m.len(), 1);
}

#[test]
fn membership_and_reversal() {
    let list = [c(1), s(2), c(3)];
    assert!(contains_cs(&list, c(3)));
    assert!(contains_cs(&list, s(2)));
    assert!(!contains_cs(&list, c(2)));
    assert!(!contains_cs(&[], c(1)));
    assert_eq!(reversed(&list), vec![c(3), s(2), c(1)]);
}

#[test]
fn check_deps_accepts_a_closed_selection() {
    let m = store(&[(1, &[]), (2, &[1]), (3, &[2]), (4, &[])]);
    let original = [c(1), c(2), c(3), c(4)];
    assert!(check_deps(&m, &original, &[c(1), c(2)]).is_ok());
    assert!(check_deps(&m, &original, &[c(4)]).is_ok());
    assert!(check_deps(&m, &original, &[]).is_ok());
    assert!(check_deps(&m, &original, &[c(3), c(2), c(1)]).is_ok());
}

#[test]
fn check_deps_names_the_first_change_that_lacks_a_dependency() {
    let m = store(&[(1, &[]), (2, &[1]), (3, &[2]), (4, &[])]);
    let original = [c(1), c(2), c(3), c(4)];
    // 3 has what it depends on; 2 depends on 1, which was offered and is not selected
    match check_deps(&m, &original, &[c(4), c(3), c(2)]) {
        Err(DepsError::MissingDependency(x)) => assert_eq!(x, h(2)),
        other => panic!("{:?}", other),
    }
    match check_deps(&m, &original, &[c(3), c(4)]) {
        Err(DepsError::MissingDependency(x)) => assert_eq!(x, h(3)),
        other => panic!("{:?}", other),
    }
    // a dependency that was not offered is not asked for
    assert!(check_deps(&m, &[c(2), c(3)], &[c(2)]).is_ok());
    // states have no dependencies
    assert!(check_deps(&m, &original, &[s(1)]).is_ok());
}

#[test]
fn check_deps_hands_on_the_failure_of_the_store() {
    let m = store(&[(1, &[])]);
    match check_deps(&m, &[c(1)], &[c(9)]) {
        Err(DepsError::Store(e)) => assert_eq!(e, ChangeNotFound(h(9))),
        other => panic!("{:?}", other),
    }
}

#[test]
fn complete_deps_adds_what_is_missing_before_what_needs_it() {
    let m = store(&[(1, &[]), (2, &[1]), (3, &[2]), (4, &[])]);
    assert_eq!(complete_deps(&m, None, &[c(3)]), Ok(vec![c(1), c(2), c(3)]));
    assert_eq!(complete_deps(&m, None, &[c(4), c(3)]), Ok(vec![c(4), c(1), c(2), c(3)]));
    assert_eq!(complete_deps(&m, None, &[c(2), c(3)]), Ok(vec![c(1), c(2), c(3)]));
    assert_eq!(complete_deps(&m, None, &[]), Ok(vec![]));
}

#[test]
fn complete_deps_keeps_the_order_of_the_selection() {
    let m = store(&[(1, &[]), (2, &[1]), (3, &[2]), (4, &[])]);
    // what is selected is not moved, even before what it depends on
    assert_eq!(complete_deps(&m, None, &[c(3), c(2), c(1)]), Ok(vec![c(3), c(2), c(1)]));
    assert_eq!(complete_deps(&m, None, &[c(3), c(1)]), Ok(vec![c(2), c(3), c(1)]));
}

#[test]
fn complete_deps_drops_changes_named_twice_and_keeps_states() {
    let m = store(&[(1, &[]), (2, &[1])]);
    assert_eq!(
        complete_deps(&m, None, &[c(1), s(5), c(1), s(5), c(2)]),
        Ok(vec![c(1), s(5), s(5), c(2)])
    );
}

#[test]
fn complete_deps_counts_only_what_was_offered() {
    let m = store(&[(1, &[]), (2, &[1]), (3, &[2])]);
    let offered = [c(2), c(3)];
    assert_eq!(complete_deps(&m, Some(&offered), &[c(3)]), Ok(vec![c(2), c(3)]));
    assert_eq!(complete_deps(&m, Some(&[c(3)]), &[c(3)]), Ok(vec![c(3)]));
}

#[test]
fn complete_deps_with_shared_dependencies() {
    let m = store(&[(1, &[]), (2, &[1]), (3, &[1]), (4, &[3, 2]), (5, &[2, 4])]);
    assert_eq!(complete_deps(&m, None, &[c(4)]), Ok(vec![c(1), c(2), c(3), c(4)]));
    // the dependency found last is looked into first
    assert_eq!(complete_deps(&m, None, &[c(5)]), Ok(vec![c(1), c(2), c(3), c(4), c(5)]));
    let out = complete_deps(&m, None, &[c(5), c(4)]).unwrap();
    assert_eq!(out, vec![c(1), c(2), c(5), c(3), c(4)]);
}

#[test]
fn complete_deps_hands_on_the_failure_of_the_store() {
    let m = store(&[(1, &[])]);
    assert_eq!(complete_deps(&m, None, &[c(1), c(8)]), Err(ChangeNotFound(h(8))));
}

fn rows(entries: &[(u128, &[u128])]) -> Vec<(pijul_core::changes::Hash, Vec<pijul_core::changes::Hash>)> {
    entries.iter().map(|(k, deps)| (h(*k), deps.iter().map(|d| h(*d)).collect())).collect()
}

#[test]
fn a_table_is_made_of_rows_in_any_order() {
    let t = Table::build(rows(&[(3, &[2]), (2, &[1, 9]), (1, &[]), (4, &[3, 1])])).ok().unwrap();
    assert_eq!(t.len(), 4);
    assert!(t.contains(&h(3)));
    assert!(!t.contains(&h(9)));
    assert_eq!(t.get_dependencies(&h(2)), Ok(vec![h(1), h(9)]));
    assert_eq!(t.get_dependencies(&h(4)), Ok(vec![h(3), h(1)]));
    assert_eq!(t.get_dependencies(&h(9)), Err(ChangeNotFound(h(9))));
    // 9 counts and has no row
    assert_eq!(complete_deps(&t, None, &[c(4)]), Err(ChangeNotFound(h(9))));
    // 9 was not offered
    let offered = [c(1), c(2), c(3), c(4)];
    assert_eq!(complete_deps(&t, Some(&offered), &[c(4)]), Ok(vec![c(1), c(2), c(3), c(4)]));
    assert!(Table::build(vec![]).is_ok());
}

#[test]
fn rows_in_a_circle_make_no_table() {
    assert_eq!(Table::build(rows(&[(1, &[2]), (2, &[1])])).err(), Some(TableError::Circular));
    assert_eq!(Table::build(rows(&[(1, &[1])])).err(), Some(TableError::Circular));
    assert_eq!(
        Table::build(rows(&[(5, &[]), (1, &[2]), (2, &[3]), (3, &[1])])).err(),
        Some(TableError::Circular)
    );
    assert_eq!(
        Table::build(rows(&[(1, &[]), (2, &[1]), (1, &[])])).err(),
        Some(TableError::Duplicate(h(1)))
    );
}

/// Completes a selection as a caller does that reads a store of its own.
fn complete_with(
    store: &[(u128, &[u128])],
    original: Option<&[CS]>,
    now: &[CS],
) -> Result<(Vec<CS>, bool, Vec<u128>), GatherError> {
    let mut read = Vec::new();
    let mut gather = Gather::new(original, now);
    loop {
        let (g, next) = gather.next();
        gather = g;
        let Some(x) = next else { break };
        let Some(row) = store.iter().find(|r| h(r.0) == x) else { break };
        read.push(row.0);
        gather = gather.feed(x, row.1.iter().map(|d| h(*d)).collect());
    }
    gather.complete().map(|(_, list, was_complete)| (list, was_complete, read))
}

#[test]
fn a_selection_is_completed_from_what_is_read_of_a_store() {
    let store: &[(u128, &[u128])] = &[(1, &[]), (2, &[1]), (3, &[2]), (4, &[]), (5, &[4])];
    let (list, was_complete, read) = complete_with(store, None, &[c(3)]).unwrap();
    assert_eq!(list, vec![c(1), c(2), c(3)]);
    assert!(!was_complete);
    assert_eq!(read, vec![3, 2, 1]);
    let (list, was_complete, _) = complete_with(store, None, &[c(1), c(2)]).unwrap();
    assert_eq!(list, vec![c(1), c(2)]);
    assert!(was_complete);
}

#[test]
fn only_what_counts_is_read() {
    let store: &[(u128, &[u128])] = &[(1, &[]), (2, &[1]), (3, &[2]), (4, &[3])];
    let offered = [c(3), c(4)];
    let (list, was_complete, read) = complete_with(store, Some(&offered), &[c(4)]).unwrap();
    assert_eq!(list, vec![c(3), c(4)]);
    assert!(!was_complete);
    // 2 was not offered: it is not read
    assert_eq!(read, vec![4, 3]);
}

#[test]
fn a_selection_is_not_completed_before_all_is_read() {
    let store: &[(u128, &[u128])] = &[(2, &[1]), (3, &[2])];
    assert_eq!(complete_with(store, None, &[c(3)]).err(), Some(GatherError::Unfinished(h(1))));
    let gather = Gather::new(None, &[c(7)]);
    assert_eq!(gather.complete().err(), Some(GatherError::Unfinished(h(7))));
    let gather = Gather::new(None, &[s(7)]);
    assert_eq!(gather.complete().map(|r| (r.1, r.2)).ok(), Some((vec![s(7)], true)));
}

#[test]
fn a_circle_in_what_is_read_is_reported() {
    let store: &[(u128, &[u128])] = &[(1, &[2]), (2, &[3]), (3, &[2])];
    assert_eq!(complete_with(store, None, &[c(1)]).err(), Some(GatherError::Circular));
}

#[test]
fn rows_are_taken_once() {
    let gather = Gather::new(None, &[c(2)]);
    let gather = gather.feed(h(2), vec![h(1)]);
    let gather = gather.feed(h(2), vec![]);
    let (gather, next) = gather.next();
    assert_eq!(next, Some(h(1)));
    let gather = gather.feed(h(1), vec![]);
    let (gather, next) = gather.next();
    assert_eq!(next, None);
    let (_, list, was_complete) = gather.complete().ok().unwrap();
    assert_eq!(list, vec![c(1), c(2)]);
    assert!(!was_complete);
}

#[test]
fn apply_gives_the_next_ordinal() {
    let m = store(&[(1, &[]), (2, &[1])]);
    let mut log = ChangeLog::new();
    assert_eq!(log.len(), 0);
    assert_eq!(log.apply(&m, h(1)).unwrap(), 0);
    assert_eq!(log.apply(&m, h(2)).unwrap(), 1);
    assert_eq!(log.changes, vec![h(1), h(2)]);
    assert_eq!(log.ordinal(h(2)), Some(1));
    assert_eq!(log.ordinal(h(3)), None);
}

#[test]
fn apply_with_a_missing_dependency_is_rejected_and_changes_nothing() {
    let m = store(&[(1, &[]), (2, &[1]), (3, &[2])]);
    let mut log = ChangeLog::new();
    log.apply(&m, h(1)).unwrap();
    // 3 depends on 2, which depends on 1: 2 is missing
    match log.apply(&m, h(3)) {
        Err(ApplyError::MissingDependency(d)) => assert_eq!(d, h(2)),
        other => panic!("{:?}", other),
    }
    assert_eq!(log.changes, vec![h(1)]);
    assert!(matches!(log.apply(&m, h(1)), Err(ApplyError::AlreadyApplied)));
    assert!(matches!(log.apply(&m, h(9)), Err(ApplyError::Store(ChangeNotFound(_)))));
    assert_eq!(log.changes, vec![h(1)]);
}

#[test]
fn unapply_undoes_apply() {
    let m = store(&[(1, &[]), (2, &[1]), (3, &[])]);
    let mut log = ChangeLog::new();
    log.apply(&m, h(1)).unwrap();
    log.apply(&m, h(3)).unwrap();
    let before = log.changes.clone();
    log.apply(&m, h(2)).unwrap();
    log.unapply(&m, h(2)).unwrap();
    assert_eq!(log.changes, before);
}

#[test]
fn apply_unapply_apply_repeats_the_first_apply() {
    let m = store(&[(1, &[]), (2, &[1])]);
    let mut log = ChangeLog::new();
    log.apply(&m, h(1)).unwrap();
    let s0 = log.changes.clone();
    log.apply(&m, h(2)).unwrap();
    let s1 = log.changes.clone();
    log.unapply(&m, h(2)).unwrap();
    assert_eq!(log.changes, s0);
    log.apply(&m, h(2)).unwrap();
    assert_eq!(log.changes, s1);
}

#[test]
fn unapply_refuses_what_is_depended_upon() {
    let m = store(&[(1, &[]), (2, &[1]), (3, &[])]);
    let mut log = ChangeLog::new();
    log.apply(&m, h(1)).unwrap();
    log.apply(&m, h(3)).unwrap();
    log.apply(&m, h(2)).unwrap();
    match log.unapply(&m, h(1)) {
        Err(UnapplyError::DependedUpon(by)) => assert_eq!(by, h(2)),
        other => panic!("{:?}", other),
    }
    assert!(matches!(log.unapply(&m, h(7)), Err(UnapplyError::NotApplied)));
    assert_eq!(log.changes, vec![h(1), h(3), h(2)]);
    // a change in the middle of the log can leave it
    log.unapply(&m, h(3)).unwrap();
    assert_eq!(log.changes, vec![h(1), h(2)]);
}

#[test]
fn independent_changes_can_be_applied_in_either_order() {
    let m = store(&[(1, &[]), (2, &[1]), (3, &[1])]);
    let mut a = ChangeLog::new();
    a.apply(&m, h(1)).unwrap();
    a.apply(&m, h(2)).unwrap();
    a.apply(&m, h(3)).unwrap();
    let mut b = ChangeLog::new();
    b.apply(&m, h(1)).unwrap();
    b.apply(&m, h(3)).unwrap();
    b.apply(&m, h(2)).unwrap();
    let mut x = a.changes.clone();
    let mut y = b.changes.clone();
    x.sort_by_key(|h| h.1);
    y.sort_by_key(|h| h.1);
    assert_eq!(x, y);
}

#[test]
fn prefixes_name_one_change_or_none() {
    let known = vec![
        ("ABCD".to_string(), h(1)),
        ("ABXY".to_string(), h(2)),
        ("QRST".to_string(), h(3)),
        ("QRST".to_string(), h(3)),
    ];
    assert_eq!(hash_from_prefix(&known, "ABC"), Ok(h(1)));
    assert_eq!(hash_from_prefix(&known, "ABXY"), Ok(h(2)));
    assert_eq!(hash_from_prefix(&known, "AB"), Err(PrefixError::Ambiguous));
    assert_eq!(hash_from_prefix(&known, ""), Err(PrefixError::Ambiguous));
    assert_eq!(hash_from_prefix(&known, "Z"), Err(PrefixError::NotFound));
    assert_eq!(hash_from_prefix(&known, "ABCDE"), Err(PrefixError::NotFound));
    // one change under two names is one change
    assert_eq!(hash_from_prefix(&known, "Q"), Ok(h(3)));
    assert_eq!(hash_from_prefix(&[], "A"), Err(PrefixError::NotFound));
    assert!(has_prefix("abc", ""));
    assert!(has_prefix("abc", "abc"));
    assert!(!has_prefix("abc", "abcd"));
    assert!(!has_prefix("abc", "b"));
}
