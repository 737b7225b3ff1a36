use rmote::coalesce::{affected_paths, fold, history_of, reduce, RawEvent};
use rmote::filter::PathFilter;
use rmote::intent::{EventKind, Intent};
use rmote::path::SyncPath;

fn p(s: &str) -> SyncPath {
    SyncPath::parse(s)
}

fn ev(kind: EventKind, paths: &[&str]) -> RawEvent {
    RawEvent { kind, paths: paths.iter().map(|s| p(s)).collect() }
}

fn no_filter() -> PathFilter {
    PathFilter::new(p("/r"), &Vec::new())
}

fn pairs(r: &Vec<(SyncPath, Intent)>) -> Vec<(String, Intent)> {
    r.iter().map(|(path, intent)| (path.to_string(), *intent)).collect()
}

#[test]
fn candidate_of_each_kind() {
    assert_eq!(EventKind::Created.candidate(), Intent::Transfer);
    assert_eq!(EventKind::Modified.candidate(), Intent::Transfer);
    assert_eq!(EventKind::Removed.candidate(), Intent::Delete);
    assert_eq!(EventKind::Other.candidate(), Intent::NoOp);
    assert!(EventKind::Created.is_of_interest());
    assert!(EventKind::Modified.is_of_interest());
    assert!(EventKind::Removed.is_of_interest());
    assert!(!EventKind::Other.is_of_interest());
}

#[test]
fn fold_modified_then_removed_is_delete() {
    assert_eq!(fold(&vec![EventKind::Modified, EventKind::Removed]), Intent::Delete);
}

#[test]
fn fold_removed_then_created_is_transfer() {
    assert_eq!(fold(&vec![EventKind::Removed, EventKind::Created]), Intent::Transfer);
}

#[test]
fn fold_created_modified_modified_collapses_to_transfer() {
    assert_eq!(
        fold(&vec![EventKind::Created, EventKind::Modified, EventKind::Modified]),
        Intent::Transfer
    );
}

#[test]
fn fold_of_nothing_actionable_is_no_op() {
    assert_eq!(fold(&vec![]), Intent::NoOp);
    assert_eq!(fold(&vec![EventKind::Other, EventKind::Other]), Intent::NoOp);
}

#[test]
fn fold_looks_through_other_kinds() {
    assert_eq!(fold(&vec![EventKind::Removed, EventKind::Other]), Intent::Delete);
    assert_eq!(
        fold(&vec![EventKind::Created, EventKind::Other, EventKind::Modified, EventKind::Other]),
        Intent::Transfer
    );
    assert_eq!(
        fold(&vec![
            EventKind::Created,
            EventKind::Removed,
            EventKind::Modified,
            EventKind::Removed
        ]),
        Intent::Delete
    );
}

#[test]
fn reduce_modified_then_removed_yields_delete() {
    let events = vec![ev(EventKind::Modified, &["/r/P"]), ev(EventKind::Removed, &["/r/P"])];
    assert_eq!(pairs(&reduce(&no_filter(), &events)), vec![("/r/P".to_string(), Intent::Delete)]);
}

#[test]
fn reduce_removed_then_created_yields_transfer() {
    let events = vec![ev(EventKind::Removed, &["/r/P"]), ev(EventKind::Created, &["/r/P"])];
    assert_eq!(pairs(&reduce(&no_filter(), &events)), vec![("/r/P".to_string(), Intent::Transfer)]);
}

#[test]
fn reduce_created_modified_modified_yields_one_transfer() {
    let events = vec![
        ev(EventKind::Created, &["/r/P"]),
        ev(EventKind::Modified, &["/r/P"]),
        ev(EventKind::Modified, &["/r/P"]),
    ];
    assert_eq!(pairs(&reduce(&no_filter(), &events)), vec![("/r/P".to_string(), Intent::Transfer)]);
}

#[test]
fn reduce_editor_save_nets_one_transfer() {
    let events = vec![
        ev(EventKind::Modified, &["/r/f"]),
        ev(EventKind::Removed, &["/r/f"]),
        ev(EventKind::Created, &["/r/f"]),
    ];
    assert_eq!(pairs(&reduce(&no_filter(), &events)), vec![("/r/f".to_string(), Intent::Transfer)]);
}

#[test]
fn reduce_keeps_paths_apart_and_in_order_of_first_appearance() {
    let events = vec![
        ev(EventKind::Created, &["/r/b", "/r/a"]),
        ev(EventKind::Removed, &["/r/a"]),
        ev(EventKind::Other, &["/r/c"]),
        ev(EventKind::Modified, &["/r/b"]),
    ];
    assert_eq!(
        pairs(&reduce(&no_filter(), &events)),
        vec![
            ("/r/b".to_string(), Intent::Transfer),
            ("/r/a".to_string(), Intent::Delete),
            ("/r/c".to_string(), Intent::NoOp),
        ]
    );
}

#[test]
fn reduce_drops_excluded_paths() {
    let f = PathFilter::new(p("/r"), &vec!["target".to_string()]);
    let events = vec![
        ev(EventKind::Created, &["/r/target/debug/x", "/r/src/lib.rs"]),
        ev(EventKind::Removed, &["/r/target"]),
    ];
    assert_eq!(pairs(&reduce(&f, &events)), vec![("/r/src/lib.rs".to_string(), Intent::Transfer)]);
}

#[test]
fn reduce_of_an_empty_window_is_empty() {
    assert!(reduce(&no_filter(), &vec![]).is_empty());
    assert!(reduce(&no_filter(), &vec![ev(EventKind::Created, &[])]).is_empty());
}

#[test]
fn reduce_names_no_path_twice() {
    let events = vec![
        ev(EventKind::Created, &["/r/a", "/r/a"]),
        ev(EventKind::Removed, &["/r/a/"]),
        ev(EventKind::Created, &["/r//a"]),
    ];
    let r = reduce(&no_filter(), &events);
    assert_eq!(pairs(&r), vec![("/r/a".to_string(), Intent::Transfer)]);
}

#[test]
fn history_records_each_mention_in_arrival_order() {
    let events = vec![
        ev(EventKind::Created, &["/r/a", "/r/b", "/r/a"]),
        ev(EventKind::Removed, &["/r/b"]),
        ev(EventKind::Modified, &["/r/a"]),
    ];
    assert_eq!(
        history_of(&events, &p("/r/a")),
        vec![EventKind::Created, EventKind::Created, EventKind::Modified]
    );
    assert_eq!(history_of(&events, &p("/r/b")), vec![EventKind::Created, EventKind::Removed]);
    assert!(history_of(&events, &p("/r/c")).is_empty());
}

#[test]
fn affected_paths_lists_each_path_once() {
    let events = vec![ev(EventKind::Created, &["/r/a", "/r/b"]), ev(EventKind::Removed, &["/r/a"])];
    let keys: Vec<String> =
        affected_paths(&no_filter(), &events).iter().map(|k| k.to_string()).collect();
    assert_eq!(keys, vec!["/r/a".to_string(), "/r/b".to_string()]);
}
