use ni_watcher::coalesce::{
    is_relevant_kind, run_burst, run_spaced_pair, PendingTable, WatchEventKind,
    DEBOUNCE_WINDOW_MS,
};

#[test]
fn relevant_kinds() {
    assert!(is_relevant_kind(&WatchEventKind::Create));
    assert!(is_relevant_kind(&WatchEventKind::ModifyAny));
    assert!(is_relevant_kind(&WatchEventKind::RenameInto));
    assert!(!is_relevant_kind(&WatchEventKind::Other));
}

#[test]
fn record_then_confirm_dispatches_once() {
    let mut table = PendingTable::new();
    let p = b"/watch/a.png".to_vec();
    table.record(&p, 100);
    assert!(table.confirm(&p, 100));
    // the entry is gone: a second confirmation is a no-op
    assert!(!table.confirm(&p, 100));
}

#[test]
fn newer_event_supersedes_stale_confirmation() {
    let mut table = PendingTable::new();
    let p = b"/watch/a.png".to_vec();
    table.record(&p, 100);
    table.record(&p, 900);
    // the confirmation scheduled for the first event sees a newer
    // timestamp and must not dispatch
    assert!(!table.confirm(&p, 100));
    assert!(table.confirm(&p, 900));
}

#[test]
fn paths_are_independent() {
    let mut table = PendingTable::new();
    let a = b"/watch/a.png".to_vec();
    let b = b"/watch/b.png".to_vec();
    table.record(&a, 100);
    table.record(&b, 200);
    assert!(table.confirm(&a, 100));
    assert!(table.confirm(&b, 200));
}

#[test]
fn burst_dispatches_once_with_last_timestamp() {
    // three events spaced 1.5 s apart, under the 2 s debounce window
    let times = vec![100u64, 1_600, 3_100];
    let dispatches = run_burst(&times, DEBOUNCE_WINDOW_MS);
    assert_eq!(dispatches, vec![3_100u64]);
}

#[test]
fn single_event_dispatches_itself() {
    let times = vec![42u64];
    let dispatches = run_burst(&times, DEBOUNCE_WINDOW_MS);
    assert_eq!(dispatches, vec![42u64]);
}

#[test]
fn long_burst_still_dispatches_once() {
    // each gap is under the window even though the burst as a whole
    // lasts far longer than one window
    let times = vec![0u64, 1_900, 3_800, 5_700, 7_600, 9_500];
    let dispatches = run_burst(&times, 2_000);
    assert_eq!(dispatches, vec![9_500u64]);
}

#[test]
fn same_instant_events_dispatch_once() {
    // two events in the same millisecond still coalesce into one
    let times = vec![500u64, 500, 1_900];
    let dispatches = run_burst(&times, 2_000);
    assert_eq!(dispatches, vec![1_900u64]);
}

#[test]
fn all_equal_timestamps_dispatch_once() {
    let times = vec![7u64, 7, 7];
    let dispatches = run_burst(&times, 2_000);
    assert_eq!(dispatches, vec![7u64]);
}

#[test]
fn spaced_events_dispatch_twice() {
    let dispatches = run_spaced_pair(100, 5_000, DEBOUNCE_WINDOW_MS);
    assert_eq!(dispatches, vec![100u64, 5_000]);
}
