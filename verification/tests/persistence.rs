//! The backing store: append, compact, trim, and replay.

use edfsm::counter::Event;
use edfsm::persist::BackingStore;

#[test]
fn history_in_order_before_compaction() {
    let mut store = BackingStore::<Event>::new(2, 4);
    store.produce(Event::Tick);
    store.produce(Event::Reset);
    store.produce(Event::Tick);
    let h = store.history();
    assert_eq!(h.len(), 3);
    assert!(matches!(h[0], Event::Tick));
    assert!(matches!(h[1], Event::Reset));
    assert!(matches!(h[2], Event::Tick));
    assert_eq!(store.log_len(), 3);
    assert_eq!(store.compacted_len(), 0);
}

#[test]
fn compaction_trims_and_keeps_the_latest_per_key() {
    let mut store = BackingStore::<Event>::new(2, 4);
    for _ in 0..4 {
        store.produce(Event::Tick);
    }
    // the fifth event pushes the log over the high-water mark
    store.produce(Event::Reset);
    // trimmed down to the low-water mark, with one compacted row: all
    // counter events share one compaction key, so only the latest remains
    assert_eq!(store.log_len(), 2);
    assert_eq!(store.compacted_len(), 1);
    // the boundary covers the whole log, so history is the compacted row
    let h = store.history();
    assert_eq!(h.len(), 1);
    assert!(matches!(h[0], Event::Reset));
    // a later append shows up beyond the boundary
    store.produce(Event::Tick);
    let h = store.history();
    assert_eq!(h.len(), 2);
    assert!(matches!(h[0], Event::Reset));
    assert!(matches!(h[1], Event::Tick));
}

#[test]
fn compacting_an_empty_store_changes_nothing() {
    let mut store = BackingStore::<Event>::new(1, 10);
    store.compact();
    assert_eq!(store.log_len(), 0);
    assert_eq!(store.compacted_len(), 0);
    assert!(store.history().is_empty());
}

#[test]
fn explicit_compact_then_history() {
    let mut store = BackingStore::<Event>::new(2, 100);
    store.produce(Event::Tick);
    store.produce(Event::Tick);
    store.compact();
    // under the high-water mark nothing is trimmed, but the compacted
    // table now carries the latest event and the boundary covers the log
    assert_eq!(store.log_len(), 2);
    assert_eq!(store.compacted_len(), 1);
    let h = store.history();
    assert_eq!(h.len(), 1);
    assert!(matches!(h[0], Event::Tick));
}
