use qumulus::node::Node;
use qumulus::zone::{after_merge, split_check, ZoneState};

#[test]
fn test_zone_state() {
    let mut state: ZoneState = Default::default();

    assert!(state.is_idle());
    assert!(!state.is_ready());

    state.set(ZoneState::LOADING);
    assert!(state.is_loading());
    assert!(!state.is_ready());

    state.set(ZoneState::ACTIVE);
    assert!(state.is_active());
    assert!(state.is_ready());

    state.set(ZoneState::DIRTY);
    assert!(state.is_dirty());
    assert!(state.is_ready());

    state.set(ZoneState::WRITING);
    assert!(state.is_writing());
    assert!(state.is_ready());
}

#[test]
fn zone_lifecycle() {
    let mut state: ZoneState = Default::default();
    // a user command arrives while idle: queue it and ask to load
    assert!(state.on_queued_call());
    assert!(state.is_init());
    // a second one only queues
    assert!(!state.on_queued_call());
    assert!(state.on_load());
    assert!(state.is_loading());
    state.on_loaded();
    assert!(state.is_active());
    // already loaded: nothing to do
    assert!(!state.on_load());
    assert!(state.is_active());
    // a write dirties the zone and asks the store for a write slot
    assert!(state.on_dirty());
    assert!(state.is_dirty());
    assert!(!state.on_dirty());
    // the store is ready
    assert!(state.on_save());
    assert!(state.is_writing());
    // spurious save
    assert!(!state.on_save());
    // dirtied while writing
    assert!(!state.on_dirty());
    assert!(state.is_dirty());
    // write done but dirty again: ask for another write
    assert!(state.on_saved());
    assert!(state.is_dirty());
    assert!(state.on_save());
    assert!(!state.on_saved());
    assert!(state.is_active());
    // hibernate only when clean
    assert!(state.on_hibernate());
    assert!(state.is_idle());
    assert!(!state.on_hibernate());
    assert!(state.is_idle());
}

#[test]
fn split_check_every_ten_writes() {
    assert_eq!(split_check(9), (9, false));
    assert_eq!(split_check(10), (0, true));
    assert_eq!(split_check(12), (0, true));
}

#[test]
fn after_merge_counts_dirties_and_replicates_changes() {
    let changed = Node::delete(5);
    let nothing = Node::default();
    let a = after_merge(&changed, true, 3);
    assert_eq!((a.writes, a.dirty, a.replicate), (4, true, true));
    let a = after_merge(&changed, false, 3);
    assert_eq!((a.writes, a.dirty, a.replicate), (4, true, false));
    let a = after_merge(&nothing, true, 3);
    assert_eq!((a.writes, a.dirty, a.replicate), (3, false, false));
}
