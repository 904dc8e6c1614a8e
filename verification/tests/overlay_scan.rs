use xdvdfs::overlay_scan::{OverlayScanState, ScanAction};

#[test]
fn test_overlay_scan_instantiates_new_records_once() {
    let mut state = OverlayScanState::new();
    let name = b"game.iso".to_vec();
    assert!(!state.host_entry_seen(&name));
    assert_eq!(state.provider_action(None), ScanAction::Skip);

    let rec = "game".to_string();
    assert_eq!(
        state.provider_action(Some(&rec)),
        ScanAction::Instantiate { instance_idx: 1 }
    );
    state.record_instance(&name, &rec);
    assert_eq!(state.instance_count, 1);
    assert!(state.host_entry_seen(&name));
    assert_eq!(state.provider_action(Some(&rec)), ScanAction::Skip);

    let other = "game.xiso".to_string();
    assert_eq!(
        state.provider_action(Some(&other)),
        ScanAction::Instantiate { instance_idx: 2 }
    );
    state.record_instance(&name, &other);
    assert_eq!(state.host_entries.len(), 1);
    assert_eq!(state.host_entries[0].1, vec![1, 2]);
    assert_eq!(state.provided, vec![(rec, 1), (other, 2)]);
}

#[test]
fn test_overlay_scan_separate_host_entries() {
    let mut state = OverlayScanState::new();
    state.record_instance(&b"a".to_vec(), &"x".to_string());
    state.record_instance(&b"b".to_vec(), &"y".to_string());
    assert!(state.host_entry_seen(&b"a".to_vec()));
    assert!(state.host_entry_seen(&b"b".to_vec()));
    assert!(!state.host_entry_seen(&b"c".to_vec()));
    assert_eq!(state.host_entries[1], (b"b".to_vec(), vec![2]));
}
