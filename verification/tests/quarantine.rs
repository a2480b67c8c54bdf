use std::collections::BTreeSet;

use keystone_state_machine::keys::{parse_quarantine_marker, quarantine_meta_key, MarkerKey};
use keystone_state_machine::quarantine::{
    MetaWrite, QuarantineTracker, QUARANTINE_THRESHOLD, QUARANTINE_WINDOW_NANOS,
};

/// Carries out `writes` on a set of `meta` keys, as a batch would.
fn apply_writes(keys: &mut BTreeSet<Vec<u8>>, writes: &[MetaWrite]) {
    for w in writes {
        match w {
            MetaWrite::Insert { key, .. } => {
                keys.insert(key.clone());
            }
            MetaWrite::Remove { key } => {
                keys.remove(key);
            }
        }
    }
}

fn as_vec(keys: &BTreeSet<Vec<u8>>) -> Vec<Vec<u8>> {
    keys.iter().cloned().collect()
}

#[test]
fn quarantine_meta_key_puts_partition_before_node_id() {
    assert_eq!(quarantine_meta_key("data", 7), "_meta:quarantine:data:7");
}

#[test]
fn from_meta_only_blocks_matching_node_id() {
    // Node 1's own record blocks; node 2's record is informational only.
    let keys = vec![
        quarantine_meta_key("data", 1).into_bytes(),
        quarantine_meta_key("data", 2).into_bytes(),
    ];

    let (tracker, _) = QuarantineTracker::from_meta(&keys, 1);
    assert!(tracker.is_quarantined("data"));

    let (tracker_other, _) = QuarantineTracker::from_meta(&keys, 2);
    assert!(tracker_other.is_quarantined("data"));

    let (tracker_uninvolved, _) = QuarantineTracker::from_meta(&keys, 3);
    assert!(!tracker_uninvolved.is_quarantined("data"));
}

#[test]
fn from_meta_migrates_legacy_marker_without_node_id() {
    let legacy_key = b"_meta:quarantine:data".to_vec();
    let mut meta: BTreeSet<Vec<u8>> = BTreeSet::new();
    meta.insert(legacy_key.clone());

    let (tracker, writes) = QuarantineTracker::from_meta(&as_vec(&meta), 1);
    assert!(
        tracker.is_quarantined("data"),
        "legacy marker must still block reads on the node that owns it"
    );
    apply_writes(&mut meta, &writes);

    assert!(
        !meta.contains(&legacy_key),
        "legacy key should have been removed after migration"
    );
    assert!(
        meta.contains(quarantine_meta_key("data", 1).as_bytes()),
        "migrated node-scoped key should now be present"
    );

    let (tracker_again, _) = QuarantineTracker::from_meta(&as_vec(&meta), 1);
    assert!(
        tracker_again.is_quarantined("data"),
        "quarantine must still be in effect on a second restart, via the migrated key"
    );
}

#[test]
fn force_quarantine_is_idempotent_with_record_failure() {
    let mut tracker = QuarantineTracker::new();
    assert!(!tracker.is_quarantined("data"));
    tracker.force_quarantine("data");
    assert!(tracker.is_quarantined("data"));
    // Calling again is a harmless no-op.
    tracker.force_quarantine("data");
    assert!(tracker.is_quarantined("data"));
}

#[test]
fn clear_removes_quarantine_state() {
    let mut tracker = QuarantineTracker::new();
    tracker.force_quarantine("data");
    assert!(tracker.is_quarantined("data"));
    tracker.clear("data");
    assert!(!tracker.is_quarantined("data"));
}

#[test]
fn third_failure_within_window_quarantines() {
    let mut tracker = QuarantineTracker::new();
    assert_eq!(QUARANTINE_THRESHOLD, 3);
    assert!(!tracker.record_failure("data", 1_000));
    assert!(!tracker.record_failure("data", 2_000));
    assert!(!tracker.is_quarantined("data"));
    assert!(tracker.record_failure("data", 3_000));
    assert!(tracker.is_quarantined("data"));
    // Once quarantined, further failures report nothing new.
    assert!(!tracker.record_failure("data", 4_000));
    assert!(tracker.is_quarantined("data"));
    // Other partitions are untouched.
    assert!(!tracker.is_quarantined("index"));
}

#[test]
fn failures_spaced_past_the_window_never_quarantine() {
    let mut tracker = QuarantineTracker::new();
    let step = QUARANTINE_WINDOW_NANOS;
    assert!(!tracker.record_failure("data", 0));
    assert!(!tracker.record_failure("data", step));
    assert!(!tracker.record_failure("data", 2 * step));
    assert!(!tracker.record_failure("data", 3 * step));
    assert!(!tracker.is_quarantined("data"));
}

#[test]
fn failures_just_inside_the_window_quarantine() {
    let mut tracker = QuarantineTracker::new();
    let start = 5 * QUARANTINE_WINDOW_NANOS;
    assert!(!tracker.record_failure("data", start));
    assert!(!tracker.record_failure("data", start + 1));
    assert!(tracker.record_failure("data", start + QUARANTINE_WINDOW_NANOS - 1));
}

#[test]
fn clear_resets_the_failure_window() {
    let mut tracker = QuarantineTracker::new();
    assert!(!tracker.record_failure("data", 10));
    assert!(!tracker.record_failure("data", 20));
    tracker.clear("data");
    assert!(!tracker.record_failure("data", 30));
    assert!(!tracker.is_quarantined("data"));
}

#[test]
fn from_meta_returns_no_writes_without_legacy_markers() {
    let keys = vec![quarantine_meta_key("data", 4).into_bytes(), b"unrelated".to_vec()];
    let (tracker, writes) = QuarantineTracker::from_meta(&keys, 4);
    assert!(tracker.is_quarantined("data"));
    assert!(writes.is_empty());
}

#[test]
fn legacy_migration_writes_flag_value() {
    let keys = vec![b"_meta:quarantine:index".to_vec()];
    let (_, writes) = QuarantineTracker::from_meta(&keys, 9);
    assert_eq!(
        writes,
        vec![
            MetaWrite::Insert { key: b"_meta:quarantine:index:9".to_vec(), value: b"1".to_vec() },
            MetaWrite::Remove { key: b"_meta:quarantine:index".to_vec() },
        ]
    );
}

#[test]
fn marker_keys_parse_back() {
    assert_eq!(
        parse_quarantine_marker(quarantine_meta_key("data", 7).as_bytes()),
        MarkerKey::Scoped { partition: b"data".to_vec(), node_id: 7 }
    );
    assert_eq!(
        parse_quarantine_marker(b"_meta:quarantine:data"),
        MarkerKey::Legacy { partition: b"data".to_vec() }
    );
    assert_eq!(parse_quarantine_marker(b"_meta:quarantine:data:x"), MarkerKey::Invalid);
    assert_eq!(parse_quarantine_marker(b"_meta:other:data:1"), MarkerKey::Invalid);
    assert_eq!(parse_quarantine_marker(&[0xff, 0xfe]), MarkerKey::Invalid);
    // A partition name may itself hold a colon: the node id is after the last one.
    assert_eq!(
        parse_quarantine_marker(quarantine_meta_key("a:b", 12).as_bytes()),
        MarkerKey::Scoped { partition: b"a:b".to_vec(), node_id: 12 }
    );
}
