use std::collections::BTreeMap;

use keystone_state_machine::dek::EpochChoice;
use keystone_state_machine::keys::{join_snapshot_file, split_snapshot_file, SNAPSHOT_HEADER_LEN};
use keystone_state_machine::machine::{FjallStateMachine, MutationFacts, Transaction};
use keystone_state_machine::quarantine::QuarantineTracker;
use keystone_state_machine::snapshot::{
    build_payload, bytes_lt, check_payload_version, install_batch, latest_snapshot_name, new_snapshot_id, snapshot_id, touched_keyspaces,
    KeyspaceEntries, SnapshotPayload, SNAPSHOT_FORMAT_VERSION, SNAPSHOT_SUFFIX_RANGE,
};
use keystone_state_machine::types::{BatchOp, Metadata, Mutation, StoreError, Target};

type Db = BTreeMap<String, BTreeMap<Vec<u8>, Vec<u8>>>;

fn make_sm() -> FjallStateMachine {
    FjallStateMachine::new(1, QuarantineTracker::new(), 1, Vec::new())
}

fn seed_ephemeral(sm: &mut FjallStateMachine, keyspace: &str, key: &[u8]) {
    let facts = MutationFacts {
        stored_metadata: None,
        metadata_present: false,
        next_version: 0,
        sealed: None,
        marker_keys: Vec::new(),
        now: 0,
        dek_unwrapped: false,
        current_dek_record: None,
        rotation_record: Vec::new(),
    };
    let mut txn = Transaction::new();
    sm.apply_mutation(
        Mutation::Put {
            key: key.to_vec(),
            keyspace: keyspace.to_string(),
            cipher: b"challenge".to_vec(),
            metadata: Metadata::ephemeral(),
            tier: 0,
            expected_revision: None,
        },
        &facts,
        &mut txn,
    )
    .expect("ephemeral write");
}

fn put(db: &mut Db, ks: &str, k: &[u8], v: &[u8]) {
    db.entry(ks.to_string()).or_default().insert(k.to_vec(), v.to_vec());
}

/// The full contents of every keyspace, as a point-in-time read lists them.
fn dump_all(db: &Db) -> Vec<(String, KeyspaceEntries)> {
    db.iter().map(|(n, m)| (n.clone(), m.iter().map(|(k, v)| (k.clone(), v.clone())).collect())).collect()
}

fn dump(db: &Db, name: &str) -> Vec<(Vec<u8>, Vec<u8>)> {
    db.get(name).map(|m| m.iter().map(|(k, v)| (k.clone(), v.clone())).collect()).unwrap_or_default()
}

/// Installs `payload` on the node holding `db`, the way the node's store does.
fn install(sm: &mut FjallStateMachine, db: &mut Db, payload: &SnapshotPayload) {
    check_payload_version(payload).expect("supported version");
    let existing: Vec<String> = db.keys().cloned().collect();
    let touched = touched_keyspaces(&existing, payload);
    let current: Vec<(String, Vec<Vec<u8>>)> = touched
        .iter()
        .map(|n| (n.clone(), db.get(n).map(|m| m.keys().cloned().collect()).unwrap_or_default()))
        .collect();
    for op in install_batch(&current, payload) {
        match op {
            BatchOp::Insert { target: Target::Keyspace(n), key, value } => {
                db.entry(n).or_default().insert(key, value);
            }
            BatchOp::Remove { target: Target::Keyspace(n), key } => {
                if let Some(m) = db.get_mut(&n) {
                    m.remove(&key);
                }
            }
            other => panic!("unexpected install write {other:?}"),
        }
    }
    sm.install_snapshot_registry(payload);
}

fn leader() -> (FjallStateMachine, Db) {
    let mut sm = make_sm();
    let mut db = Db::new();
    put(&mut db, "data", b"rec1", b"ciphertext");
    put(&mut db, "meta", b"rec1", b"packed-metadata");
    put(&mut db, "index", b"idx1", b"");
    put(&mut db, "domain", b"dom1", b"domain-payload");
    put(&mut db, "logs", b"log1", b"entry");
    put(&mut db, "local_emergency", b"e1", b"x");
    seed_ephemeral(&mut sm, "webauthn_state_1", b"user-1:auth");
    (sm, db)
}

#[test]
fn build_snapshot_captures_every_keyspace_and_ephemeral_registry() {
    let (sm, db) = leader();
    let payload = sm.snapshot_payload(dump_all(&db));
    assert_eq!(payload.version, SNAPSHOT_FORMAT_VERSION);

    let names: Vec<&str> = payload.keyspaces.iter().map(|(n, _)| n.as_str()).collect();
    assert!(names.contains(&"data"));
    assert!(names.contains(&"meta"));
    assert!(names.contains(&"index"));
    assert!(names.contains(&"domain"));
    assert!(!names.contains(&"logs"), "the node-local Raft log keyspace must never travel in a snapshot");
    assert!(
        !names.contains(&"local_emergency"),
        "the node-local emergency keyspace must never travel in a snapshot"
    );
    let domain = payload.keyspaces.iter().find(|(n, _)| n == "domain").expect("domain");
    assert_eq!(domain.1, vec![(b"dom1".to_vec(), b"domain-payload".to_vec())]);
    assert_eq!(payload.ephemeral_keyspaces, vec!["webauthn_state_1".to_string()]);
}

#[test]
fn install_snapshot_replaces_all_keyspaces_and_clears_stale_ones() {
    let (leader_sm, mut leader_db) = leader();
    put(&mut leader_db, "data", b"rec1", b"new-cipher");
    put(&mut leader_db, "domain", b"dom1", b"fresh");
    let payload = leader_sm.snapshot_payload(dump_all(&leader_db));

    let mut sm = make_sm();
    let mut db = Db::new();
    put(&mut db, "data", b"rec1", b"stale-cipher");
    put(&mut db, "data", b"rec-gone", b"should-be-cleared");
    put(&mut db, "meta", b"rec1", b"stale-meta");
    put(&mut db, "project_id", b"proj1", b"stale");
    put(&mut db, "logs", b"own-log", b"kept");
    seed_ephemeral(&mut sm, "stray_ephemeral", b"leftover");

    install(&mut sm, &mut db, &payload);

    assert_eq!(
        dump(&db, "data"),
        vec![(b"rec1".to_vec(), b"new-cipher".to_vec())],
        "the stale-only key must be gone and the stale value replaced"
    );
    assert_eq!(
        dump(&db, "meta"),
        vec![(b"rec1".to_vec(), b"packed-metadata".to_vec())],
        "meta (per-record Metadata) must now travel in the snapshot too"
    );
    assert_eq!(dump(&db, "domain"), vec![(b"dom1".to_vec(), b"fresh".to_vec())]);
    assert!(
        dump(&db, "project_id").is_empty(),
        "a keyspace no longer present in the snapshot must end up empty, not stale"
    );
    assert_eq!(dump(&db, "logs"), vec![(b"own-log".to_vec(), b"kept".to_vec())]);
    assert!(
        !sm.is_ephemeral_keyspace("stray_ephemeral"),
        "the follower's stale ephemeral registration must not survive install"
    );
    assert!(sm.is_ephemeral_keyspace("webauthn_state_1"));
    assert!(sm.ephemeral_get("webauthn_state_1", b"user-1:auth").is_none());
}

#[test]
fn install_snapshot_rejects_unsupported_format_version() {
    let payload = SnapshotPayload {
        version: SNAPSHOT_FORMAT_VERSION + 1,
        keyspaces: vec![("data".to_string(), vec![(b"rec1".to_vec(), b"attacker-controlled".to_vec())])],
        ephemeral_keyspaces: Vec::new(),
    };
    assert_eq!(
        check_payload_version(&payload),
        Err(StoreError::UnsupportedSnapshotVersion(SNAPSHOT_FORMAT_VERSION + 1))
    );
}

#[test]
fn built_payload_keeps_listing_order() {
    let p = build_payload(
        vec![
            ("zeta".to_string(), vec![]),
            ("logs".to_string(), vec![(b"a".to_vec(), b"b".to_vec())]),
            ("alpha".to_string(), vec![(b"k".to_vec(), b"v".to_vec())]),
        ],
        vec!["eph".to_string()],
    );
    let names: Vec<&str> = p.keyspaces.iter().map(|(n, _)| n.as_str()).collect();
    assert_eq!(names, vec!["zeta", "alpha"]);
    assert_eq!(p.ephemeral_keyspaces, vec!["eph".to_string()]);
}

#[test]
fn touched_keyspaces_are_the_union_without_node_local_ones() {
    let payload = SnapshotPayload {
        version: SNAPSHOT_FORMAT_VERSION,
        keyspaces: vec![("data".to_string(), vec![]), ("fresh".to_string(), vec![])],
        ephemeral_keyspaces: Vec::new(),
    };
    let existing = vec!["data".to_string(), "old".to_string(), "logs".to_string(), "local_emergency".to_string()];
    let mut t = touched_keyspaces(&existing, &payload);
    t.sort();
    assert_eq!(t, vec!["data".to_string(), "fresh".to_string(), "old".to_string()]);
}

#[test]
fn snapshot_ids_name_the_last_log() {
    assert_eq!(snapshot_id(Some(("3", 17)), 42), "3-17-42");
    assert_eq!(snapshot_id(None, 7), "--7");
    let id = new_snapshot_id(Some(("1", 5)));
    let suffix: u64 = id.strip_prefix("1-5-").expect("prefix").parse().expect("number");
    assert!(suffix < SNAPSHOT_SUFFIX_RANGE);
}

#[test]
fn snapshot_file_header_round_trips() {
    let file = join_snapshot_file(3, 1_700_000_000, b"sealed");
    assert_eq!(file.len(), SNAPSHOT_HEADER_LEN + 6);
    assert_eq!(&file[..4], &[0, 0, 0, 3]);
    let parts = split_snapshot_file(&file).expect("long enough");
    assert_eq!(parts.dek_version, 3);
    assert_eq!(parts.utc_epoch, 1_700_000_000);
    assert_eq!(parts.body, b"sealed".to_vec());
    assert_eq!(split_snapshot_file(&file[..11]), Err(11));
}

#[test]
fn snapshot_files_open_with_the_matching_epoch() {
    let mut sm = make_sm();
    let old_file = join_snapshot_file(1, 9, b"x");
    sm.complete_dek_swap(2, false);
    let new_file = join_snapshot_file(2, 9, b"y");

    let (parts, epoch) = sm.open_snapshot_file(&new_file).expect("current epoch");
    assert_eq!(epoch, EpochChoice::Current);
    assert_eq!(parts.body, b"y".to_vec());
    let (_, epoch) = sm.open_snapshot_file(&old_file).expect("retired epoch");
    assert_eq!(epoch, EpochChoice::Retired(1));
    assert_eq!(sm.open_snapshot_file(&join_snapshot_file(8, 9, b"z")).err(), Some(StoreError::NoMatchingEpoch(8)));
    assert_eq!(sm.open_snapshot_file(&[0u8; 5]).err(), Some(StoreError::SnapshotTooShort(5)));
}

#[test]
fn latest_snapshot_is_the_greatest_id() {
    let names: Vec<String> = vec!["1-5-3".to_string(), "1-12-0".to_string(), "1-5-30".to_string(), "--9".to_string()];
    // Ids compare as strings, byte by byte: "1-5-30" > "1-5-3" > "1-12-0" > "--9".
    assert_eq!(latest_snapshot_name(&names), Some(2));
    assert_eq!(latest_snapshot_name(&Vec::new()), None);
    let ties = vec!["b".to_string(), "a".to_string(), "b".to_string()];
    assert_eq!(latest_snapshot_name(&ties), Some(0));
    assert!(bytes_lt(b"abc", b"abd"));
    assert!(bytes_lt(b"ab", b"abc"));
    assert!(!bytes_lt(b"abc", b"abc"));
    assert!(!bytes_lt(b"b", b"abc"));
}
