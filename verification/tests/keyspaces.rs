use keystone_state_machine::machine::{DropAction, FjallStateMachine, MutationFacts, Transaction};
use keystone_state_machine::quarantine::QuarantineTracker;
use keystone_state_machine::types::{Metadata, Mutation, StoreError};

fn make_sm() -> FjallStateMachine {
    FjallStateMachine::new(1, QuarantineTracker::new(), 1, Vec::new())
}

fn no_facts() -> MutationFacts {
    MutationFacts {
        stored_metadata: None,
        metadata_present: false,
        next_version: 0,
        sealed: None,
        marker_keys: Vec::new(),
        now: 0,
        dek_unwrapped: false,
        current_dek_record: None,
        rotation_record: Vec::new(),
    }
}

/// Writes one ephemeral record through the apply path; returns the batch
/// the write asked for.
fn seed(sm: &mut FjallStateMachine, keyspace: &str, key: &[u8], value: &[u8], metadata: Metadata) -> Transaction {
    let mut txn = Transaction::new();
    sm.apply_mutation(
        Mutation::Put {
            key: key.to_vec(),
            keyspace: keyspace.to_string(),
            cipher: value.to_vec(),
            metadata,
            tier: 0,
            expected_revision: None,
        },
        &no_facts(),
        &mut txn,
    )
    .expect("ephemeral write");
    txn
}

fn remove(sm: &mut FjallStateMachine, keyspace: &str, key: &[u8]) {
    let mut txn = Transaction::new();
    sm.apply_mutation(
        Mutation::Remove { key: key.to_vec(), keyspace: keyspace.to_string(), expected_revision: None },
        &no_facts(),
        &mut txn,
    )
    .expect("ephemeral remove");
    assert!(txn.batch.is_empty());
}

#[test]
fn keyspace_exists_is_false_until_first_access_and_never_auto_vivifies() {
    let sm = make_sm();
    assert!(!sm.keyspace_exists("rotating_bucket_1", false));
    // Checking existence must not have created it as a side effect.
    assert!(!sm.keyspace_exists("rotating_bucket_1", false));

    // Once Fjall has the keyspace, it exists.
    assert!(sm.keyspace_exists("rotating_bucket_1", true));
}

#[test]
fn keyspace_exists_is_always_true_for_core_keyspaces() {
    let sm = make_sm();
    assert!(sm.keyspace_exists("data", false));
    assert!(sm.keyspace_exists("meta", false));
    assert!(sm.keyspace_exists("index", false));
}

#[test]
fn drop_keyspace_is_noop_when_never_created() {
    let mut sm = make_sm();
    let action = sm.drop_keyspace("never_created", false, true).expect("no-op drop");
    assert_eq!(action, DropAction::Nothing);
    assert!(!sm.keyspace_exists("never_created", false));
}

#[test]
fn drop_keyspace_reclaims_an_empty_partition() {
    let mut sm = make_sm();
    assert!(sm.keyspace_exists("rotating_bucket_2", true));

    let action = sm.drop_keyspace("rotating_bucket_2", true, true).expect("drop empty keyspace");
    assert_eq!(action, DropAction::DeleteFjallKeyspace);
    // After the Fjall keyspace is deleted, nothing has it any more.
    assert!(!sm.keyspace_exists("rotating_bucket_2", false));
}

#[test]
fn drop_keyspace_refuses_non_empty_partition() {
    let mut sm = make_sm();
    let err = sm
        .drop_keyspace("rotating_bucket_3", true, false)
        .expect_err("must refuse to drop a non-empty keyspace");
    assert_eq!(err, StoreError::KeyspaceNotEmpty("rotating_bucket_3".to_string()));
    assert!(sm.keyspace_exists("rotating_bucket_3", true));
}

#[test]
fn drop_keyspace_refuses_core_keyspaces() {
    let mut sm = make_sm();
    for core in ["data", "meta", "index"] {
        let err = sm.drop_keyspace(core, true, true).expect_err("must refuse to drop a core keyspace");
        assert_eq!(err, StoreError::CoreKeyspace(core.to_string()));
        assert!(sm.keyspace_exists(core, true));
    }
}

#[test]
fn ephemeral_write_never_touches_the_fjall_db() {
    let mut sm = make_sm();
    let txn = seed(&mut sm, "webauthn_state_1", b"user-1:auth", b"challenge-bytes", Metadata::ephemeral());

    assert!(sm.keyspace_exists("webauthn_state_1", false));
    assert!(sm.is_ephemeral_keyspace("webauthn_state_1"));
    // The write asked for no Fjall write at all.
    assert!(txn.batch.is_empty());
    assert!(txn.violations.is_empty());
}

#[test]
fn ephemeral_get_round_trips_value_and_metadata() {
    let mut sm = make_sm();
    let metadata = Metadata::ephemeral();
    seed(&mut sm, "webauthn_state_1", b"user-1:auth", b"payload", metadata);

    let (value, got_metadata) = sm.ephemeral_get("webauthn_state_1", b"user-1:auth").expect("value present");
    assert_eq!(value, b"payload");
    assert!(got_metadata.is_ephemeral);
    assert_eq!(got_metadata, metadata);
}

#[test]
fn ephemeral_get_is_none_for_unknown_keyspace() {
    let sm = make_sm();
    assert!(sm.ephemeral_get("never_written", b"any-key").is_none());
    assert!(!sm.is_ephemeral_keyspace("never_written"));
}

#[test]
fn ephemeral_prefix_filters_by_prefix_and_is_none_for_non_ephemeral_keyspace() {
    let mut sm = make_sm();
    seed(&mut sm, "webauthn_state_1", b"user-1:auth", b"a", Metadata::ephemeral());
    seed(&mut sm, "webauthn_state_1", b"user-1:registration", b"b", Metadata::ephemeral());
    seed(&mut sm, "webauthn_state_1", b"user-2:auth", b"c", Metadata::ephemeral());

    let matched = sm.ephemeral_prefix("webauthn_state_1", b"user-1:").expect("keyspace is ephemeral");
    assert_eq!(matched.len(), 2);
    let mut keys: Vec<Vec<u8>> = matched.iter().map(|e| e.0.clone()).collect();
    keys.sort();
    assert_eq!(keys, vec![b"user-1:auth".to_vec(), b"user-1:registration".to_vec()]);

    // A Fjall-backed (non-ephemeral) keyspace name must fall through to
    // `None` rather than an empty result, so callers know to read Fjall
    // instead.
    assert!(sm.ephemeral_prefix("data", b"user-1:").is_none());
}

#[test]
fn drop_keyspace_reclaims_an_empty_ephemeral_partition() {
    let mut sm = make_sm();
    seed(&mut sm, "webauthn_state_1", b"user-1:auth", b"payload", Metadata::ephemeral());
    // Drain it back out through the apply path's Remove arm.
    remove(&mut sm, "webauthn_state_1", b"user-1:auth");
    assert!(sm.is_ephemeral_keyspace("webauthn_state_1"));

    let action = sm.drop_keyspace("webauthn_state_1", false, true).expect("drop empty ephemeral keyspace");
    assert_eq!(action, DropAction::DroppedEphemeral);
    assert!(!sm.keyspace_exists("webauthn_state_1", false));
}

#[test]
fn drop_keyspace_refuses_non_empty_ephemeral_partition() {
    let mut sm = make_sm();
    seed(&mut sm, "webauthn_state_1", b"user-1:auth", b"payload", Metadata::ephemeral());

    let err = sm
        .drop_keyspace("webauthn_state_1", false, true)
        .expect_err("must refuse to drop a non-empty ephemeral keyspace");
    assert_eq!(err, StoreError::KeyspaceNotEmpty("webauthn_state_1".to_string()));
    assert!(sm.keyspace_exists("webauthn_state_1", false));
    assert!(
        sm.ephemeral_get("webauthn_state_1", b"user-1:auth").is_some(),
        "the failed drop must not have discarded the entry"
    );
}

#[test]
fn ephemeral_names_list_each_registered_keyspace_once() {
    let mut sm = make_sm();
    seed(&mut sm, "ks_a", b"k1", b"v", Metadata::ephemeral());
    seed(&mut sm, "ks_a", b"k2", b"v", Metadata::ephemeral());
    seed(&mut sm, "ks_b", b"k1", b"v", Metadata::ephemeral());
    let mut names = sm.ephemeral_keyspace_names();
    names.sort();
    assert_eq!(names, vec!["ks_a".to_string(), "ks_b".to_string()]);
}
