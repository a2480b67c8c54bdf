use keystone_state_machine::machine::{
    load_pending_rotations, ApplyError, FjallStateMachine, MutationFacts, Transaction,
};
use keystone_state_machine::quarantine::QuarantineTracker;
use keystone_state_machine::types::{
    meta_write_to_batch, BatchOp, Metadata, Mutation, PendingRotation, Target, Violation, ViolationType,
};
use keystone_state_machine::quarantine::MetaWrite;

fn make_sm() -> FjallStateMachine {
    FjallStateMachine::new(1, QuarantineTracker::new(), 1, Vec::new())
}

fn facts() -> MutationFacts {
    MutationFacts {
        stored_metadata: None,
        metadata_present: false,
        next_version: 1,
        sealed: Some(b"sealed".to_vec()),
        marker_keys: Vec::new(),
        now: 100,
        dek_unwrapped: true,
        current_dek_record: None,
        rotation_record: b"packed".to_vec(),
    }
}

fn put(key: &[u8], ks: &str, metadata: Metadata, expected: Option<u64>) -> Mutation {
    Mutation::Put {
        key: key.to_vec(),
        keyspace: ks.to_string(),
        cipher: b"value".to_vec(),
        metadata,
        tier: 2,
        expected_revision: expected,
    }
}

fn apply(sm: &mut FjallStateMachine, m: Mutation, f: &MutationFacts) -> (Transaction, Result<(), ApplyError>) {
    let mut txn = Transaction::new();
    let r = sm.apply_mutation(m, f, &mut txn);
    (txn, r)
}

fn pending(id: &str, initiator: &str, expires_at: u64) -> PendingRotation {
    PendingRotation {
        rotation_id: id.to_string(),
        wrapped_dek: b"wrapped".to_vec(),
        dek_version: 7,
        expires_at,
        initiator: initiator.to_string(),
    }
}

#[test]
fn persistent_put_writes_cipher_and_stamped_metadata() {
    let mut sm = make_sm();
    let (txn, r) = apply(&mut sm, put(b"k", "data", Metadata::new(), None), &facts());
    assert_eq!(r, Ok(()));
    assert!(txn.commits());
    assert_eq!(
        txn.batch,
        vec![
            BatchOp::Insert { target: Target::Keyspace("data".to_string()), key: b"k".to_vec(), value: b"sealed".to_vec() },
            BatchOp::PutMetadata {
                key: b"k".to_vec(),
                metadata: Metadata { revision: 0, is_ephemeral: false, tier: 2, dek_version: Some(1) },
            },
        ]
    );
}

#[test]
fn revision_mismatch_is_a_conflict() {
    let mut sm = make_sm();
    let mut f = facts();
    f.stored_metadata = Some(Metadata { revision: 4, ..Metadata::new() });
    let (txn, r) = apply(&mut sm, put(b"k", "data", Metadata::new(), Some(3)), &f);
    assert_eq!(r, Ok(()));
    assert!(!txn.commits());
    assert_eq!(txn.violations, vec![Violation::RevisionConflict { key: b"k".to_vec(), current: Some(4), expected: 3 }]);
    assert_eq!(txn.violations[0].violation_type().code(), "CONFLICT");

    // The matching revision goes through.
    let (txn, _) = apply(&mut sm, put(b"k", "data", Metadata::new(), Some(4)), &f);
    assert!(txn.commits());
}

#[test]
fn create_if_absent_refuses_a_present_key() {
    let mut sm = make_sm();
    let mut f = facts();
    f.metadata_present = true;
    let m = Mutation::CreateIfAbsent {
        key: b"k".to_vec(),
        keyspace: "data".to_string(),
        cipher: b"c".to_vec(),
        metadata: Metadata::new(),
        tier: 0,
    };
    let (txn, _) = apply(&mut sm, m, &f);
    assert_eq!(txn.violations[0], Violation::AlreadyExists { key: b"k".to_vec() });

    let m = Mutation::CreateIfAbsent {
        key: b"e".to_vec(),
        keyspace: "eph".to_string(),
        cipher: b"c".to_vec(),
        metadata: Metadata::ephemeral(),
        tier: 0,
    };
    let (txn, _) = apply(&mut sm, m.clone(), &facts());
    assert!(txn.commits());
    let (txn, _) = apply(&mut sm, m, &facts());
    assert_eq!(txn.violations, vec![Violation::AlreadyExists { key: b"e".to_vec() }]);
}

#[test]
fn raft_bookkeeping_cannot_be_written() {
    let mut sm = make_sm();
    let (txn, r) = apply(&mut sm, put(b"last_applied_log", "data", Metadata::new(), None), &facts());
    assert_eq!(r, Err(ApplyError::SystemData));
    assert!(txn.batch.is_empty());
    let (_, r) = apply(&mut sm, put(b"last_membership", "meta", Metadata::new(), None), &facts());
    assert_eq!(r, Err(ApplyError::SystemData));
    let remove = Mutation::Remove { key: b"last_applied_log".to_vec(), keyspace: "index".to_string(), expected_revision: None };
    let (_, r) = apply(&mut sm, remove, &facts());
    assert_eq!(r, Err(ApplyError::SystemData));
    // The membership key of another keyspace is an ordinary key.
    let (_, r) = apply(&mut sm, put(b"last_membership", "data", Metadata::new(), None), &facts());
    assert_eq!(r, Ok(()));
}

#[test]
fn quarantined_partition_refuses_persistent_writes() {
    let mut tracker = QuarantineTracker::new();
    tracker.force_quarantine("data");
    let mut sm = FjallStateMachine::new(1, tracker, 1, Vec::new());
    let (txn, r) = apply(&mut sm, put(b"k", "data", Metadata::new(), None), &facts());
    assert_eq!(r, Ok(()));
    assert_eq!(txn.violations, vec![Violation::Quarantined { key: b"k".to_vec(), partition: b"data".to_vec() }]);
    assert_eq!(txn.violations[0].violation_type(), ViolationType::Quarantined);
    assert_eq!(txn.violations[0].violation_type().code(), "QUARANTINED");
}

#[test]
fn write_threshold_refuses_persistent_writes() {
    let mut sm = make_sm();
    let mut f = facts();
    f.next_version = 0x4000_0000;
    let (txn, _) = apply(&mut sm, put(b"k", "data", Metadata::new(), None), &f);
    assert_eq!(txn.violations, vec![Violation::WriteRateExceeded { key: b"k".to_vec(), version: 0x4000_0000 }]);
    assert_eq!(txn.violations[0].violation_type().code(), "WRITE_RATE_EXCEEDED");
}

#[test]
fn failed_encryption_aborts_the_entry() {
    let mut sm = make_sm();
    let mut f = facts();
    f.sealed = None;
    let (_, r) = apply(&mut sm, put(b"k", "data", Metadata::new(), None), &f);
    assert_eq!(r, Err(ApplyError::Crypto));
}

#[test]
fn quarantine_mutation_blocks_only_the_reporting_node() {
    let mut sm = make_sm();
    let m = Mutation::Quarantine { node_id: 2, partition: "data".to_string() };
    let (txn, _) = apply(&mut sm, m, &facts());
    assert!(!sm.is_quarantined("data"));
    assert_eq!(
        txn.batch,
        vec![BatchOp::Insert {
            target: Target::Meta,
            key: b"_meta:quarantine:data:2".to_vec(),
            value: 100u64.to_be_bytes().to_vec(),
        }]
    );
    let (_, _) = apply(&mut sm, Mutation::Quarantine { node_id: 1, partition: "data".to_string() }, &facts());
    assert!(sm.is_quarantined("data"));
}

#[test]
fn clear_quarantine_removes_every_marker_of_the_partition() {
    let mut tracker = QuarantineTracker::new();
    tracker.force_quarantine("data");
    let mut sm = FjallStateMachine::new(1, tracker, 1, Vec::new());
    let mut f = facts();
    f.marker_keys = vec![
        b"_meta:quarantine:data:1".to_vec(),
        b"_meta:quarantine:data:2".to_vec(),
        b"_meta:quarantine:index:1".to_vec(),
    ];
    let (txn, _) = apply(&mut sm, Mutation::ClearQuarantine { partition: "data".to_string() }, &f);
    assert!(!sm.is_quarantined("data"));
    assert_eq!(
        txn.batch,
        vec![
            BatchOp::Remove { target: Target::Meta, key: b"_meta:quarantine:data:1".to_vec() },
            BatchOp::Remove { target: Target::Meta, key: b"_meta:quarantine:data:2".to_vec() },
        ]
    );
}

#[test]
fn normal_dek_install_retires_the_current_record() {
    let mut sm = make_sm();
    let mut f = facts();
    f.current_dek_record = Some(b"\x00\x00\x00\x01old-wrapped".to_vec());
    let m = Mutation::InstallDek { wrapped_dek: b"new".to_vec(), dek_version: 2, is_emergency: false };
    let (txn, r) = apply(&mut sm, m, &f);
    assert_eq!(r, Ok(()));
    assert_eq!(txn.dek_swap, Some((2, false)));
    assert_eq!(
        txn.batch,
        vec![
            BatchOp::Insert { target: Target::Meta, key: b"_meta:dek:current".to_vec(), value: b"\x00\x00\x00\x02new".to_vec() },
            BatchOp::Insert { target: Target::Meta, key: b"_meta:dek:retired:1".to_vec(), value: b"old-wrapped".to_vec() },
        ]
    );
}

#[test]
fn emergency_dek_install_revokes_the_current_epoch() {
    let mut sm = make_sm();
    let m = Mutation::InstallDek { wrapped_dek: b"new".to_vec(), dek_version: 2, is_emergency: true };
    let (txn, _) = apply(&mut sm, m, &facts());
    assert_eq!(txn.dek_swap, Some((2, true)));
    assert_eq!(
        txn.batch[1],
        BatchOp::Insert { target: Target::Meta, key: b"_meta:dek:revoked:1".to_vec(), value: 100u64.to_be_bytes().to_vec() }
    );
    let mut f = facts();
    f.dek_unwrapped = false;
    let m = Mutation::InstallDek { wrapped_dek: b"new".to_vec(), dek_version: 3, is_emergency: true };
    assert_eq!(apply(&mut sm, m, &f).1, Err(ApplyError::Crypto));
}

#[test]
fn emergency_rotation_needs_a_second_operator() {
    let mut sm = make_sm();
    let create = Mutation::CreatePendingRotation {
        rotation_id: "r1".to_string(),
        wrapped_dek: b"wrapped".to_vec(),
        dek_version: 7,
        expires_at: 500,
        initiator: "alice".to_string(),
    };
    let (txn, _) = apply(&mut sm, create, &facts());
    assert_eq!(
        txn.batch,
        vec![BatchOp::Insert { target: Target::Meta, key: b"_meta:rotation:pending:r1".to_vec(), value: b"packed".to_vec() }]
    );
    assert_eq!(sm.pending_rotations().len(), 1);

    // A second rotation cannot be staged while one is pending.
    let other = Mutation::CreatePendingRotation {
        rotation_id: "r2".to_string(),
        wrapped_dek: b"w".to_vec(),
        dek_version: 8,
        expires_at: 600,
        initiator: "carol".to_string(),
    };
    let (txn, _) = apply(&mut sm, other, &facts());
    assert_eq!(txn.violations, vec![Violation::RotationAlreadyPending { rotation_id: "r2".to_string() }]);

    // The initiator cannot confirm it.
    let same = Mutation::ConfirmPendingRotation { rotation_id: "r1".to_string(), confirmer: "alice".to_string() };
    let (txn, _) = apply(&mut sm, same, &facts());
    assert_eq!(txn.violations, vec![Violation::SameOperator { rotation_id: "r1".to_string() }]);
    assert_eq!(txn.violations[0].violation_type().code(), "UNAUTHORIZED");

    // Another operator can.
    let confirm = Mutation::ConfirmPendingRotation { rotation_id: "r1".to_string(), confirmer: "bob".to_string() };
    let (txn, r) = apply(&mut sm, confirm, &facts());
    assert_eq!(r, Ok(()));
    assert_eq!(txn.dek_swap, Some((7, true)));
    assert_eq!(
        txn.batch,
        vec![
            BatchOp::Remove { target: Target::Meta, key: b"_meta:rotation:pending:r1".to_vec() },
            BatchOp::Insert {
                target: Target::Meta,
                key: b"_meta:dek:current".to_vec(),
                value: b"\x00\x00\x00\x07wrapped".to_vec(),
            },
            BatchOp::Insert { target: Target::Meta, key: b"_meta:dek:revoked:1".to_vec(), value: 100u64.to_be_bytes().to_vec() },
        ]
    );
    assert!(sm.pending_rotations().is_empty());

    let again = Mutation::ConfirmPendingRotation { rotation_id: "r1".to_string(), confirmer: "bob".to_string() };
    let (txn, _) = apply(&mut sm, again, &facts());
    assert_eq!(txn.violations, vec![Violation::RotationNotFound { rotation_id: "r1".to_string() }]);
    assert_eq!(txn.violations[0].violation_type().code(), "NOT_FOUND");
}

#[test]
fn expired_rotation_cannot_be_confirmed() {
    let mut sm = FjallStateMachine::new(1, QuarantineTracker::new(), 1, vec![pending("r1", "alice", 50)]);
    let confirm = Mutation::ConfirmPendingRotation { rotation_id: "r1".to_string(), confirmer: "bob".to_string() };
    let (txn, _) = apply(&mut sm, confirm, &facts());
    assert_eq!(txn.violations, vec![Violation::RotationExpired { rotation_id: "r1".to_string(), expires_at: 50, now: 100 }]);
    assert_eq!(txn.violations[0].violation_type().code(), "EXPIRED");
    assert!(sm.pending_rotations().is_empty());
}

#[test]
fn expired_rotation_can_be_aborted() {
    let mut sm = FjallStateMachine::new(1, QuarantineTracker::new(), 1, vec![pending("r1", "alice", 50)]);
    let (txn, _) = apply(&mut sm, Mutation::AbortPendingRotation { rotation_id: "r1".to_string() }, &facts());
    assert_eq!(txn.batch, vec![BatchOp::Remove { target: Target::Meta, key: b"_meta:rotation:pending:r1".to_vec() }]);
    assert!(sm.pending_rotations().is_empty());

    // A live one is left alone.
    let mut sm = FjallStateMachine::new(1, QuarantineTracker::new(), 1, vec![pending("r2", "alice", 500)]);
    let (txn, _) = apply(&mut sm, Mutation::AbortPendingRotation { rotation_id: "r2".to_string() }, &facts());
    assert!(txn.batch.is_empty());
    assert_eq!(sm.pending_rotations().len(), 1);
}

#[test]
fn loading_pending_rotations_drops_expired_ones() {
    let loaded = load_pending_rotations(vec![pending("a", "x", 10), pending("b", "y", 200), pending("c", "z", 100)], 100);
    assert_eq!(loaded, vec![pending("b", "y", 200)]);
}

#[test]
fn index_mutations_write_the_index_keyspace() {
    let mut sm = make_sm();
    let (txn, _) = apply(&mut sm, Mutation::SetIndex { key: b"i".to_vec() }, &facts());
    assert_eq!(txn.batch, vec![BatchOp::Insert { target: Target::Index, key: b"i".to_vec(), value: Vec::new() }]);
    let (txn, _) = apply(&mut sm, Mutation::RemoveIndex { key: b"i".to_vec() }, &facts());
    assert_eq!(txn.batch, vec![BatchOp::Remove { target: Target::Index, key: b"i".to_vec() }]);
}

#[test]
fn persistent_remove_deletes_record_and_metadata() {
    let mut sm = make_sm();
    let m = Mutation::Remove { key: b"k".to_vec(), keyspace: "data".to_string(), expected_revision: None };
    let (txn, _) = apply(&mut sm, m, &facts());
    assert_eq!(
        txn.batch,
        vec![
            BatchOp::Remove { target: Target::Keyspace("data".to_string()), key: b"k".to_vec() },
            BatchOp::Remove { target: Target::Meta, key: b"k".to_vec() },
        ]
    );
}

#[test]
fn meta_writes_become_meta_batch_writes() {
    assert_eq!(
        meta_write_to_batch(MetaWrite::Insert { key: b"a".to_vec(), value: b"1".to_vec() }),
        BatchOp::Insert { target: Target::Meta, key: b"a".to_vec(), value: b"1".to_vec() }
    );
    assert_eq!(
        meta_write_to_batch(MetaWrite::Remove { key: b"a".to_vec() }),
        BatchOp::Remove { target: Target::Meta, key: b"a".to_vec() }
    );
}

#[test]
fn one_refusal_keeps_the_entry_from_committing() {
    let mut sm = make_sm();
    let mut f = facts();
    f.stored_metadata = Some(Metadata { revision: 9, ..Metadata::new() });
    let mut txn = Transaction::new();
    // The first mutation is refused, the second would go through.
    sm.apply_mutation(put(b"a", "data", Metadata::new(), Some(1)), &f, &mut txn).expect("applied");
    let violations_after_first = txn.violations.clone();
    sm.apply_mutation(put(b"b", "data", Metadata::new(), None), &facts(), &mut txn).expect("applied");
    assert_eq!(&txn.violations[..violations_after_first.len()], &violations_after_first[..]);
    assert_eq!(txn.violations.len(), 1);
    assert!(!txn.commits());
    // Both mutations' writes are still in the (uncommitted) batch.
    assert_eq!(txn.batch.len(), 4);
}
