use keystone_state_machine::keys::reencrypt_done_key;
use keystone_state_machine::reencrypt::{
    cas_outcome, is_reencrypt_keyspace, migrated_metadata, reencrypt_precheck, settle_attempt, sweep_targets,
    AttemptReport, AttemptResult, MetaRead, Precheck, ReencryptOutcome, ReencryptReport,
    REENCRYPT_MAX_CAS_ATTEMPTS,
};
use keystone_state_machine::types::Metadata;

fn ok_attempt(current_version: u32) -> AttemptReport {
    AttemptReport { decrypted: true, current_version, encrypted: true, packed: true, unchanged: true, committed: true }
}

#[test]
fn reencrypt_pending_migrates_records_under_retired_epoch() {
    // Epoch 1 is retired and not yet marked done; epoch 2 is current.
    let targets = sweep_targets(&vec![1], &vec![false]);
    assert_eq!(targets, vec![1]);
    assert!(is_reencrypt_keyspace("data"));

    let stored = Metadata { revision: 3, is_ephemeral: false, tier: 1, dek_version: Some(1) };
    let m = match reencrypt_precheck(true, MetaRead::Decoded(stored), 1) {
        Precheck::Proceed(m) => m,
        other => panic!("record under the swept epoch must be migrated, got {other:?}"),
    };
    let new_meta = migrated_metadata(m, 2);
    assert_eq!(new_meta, Metadata { dek_version: Some(2), ..stored });

    let outcome = cas_outcome(&vec![settle_attempt(1, ok_attempt(2))]);
    assert_eq!(outcome, ReencryptOutcome::Migrated);
    let report = ReencryptReport::tally(&vec![outcome]);
    assert_eq!(report, ReencryptReport { migrated: 1, already_current: 0, skipped: 0 });
    assert!(report.is_clean(), "fully migrated epoch must be marked done");
    assert_eq!(reencrypt_done_key(1), b"_meta:dek:reencrypt_done:1".to_vec());
}

#[test]
fn reencrypt_pending_is_noop_with_no_retired_epochs() {
    assert!(sweep_targets(&Vec::new(), &Vec::new()).is_empty());
    let report = ReencryptReport::tally(&Vec::new());
    assert_eq!(report, ReencryptReport::default());
    assert_eq!(report, ReencryptReport::new());
    assert!(report.is_clean());
}

#[test]
fn sweep_skips_epochs_already_done() {
    assert_eq!(sweep_targets(&vec![1, 3, 5], &vec![true, false, false]), vec![3, 5]);
    assert!(sweep_targets(&vec![1], &vec![true]).is_empty());
}

#[test]
fn unencrypted_keyspaces_are_not_swept() {
    assert!(!is_reencrypt_keyspace("meta"));
    assert!(!is_reencrypt_keyspace("logs"));
    assert!(!is_reencrypt_keyspace("index"));
    assert!(is_reencrypt_keyspace("domain"));
}

#[test]
fn precheck_outcomes() {
    let under = |v: Option<u32>| Metadata { revision: 0, is_ephemeral: false, tier: 0, dek_version: v };
    assert_eq!(
        reencrypt_precheck(false, MetaRead::Decoded(under(Some(1))), 1),
        Precheck::Finish(ReencryptOutcome::AlreadyCurrent)
    );
    assert_eq!(reencrypt_precheck(true, MetaRead::Missing, 1), Precheck::Finish(ReencryptOutcome::AlreadyCurrent));
    assert_eq!(reencrypt_precheck(true, MetaRead::Undecodable, 1), Precheck::Finish(ReencryptOutcome::Skipped));
    assert_eq!(
        reencrypt_precheck(true, MetaRead::Decoded(under(Some(2))), 1),
        Precheck::Finish(ReencryptOutcome::AlreadyCurrent)
    );
    assert_eq!(
        reencrypt_precheck(true, MetaRead::Decoded(under(None)), 1),
        Precheck::Finish(ReencryptOutcome::AlreadyCurrent)
    );
}

#[test]
fn attempt_outcomes() {
    let base = ok_attempt(2);
    assert_eq!(settle_attempt(1, AttemptReport { decrypted: false, ..base }), AttemptResult::Done(ReencryptOutcome::Skipped));
    assert_eq!(settle_attempt(2, base), AttemptResult::Done(ReencryptOutcome::AlreadyCurrent));
    assert_eq!(settle_attempt(1, AttemptReport { encrypted: false, ..base }), AttemptResult::Done(ReencryptOutcome::Skipped));
    assert_eq!(settle_attempt(1, AttemptReport { packed: false, ..base }), AttemptResult::Done(ReencryptOutcome::Skipped));
    assert_eq!(settle_attempt(1, AttemptReport { unchanged: false, ..base }), AttemptResult::Retry);
    assert_eq!(settle_attempt(1, AttemptReport { committed: false, ..base }), AttemptResult::Retry);
}

#[test]
fn cas_retries_are_bounded() {
    assert_eq!(REENCRYPT_MAX_CAS_ATTEMPTS, 3);
    let retry = AttemptResult::Retry;
    let done = AttemptResult::Done(ReencryptOutcome::Migrated);
    assert_eq!(cas_outcome(&vec![retry, retry, done]), ReencryptOutcome::Migrated);
    // A fourth attempt is never looked at.
    assert_eq!(cas_outcome(&vec![retry, retry, retry, done]), ReencryptOutcome::Skipped);
    assert_eq!(cas_outcome(&Vec::new()), ReencryptOutcome::Skipped);
}

#[test]
fn report_counts_each_outcome() {
    let r = ReencryptReport::tally(&vec![
        ReencryptOutcome::Migrated,
        ReencryptOutcome::Skipped,
        ReencryptOutcome::AlreadyCurrent,
        ReencryptOutcome::Migrated,
    ]);
    assert_eq!(r, ReencryptReport { migrated: 2, already_current: 1, skipped: 1 });
    assert!(!r.is_clean());
    let mut r = ReencryptReport::new();
    r.record(ReencryptOutcome::AlreadyCurrent);
    assert_eq!(r.already_current, 1);
}
