use keystone_state_machine::dek::{
    check_write_rate, DekRing, EpochChoice, WriteRate, MAX_REVOKED_DEKS, WRITE_RATE_THRESHOLD,
    WRITE_RATE_WARN_THRESHOLD,
};
use keystone_state_machine::keys::{
    decode_dek_record, encode_dek_record, retired_dek_key, DekRecordError,
};
use keystone_state_machine::machine::{
    DecryptOutcome, DecryptRoute, FjallStateMachine, PlaintextSource,
};
use keystone_state_machine::quarantine::QuarantineTracker;
use keystone_state_machine::types::StoreError;

fn make_sm(current: u32) -> FjallStateMachine {
    FjallStateMachine::new(1, QuarantineTracker::new(), current, Vec::new())
}

#[test]
fn decrypt_with_matching_current_version_succeeds() {
    let mut sm = make_sm(1);
    // A record written now is stamped with the current version.
    let version = sm.write_check("data", b"k1", 1).expect("encrypt");
    assert_eq!(version, 1);

    let route = sm.decrypt_route("data", Some(version));
    assert_eq!(route, DecryptRoute::Epoch(EpochChoice::Current));
    let (res, signal) = sm.settle_decrypt("data", EpochChoice::Current, DecryptOutcome::Plaintext, &Vec::new(), 0);
    assert_eq!(res, Ok(PlaintextSource::Routed));
    assert!(signal.is_none());
}

#[test]
fn decrypt_with_retired_epoch_hint_succeeds_without_probing() {
    let mut sm = make_sm(1);
    let version = sm.write_check("data", b"k1", 1).expect("encrypt under epoch 1");
    // Rotate: epoch 1 becomes retired, epoch 2 current.
    let effect = sm.complete_dek_swap(2, false);
    assert_eq!(effect.old_version, 1);
    assert!(effect.reencrypt_old);

    let route = sm.decrypt_route("data", Some(version));
    assert_eq!(route, DecryptRoute::Epoch(EpochChoice::Retired(1)));
    let (res, _) = sm.settle_decrypt("data", EpochChoice::Retired(1), DecryptOutcome::Plaintext, &Vec::new(), 0);
    assert_eq!(res, Ok(PlaintextSource::Routed));
}

#[test]
fn decrypt_with_wrong_version_hint_fails_without_probing() {
    let mut sm = make_sm(1);
    sm.complete_dek_swap(2, false);
    let route = sm.decrypt_route("data", Some(99));
    assert_eq!(route, DecryptRoute::Epoch(EpochChoice::Unknown(99)));
    // Even though a retired epoch would decrypt it, an unknown hint is refused.
    let (res, _) =
        sm.settle_decrypt("data", EpochChoice::Unknown(99), DecryptOutcome::Plaintext, &vec![true], 0);
    assert_eq!(res, Err(StoreError::UnknownDekEpoch(99)));
}

#[test]
fn decrypt_legacy_none_hint_still_probes_retired_epochs() {
    let mut sm = make_sm(1);
    sm.complete_dek_swap(2, false);
    let route = sm.decrypt_route("data", None);
    assert_eq!(route, DecryptRoute::Epoch(EpochChoice::Probe));
    // The current epoch fails its tag, the retired epoch 1 decrypts it.
    let (res, signal) = sm.settle_decrypt("data", EpochChoice::Probe, DecryptOutcome::TagMismatch, &vec![true], 0);
    assert_eq!(res, Ok(PlaintextSource::Retired(0)));
    assert!(signal.is_none());
}

#[test]
fn fetch_and_install_retired_dek_round_trips() {
    let mut sm = make_sm(2);
    // The leader's retired epoch 1, as stored under the retired prefix.
    let wrapped = vec![7u8; 60];
    let key = sm.install_fetched_retired_dek(true, 1, true).expect("install fetched retired DEK");
    assert_eq!(key, retired_dek_key(1));
    assert_eq!(key, b"_meta:dek:retired:1".to_vec());
    let listed = sm.retired_deks_wrapped(&vec![(key.clone(), wrapped.clone())]);
    assert_eq!(listed, vec![(1u32, wrapped)]);

    sm.adopt_fetched_retired_dek(1);
    assert_eq!(sm.retired_dek_versions(), vec![1]);
    assert_eq!(sm.decrypt_route("data", Some(1)), DecryptRoute::Epoch(EpochChoice::Retired(1)));
}

#[test]
fn fetched_dek_is_refused_once_data_exists() {
    let sm = make_sm(1);
    assert_eq!(sm.install_fetched_dek(false, 3, b"w", true), Err(StoreError::DataNotEmpty(3)));
    assert_eq!(sm.install_fetched_dek(true, 3, b"w", false), Err(StoreError::Crypto));
    assert_eq!(sm.install_fetched_retired_dek(false, 3, true), Err(StoreError::DataNotEmpty(3)));
    assert_eq!(sm.install_fetched_retired_dek(true, 3, false), Err(StoreError::Crypto));
    let rec = sm.install_fetched_dek(true, 3, b"wrapped", true).expect("record");
    assert_eq!(rec, b"\x00\x00\x00\x03wrapped".to_vec());
}

#[test]
fn adopted_fetched_dek_becomes_current() {
    let mut sm = make_sm(1);
    sm.adopt_fetched_dek(5);
    assert_eq!(sm.current_dek_version(), 5);
    assert_eq!(sm.write_check("data", b"k", 1), Ok(5));
}

#[test]
fn current_dek_record_round_trips() {
    let wrapped = vec![0xabu8; 60];
    let rec = encode_dek_record(7, &wrapped);
    assert_eq!(&rec[..4], &[0, 0, 0, 7]);
    assert_eq!(decode_dek_record(Some(rec.as_slice())), Ok((7, wrapped.clone())));
    let sm = make_sm(7);
    assert_eq!(sm.current_dek_wrapped(Some(rec.as_slice())), Ok((7, wrapped)));
    assert_eq!(sm.current_dek_wrapped(None), Err(StoreError::NoDekInstalled));
    assert_eq!(sm.current_dek_wrapped(Some(&[1u8, 2, 3][..])), Err(StoreError::InvalidDekRecord(3)));
    assert_eq!(decode_dek_record(None), Err(DekRecordError::NotInstalled));
}

#[test]
fn retired_listing_skips_keys_that_are_not_versions() {
    let sm = make_sm(3);
    let entries = vec![
        (b"_meta:dek:retired:2".to_vec(), b"two".to_vec()),
        (b"_meta:dek:retired:x".to_vec(), b"bad".to_vec()),
        (b"_meta:dek:retired:1".to_vec(), b"one".to_vec()),
    ];
    assert_eq!(
        sm.retired_deks_wrapped(&entries),
        vec![(2u32, b"two".to_vec()), (1u32, b"one".to_vec())]
    );
}

#[test]
fn emergency_rotation_revokes_instead_of_retiring() {
    let mut sm = make_sm(1);
    let effect = sm.complete_dek_swap(2, true);
    assert_eq!(effect.old_version, 1);
    assert!(!effect.reencrypt_old);
    assert!(sm.retired_dek_versions().is_empty());
    // The revoked epoch no longer decrypts anything.
    assert_eq!(sm.decrypt_route("data", Some(1)), DecryptRoute::Epoch(EpochChoice::Unknown(1)));
    assert_eq!(sm.decrypt_route("data", Some(2)), DecryptRoute::Epoch(EpochChoice::Current));
}

#[test]
fn retired_versions_come_out_sorted() {
    let mut ring = DekRing::new(1);
    ring.complete_rotation(5, false);
    ring.complete_rotation(3, false);
    ring.complete_rotation(9, false);
    assert_eq!(ring.retired_versions(), vec![1, 3, 5]);
    assert_eq!(ring.current(), 9);
    assert!(ring.is_retired(3));
    assert!(!ring.is_retired(9));
}

#[test]
fn revoked_capacity_is_reported() {
    let mut ring = DekRing::new(0);
    for v in 1..=(MAX_REVOKED_DEKS as u32) {
        // Up to the review size, nothing is reported.
        assert!(!ring.complete_rotation(v, true).revoked_over_capacity);
    }
    assert!(ring.is_revoked(0));
    assert!(ring.complete_rotation(MAX_REVOKED_DEKS as u32 + 1, true).revoked_over_capacity);
}

#[test]
fn write_rate_thresholds() {
    assert_eq!(WRITE_RATE_THRESHOLD, 1 << 30);
    assert_eq!(check_write_rate(0), WriteRate::Normal);
    assert_eq!(check_write_rate(WRITE_RATE_WARN_THRESHOLD - 1), WriteRate::Normal);
    assert_eq!(check_write_rate(WRITE_RATE_WARN_THRESHOLD), WriteRate::NearThreshold);
    assert_eq!(check_write_rate(WRITE_RATE_THRESHOLD - 1), WriteRate::NearThreshold);
    assert_eq!(check_write_rate(WRITE_RATE_THRESHOLD), WriteRate::Exceeded);
}

#[test]
fn writes_are_refused_past_the_threshold_or_while_quarantined() {
    let mut tracker = QuarantineTracker::new();
    tracker.force_quarantine("data");
    let sm = FjallStateMachine::new(1, tracker, 4, Vec::new());
    assert_eq!(sm.write_check("data", b"k", 1), Err(StoreError::Quarantined(b"data".to_vec())));
    assert_eq!(
        sm.write_check("index", b"k", WRITE_RATE_THRESHOLD),
        Err(StoreError::WriteRateExceeded(b"k".to_vec(), WRITE_RATE_THRESHOLD))
    );
    assert_eq!(sm.write_check("index", b"k", 1), Ok(4));
    assert_eq!(sm.decrypt_route("data", Some(4)), DecryptRoute::Refused);
}

#[test]
fn repeated_tag_failures_quarantine_and_signal_once() {
    let mut sm = make_sm(1);
    let none: Vec<bool> = Vec::new();
    let (r1, s1) = sm.settle_decrypt("data", EpochChoice::Current, DecryptOutcome::TagMismatch, &none, 10);
    let (r2, s2) = sm.settle_decrypt("data", EpochChoice::Current, DecryptOutcome::TagMismatch, &none, 20);
    assert_eq!(r1, Err(StoreError::TagMismatch));
    assert_eq!(r2, Err(StoreError::TagMismatch));
    assert!(s1.is_none() && s2.is_none());
    let (r3, s3) = sm.settle_decrypt("data", EpochChoice::Current, DecryptOutcome::TagMismatch, &none, 30);
    assert_eq!(r3, Err(StoreError::TagMismatch));
    let sig = s3.expect("third failure quarantines");
    assert_eq!(sig.marker_key, b"_meta:quarantine:data:1".to_vec());
    assert_eq!(sig.partition, b"data".to_vec());
    assert_eq!(sig.node_id, 1);
    assert!(sm.is_quarantined("data"));
    assert_eq!(sm.decrypt_route("data", Some(1)), DecryptRoute::Refused);
    // A plain crypto failure never counts.
    let (r4, s4) = sm.settle_decrypt("index", EpochChoice::Current, DecryptOutcome::Failed, &none, 40);
    assert_eq!(r4, Err(StoreError::Crypto));
    assert!(s4.is_none());
}

#[test]
fn unknown_epoch_quarantines_at_once_and_signals() {
    let mut sm = make_sm(1);
    let none: Vec<bool> = Vec::new();
    let (res, signal) = sm.settle_decrypt("data", EpochChoice::Unknown(42), DecryptOutcome::Failed, &none, 5);
    assert_eq!(res, Err(StoreError::UnknownDekEpoch(42)));
    let sig = signal.expect("first ambiguous read quarantines");
    assert_eq!(sig.marker_key, b"_meta:quarantine:data:1".to_vec());
    assert!(sm.is_quarantined("data"));
    assert_eq!(sm.decrypt_route("data", Some(1)), DecryptRoute::Refused);
    // Already quarantined: no second signal.
    let (_, again) = sm.settle_decrypt("data", EpochChoice::Unknown(42), DecryptOutcome::Failed, &none, 6);
    assert!(again.is_none());
}

#[test]
fn third_legacy_failure_signals_even_when_a_retired_epoch_decrypts() {
    let mut sm = make_sm(1);
    sm.complete_dek_swap(2, false);
    let probes = vec![true];
    let (r1, s1) = sm.settle_decrypt("data", EpochChoice::Probe, DecryptOutcome::TagMismatch, &probes, 10);
    let (r2, s2) = sm.settle_decrypt("data", EpochChoice::Probe, DecryptOutcome::TagMismatch, &probes, 20);
    let (r3, s3) = sm.settle_decrypt("data", EpochChoice::Probe, DecryptOutcome::TagMismatch, &probes, 30);
    assert_eq!(r1, Ok(PlaintextSource::Retired(0)));
    assert_eq!(r2, Ok(PlaintextSource::Retired(0)));
    assert_eq!(r3, Ok(PlaintextSource::Retired(0)));
    assert!(s1.is_none() && s2.is_none());
    let sig = s3.expect("third tag failure quarantines and is signalled");
    assert_eq!(sig.marker_key, b"_meta:quarantine:data:1".to_vec());
    assert!(sm.is_quarantined("data"));
}
