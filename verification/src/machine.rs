//! The in-memory state of the Fjall-backed state machine and every
//! decision it takes. Whatever it needs to know of the Fjall database or of
//! a cryptographic operation comes in as an argument; whatever it wants
//! written goes out as batch writes.
use crate::codec::{be_bytes, be_u64, bytes_eq, copy_bytes, has_prefix, slice_copy, starts_with};
use crate::dek::{
    check_write_rate, epoch_for, after_rotation, DekRing, DekRingView, EpochChoice, RotationEffect,
    WriteRate, WRITE_RATE_THRESHOLD,
};
use crate::codec::be_value;
use crate::snapshot::{build_payload, keyspaces_seq, replicated, KeyspaceEntries, SnapshotPayload, SNAPSHOT_FORMAT_VERSION};
use crate::ephemeral::{entries_match, with_prefix, EphemeralDrop, EphemeralEntry, EphemeralRegistry};
use crate::keys::{
    check_core_keyspace, check_meta_keyspace, dek_current_key, dek_current_key_bytes, dek_record,
    dek_revoked_prefix, encode_dek_record, last_applied_log_key, last_applied_log_key_bytes,
    last_membership_key, last_membership_key_bytes, meta_name, pending_rotation_key,
    pending_rotation_prefix, quarantine_scan_prefix, quarantine_scan_prefix_bytes, revoked_dek_key, decode_dek_record, is_core_keyspace, quarantine_key,
    quarantine_meta_key_bytes, retired_deks_wrapped, retired_dek_key, retired_entries, entries_view,
    versioned_key, versioned_view, dek_retired_prefix, split_snapshot_file, DekRecordError, SnapshotFileParts, DEK_RECORD_MIN_LEN, SNAPSHOT_HEADER_LEN,
};
use crate::quarantine::{after_failure, failure_quarantines, QuarantineTracker, TrackerView, MARKER_FLAG};
use crate::types::{
    batch_view, violations_view, BatchOp, BatchOpView, Metadata, Mutation, MutationView, PendingRotation,
    PendingView, StoreError, Target, TargetView, Violation, ViolationView,
};
use vstd::prelude::*;
use vstd::string::StringSliceAdditionalSpecFns;
use vstd::utf8::encode_utf8;

verus! {

pub ghost struct MachineView {
    pub node_id: u64,
    pub quarantine: TrackerView,
    pub ephemeral: Map<Seq<char>, Map<Seq<u8>, (Seq<u8>, Metadata)>>,
    pub deks: DekRingView,
    pub pending: Map<Seq<char>, PendingView>,
}

/// The in-memory state of a node's state machine.
pub struct FjallStateMachine {
    node_id: u64,
    quarantine: QuarantineTracker,
    ephemeral: EphemeralRegistry,
    deks: DekRing,
    /// The staged emergency rotations; no id occurs twice (`wf`), so the
    /// vector is a map from rotation id to entry (`pending_map`).
    pending_rotations: Vec<PendingRotation>,
}

pub open spec fn pending_map(s: Seq<PendingRotation>) -> Map<Seq<char>, PendingView>
    decreases s.len(),
{
    if s.len() == 0 {
        Map::empty()
    } else {
        pending_map(s.drop_last()).insert(s.last().rotation_id@, s.last().view())
    }
}

pub open spec fn distinct_ids(s: Seq<PendingRotation>) -> bool {
    forall|i: int, j: int| 0 <= i < j < s.len() ==> s[i].rotation_id@ != s[j].rotation_id@
}

/// A request to persist this node's quarantine marker for a partition and
/// to propose the quarantine to the cluster.
#[derive(Debug, Clone, PartialEq, Eq)]
pub struct QuarantineSignal {
    /// Marker key to insert into `meta` (with value `1`).
    pub marker_key: Vec<u8>,
    pub node_id: u64,
    pub partition: Vec<u8>,
}

/// The signal owed when a failure quarantined `p` on `node_id`.
pub open spec fn signal_for(s: QuarantineSignal, node_id: u64, p: Seq<u8>) -> bool {
    s.marker_key@ == quarantine_key(p, node_id) && s.node_id == node_id && s.partition@ == p
}

/// Where a read of an encrypted record goes.
#[derive(Debug, Clone, Copy, PartialEq, Eq, Structural)]
pub enum DecryptRoute {
    /// The partition is quarantined: the read is refused.
    Refused,
    /// Decrypt with this epoch.
    Epoch(EpochChoice),
}

/// How one decryption attempt went.
#[derive(Debug, Clone, Copy, PartialEq, Eq, Structural)]
pub enum DecryptOutcome {
    Plaintext,
    /// GCM tag verification failed.
    TagMismatch,
    /// Any other cryptographic failure.
    Failed,
}

/// Which attempt's plaintext a read returns.
#[derive(Debug, Clone, Copy, PartialEq, Eq, Structural)]
pub enum PlaintextSource {
    /// The attempt with the routed (or current) epoch.
    Routed,
    /// The probe of the retired epoch at this position (increasing version
    /// order).
    Retired(usize),
}

/// What an ephemeral-aware drop of a keyspace asks the caller to do.
#[derive(Debug, Clone, Copy, PartialEq, Eq, Structural)]
pub enum DropAction {
    /// Nothing exists under the name: nothing to do.
    Nothing,
    /// The empty ephemeral keyspace was dropped from the registry.
    DroppedEphemeral,
    /// Delete the (empty) Fjall keyspace.
    DeleteFjallKeyspace,
}

pub open spec fn first_true(s: Seq<bool>) -> Option<int>
    decreases s.len(),
{
    if s.len() == 0 {
        None
    } else {
        match first_true(s.drop_last()) {
            Some(i) => Some(i),
            None => if s.last() {
                Some(s.len() - 1)
            } else {
                None
            },
        }
    }
}

/// What dropping keyspace `name` does (see `drop_keyspace`).
pub open spec fn drop_post(
    v: MachineView,
    name: Seq<char>,
    name_bytes: Seq<u8>,
    in_fjall: bool,
    fjall_empty: bool,
    v2: MachineView,
    r: Result<DropAction, StoreError>,
) -> bool {
    if is_core_keyspace(name_bytes) {
        v2 == v && (r matches Err(StoreError::CoreKeyspace(n)) && n@ == name)
    } else if v.ephemeral.contains_key(name) {
        if v.ephemeral[name].dom().is_empty() {
            r == Ok::<DropAction, StoreError>(DropAction::DroppedEphemeral) && v2 == (MachineView {
                ephemeral: v.ephemeral.remove(name),
                ..v
            })
        } else {
            v2 == v && (r matches Err(StoreError::KeyspaceNotEmpty(n)) && n@ == name)
        }
    } else {
        &&& v2 == v
        &&& !in_fjall ==> r == Ok::<DropAction, StoreError>(DropAction::Nothing)
        &&& in_fjall && fjall_empty ==> r == Ok::<DropAction, StoreError>(DropAction::DeleteFjallKeyspace)
        &&& in_fjall && !fjall_empty ==> (r matches Err(StoreError::KeyspaceNotEmpty(n)) && n@ == name)
    }
}

impl FjallStateMachine {
    pub closed spec fn view(&self) -> MachineView {
        MachineView {
            node_id: self.node_id,
            quarantine: self.quarantine.view(),
            ephemeral: self.ephemeral.view(),
            deks: self.deks.view(),
            pending: pending_map(self.pending_rotations@),
        }
    }

    pub closed spec fn wf(&self) -> bool {
        &&& self.quarantine.wf()
        &&& self.deks.wf()
        &&& distinct_ids(self.pending_rotations@)
    }

    /// The retired DEK versions in increasing order.
    pub closed spec fn retired_order(&self) -> Seq<u32> {
        self.deks.retired_order()
    }

    /// A state machine for node `node_id` with the quarantine loaded from
    /// its markers, `dek_version` as current DEK epoch and the pending
    /// rotations loaded from `meta` (a later entry with an id already seen
    /// replaces the earlier one).
    pub fn new(
        node_id: u64,
        quarantine: QuarantineTracker,
        dek_version: u32,
        pending_rotations: Vec<PendingRotation>,
    ) -> (r: Self)
        requires
            quarantine.wf(),
        ensures
            r.wf(),
            r.view().node_id == node_id,
            r.view().quarantine == quarantine.view(),
            r.view().ephemeral == Map::<Seq<char>, Map<Seq<u8>, (Seq<u8>, Metadata)>>::empty(),
            r.view().deks == (DekRingView { current: dek_version, retired: Set::empty(), revoked: Set::empty() }),
            r.view().pending == pending_map(pending_rotations@),
    {
        let ghost qv = quarantine.view();
        let mut sm = FjallStateMachine {
            node_id,
            quarantine,
            ephemeral: EphemeralRegistry::new(),
            deks: DekRing::new(dek_version),
            pending_rotations: Vec::new(),
        };
        let mut i: usize = 0;
        while i < pending_rotations.len()
            invariant
                i <= pending_rotations@.len(),
                sm.wf(),
                sm.node_id == node_id,
                sm.quarantine.view() == qv,
                sm.ephemeral.view() == Map::<Seq<char>, Map<Seq<u8>, (Seq<u8>, Metadata)>>::empty(),
                sm.deks.view() == (DekRingView {
                    current: dek_version,
                    retired: Set::empty(),
                    revoked: Set::empty(),
                }),
                pending_map(sm.pending_rotations@) == pending_map(pending_rotations@.subrange(0, i as int)),
            decreases pending_rotations.len() - i,
        {
            let e = pending_rotations[i].duplicate();
            assert(pending_rotations@.subrange(0, i + 1).drop_last() =~= pending_rotations@.subrange(0, i as int));
            sm.pending_put(e);
            i = i + 1;
        }
        assert(pending_rotations@.subrange(0, i as int) =~= pending_rotations@);
        sm
    }

    fn find_pending(&self, id: &String) -> (r: Option<usize>)
        requires
            self.wf(),
        ensures
            r matches Some(i) ==> i < self.pending_rotations@.len() && self.pending_rotations@[i as int].rotation_id@
                == id@,
            r is None ==> !self.view().pending.contains_key(id@),
    {
        vec_find_pending(&self.pending_rotations, id)
    }

    /// Stores `e` under its id, replacing an entry with the same id.
    fn pending_put(&mut self, e: PendingRotation)
        requires
            old(self).wf(),
        ensures
            final(self).wf(),
            final(self).view() == (MachineView {
                pending: old(self).view().pending.insert(e.rotation_id@, e.view()),
                ..old(self).view()
            }),
            final(self).retired_order() == old(self).retired_order(),
    {
        vec_pending_put(&mut self.pending_rotations, e);
    }

    /// Removes the entry with `id`, if any.
    fn pending_remove(&mut self, id: &String)
        requires
            old(self).wf(),
        ensures
            final(self).wf(),
            final(self).view() == (MachineView {
                pending: old(self).view().pending.remove(id@),
                ..old(self).view()
            }),
            final(self).retired_order() == old(self).retired_order(),
    {
        match self.find_pending(id) {
            Some(i) => {
                proof {
                    lemma_pending_remove(self.pending_rotations@, i as int);
                }
                self.pending_rotations.remove(i);
            },
            None => {
                assert(self.view().pending.remove(id@) =~= self.view().pending);
            },
        }
    }

    /// This node's Raft id.
    pub fn node_id(&self) -> (r: u64)
        ensures
            r == self.view().node_id,
    {
        self.node_id
    }

    /// The current DEK version.
    pub fn current_dek_version(&self) -> (r: u32)
        ensures
            r == self.view().deks.current,
    {
        self.deks.current()
    }

    /// The retired DEK versions, each once, in increasing order (the order
    /// the legacy probe and the re-encryption sweep visit them).
    pub fn retired_dek_versions(&self) -> (r: Vec<u32>)
        requires
            self.wf(),
        ensures
            r@ == self.retired_order(),
            r@.to_set() == self.view().deks.retired,
            crate::dek::sorted_distinct(r@),
    {
        self.deks.retired_versions()
    }

    /// The pending emergency rotations.
    pub fn pending_rotations(&self) -> (r: &Vec<PendingRotation>)
        ensures
            pending_map(r@) == self.view().pending,
    {
        &self.pending_rotations
    }

    /// Whether `name` is a registered ephemeral keyspace.
    pub fn is_ephemeral_keyspace(&self, name: &str) -> (r: bool)
        ensures
            r == self.view().ephemeral.contains_key(name@),
    {
        self.ephemeral.is_ephemeral_keyspace(name)
    }

    /// Reads a key of an ephemeral keyspace: `None` both when the keyspace
    /// is not ephemeral and when the key is absent.
    pub fn ephemeral_get(&self, keyspace: &str, key: &[u8]) -> (r: Option<(Vec<u8>, Metadata)>)
        ensures
            match r {
                Some(v) => self.view().ephemeral.contains_key(keyspace@) && self.view().ephemeral[keyspace@].contains_key(
                    key@,
                ) && self.view().ephemeral[keyspace@][key@] == (v.0@, v.1),
                None => !self.view().ephemeral.contains_key(keyspace@) || !self.view().ephemeral[keyspace@].contains_key(
                    key@,
                ),
            },
    {
        self.ephemeral.ephemeral_get(keyspace, key)
    }

    /// Lists the entries of an ephemeral keyspace whose key starts with
    /// `prefix`; `None` when the keyspace is not ephemeral.
    pub fn ephemeral_prefix(&self, keyspace: &str, prefix: &[u8]) -> (r: Option<Vec<EphemeralEntry>>)
        ensures
            r is Some <==> self.view().ephemeral.contains_key(keyspace@),
            r matches Some(es) ==> entries_match(es@, with_prefix(self.view().ephemeral[keyspace@], prefix@)),
    {
        self.ephemeral.ephemeral_prefix(keyspace, prefix)
    }

    /// The names of the ephemeral keyspaces, each once.
    pub fn ephemeral_keyspace_names(&self) -> (r: Vec<String>)
        ensures
            crate::ephemeral::names_match(r@, self.view().ephemeral.dom()),
    {
        self.ephemeral.names()
    }

    /// Whether keyspace `name` exists: always for `data`, `meta` and
    /// `index`, otherwise when it is ephemeral or when Fjall has it
    /// (`in_fjall`). Never creates anything.
    pub fn keyspace_exists(&self, name: &str, in_fjall: bool) -> (r: bool)
        ensures
            r == (is_core_keyspace(name.spec_bytes()) || self.view().ephemeral.contains_key(name@) || in_fjall),
    {
        check_core_keyspace(name.as_bytes()) || self.ephemeral.is_ephemeral_keyspace(name) || in_fjall
    }

    /// Drops an empty, non-core keyspace. `in_fjall` tells whether Fjall has
    /// a keyspace of that name and `fjall_empty` whether it holds no entry.
    ///
    /// The core keyspaces are refused; an ephemeral keyspace is dropped
    /// from the registry when empty and refused otherwise; a Fjall
    /// keyspace is to be deleted when empty and refused otherwise; a name
    /// that exists nowhere is a no-op. A refusal changes nothing.
    pub fn drop_keyspace(&mut self, name: &str, in_fjall: bool, fjall_empty: bool) -> (r: Result<
        DropAction,
        StoreError,
    >)
        requires
            old(self).wf(),
        ensures
            final(self).wf(),
            drop_post(old(self).view(), name@, name.spec_bytes(), in_fjall, fjall_empty, final(self).view(), r),
    {
        if check_core_keyspace(name.as_bytes()) {
            return Err(StoreError::CoreKeyspace(name.to_owned()));
        }
        match self.ephemeral.drop_if_empty(name) {
            EphemeralDrop::Dropped => Ok(DropAction::DroppedEphemeral),
            EphemeralDrop::NotEmpty => Err(StoreError::KeyspaceNotEmpty(name.to_owned())),
            EphemeralDrop::NotEphemeral => {
                if !in_fjall {
                    Ok(DropAction::Nothing)
                } else if fjall_empty {
                    Ok(DropAction::DeleteFjallKeyspace)
                } else {
                    Err(StoreError::KeyspaceNotEmpty(name.to_owned()))
                }
            },
        }
    }

    /// Where a read of a record of `partition` whose metadata names DEK
    /// version `hint` goes: refused while the partition is quarantined,
    /// otherwise to exactly the epoch `hint` names (an unknown one is never
    /// replaced by another key), or to the legacy probe for `None`.
    pub fn decrypt_route(&self, partition: &str, hint: Option<u32>) -> (r: DecryptRoute)
        requires
            self.wf(),
        ensures
            r == if self.view().quarantine.quarantined.contains(partition.spec_bytes()) {
                DecryptRoute::Refused
            } else {
                DecryptRoute::Epoch(epoch_for(self.view().deks, hint))
            },
    {
        if self.quarantine.is_quarantined(partition) {
            DecryptRoute::Refused
        } else {
            DecryptRoute::Epoch(self.deks.choose_epoch(hint))
        }
    }

    /// Settles a read of a record of `partition` routed to `route`, given
    /// how decrypting with the routed epoch went (`outcome`) and, for the
    /// legacy probe, whether each retired epoch in increasing version order
    /// decrypted it (`probes`). `now` is the monotonic time in nanoseconds.
    ///
    /// A tag failure counts toward the partition's quarantine; for a legacy
    /// record it counts even when a retired epoch then decrypts it. A record
    /// naming an epoch this node does not hold is treated as ambiguous and
    /// quarantines its partition at once. Whenever a read newly quarantines
    /// the partition, a signal to persist the node's marker and propose the
    /// quarantine is returned, whether or not the read itself succeeded.
    pub fn settle_decrypt(
        &mut self,
        partition: &str,
        route: EpochChoice,
        outcome: DecryptOutcome,
        probes: &Vec<bool>,
        now: u64,
    ) -> (r: (Result<PlaintextSource, StoreError>, Option<QuarantineSignal>))
        requires
            old(self).wf(),
        ensures
            final(self).wf(),
            ({
                let (res, q, newly) = settle_spec(
                    old(self).view(),
                    partition.spec_bytes(),
                    route,
                    outcome,
                    probes@,
                    now,
                );
                &&& r.0 == res
                &&& final(self).view() == (MachineView { quarantine: q, ..old(self).view() })
                &&& newly ==> (r.1 matches Some(sig) && signal_for(sig, old(self).view().node_id, partition.spec_bytes()))
                &&& !newly ==> r.1 is None
            }),
            final(self).retired_order() == old(self).retired_order(),
    {
        match route {
            EpochChoice::Unknown(h) => {
                // A record naming an epoch this node does not hold is
                // treated as ambiguous: its partition is quarantined at once.
                let already = self.quarantine.is_quarantined(partition);
                self.quarantine.force_quarantine(partition);
                if already {
                    (Err(StoreError::UnknownDekEpoch(h)), None)
                } else {
                    (Err(StoreError::UnknownDekEpoch(h)), Some(self.quarantine_signal(partition)))
                }
            },
            EpochChoice::Probe => match outcome {
                DecryptOutcome::Plaintext => (Ok(PlaintextSource::Routed), None),
                DecryptOutcome::Failed => (Err(StoreError::Crypto), None),
                DecryptOutcome::TagMismatch => {
                    let failed = self.quarantine.record_failure(partition, now);
                    let sig = if failed {
                        Some(self.quarantine_signal(partition))
                    } else {
                        None
                    };
                    match first_success(probes) {
                        Some(i) => (Ok(PlaintextSource::Retired(i)), sig),
                        None => (Err(StoreError::TagMismatch), sig),
                    }
                },
            },
            _ => match outcome {
                DecryptOutcome::Plaintext => (Ok(PlaintextSource::Routed), None),
                DecryptOutcome::Failed => (Err(StoreError::Crypto), None),
                DecryptOutcome::TagMismatch => {
                    let sig = self.record_quarantine_failure(partition, now);
                    (Err(StoreError::TagMismatch), sig)
                },
            },
        }
    }

    fn quarantine_signal(&self, partition: &str) -> (r: QuarantineSignal)
        ensures
            signal_for(r, self.view().node_id, partition.spec_bytes()),
    {
        QuarantineSignal {
            marker_key: quarantine_meta_key_bytes(partition.as_bytes(), self.node_id),
            node_id: self.node_id,
            partition: copy_bytes(partition.as_bytes()),
        }
    }

    /// Records a failure and, when it quarantines the partition, returns the
    /// signal to persist and propose the quarantine.
    fn record_quarantine_failure(&mut self, partition: &str, now: u64) -> (r: Option<QuarantineSignal>)
        requires
            old(self).wf(),
        ensures
            final(self).wf(),
            final(self).view() == (MachineView {
                quarantine: after_failure(old(self).view().quarantine, partition.spec_bytes(), now),
                ..old(self).view()
            }),
            final(self).retired_order() == old(self).retired_order(),
            failure_quarantines(old(self).view().quarantine, partition.spec_bytes(), now) ==> (r matches Some(
                sig,
            ) && signal_for(sig, old(self).view().node_id, partition.spec_bytes())),
            !failure_quarantines(old(self).view().quarantine, partition.spec_bytes(), now) ==> r is None,
    {
        if self.quarantine.record_failure(partition, now) {
            Some(self.quarantine_signal(partition))
        } else {
            None
        }
    }

    /// Checks a write of `key` in `partition` whose record version would
    /// become `next_version`: refused while the partition is quarantined or
    /// once the version reaches the write threshold; otherwise the DEK
    /// version the record is to be encrypted under (the current one).
    pub fn write_check(&self, partition: &str, key: &[u8], next_version: u32) -> (r: Result<u32, StoreError>)
        requires
            self.wf(),
        ensures
            self.view().quarantine.quarantined.contains(partition.spec_bytes()) ==> (r matches Err(
                StoreError::Quarantined(p),
            ) && p@ == partition.spec_bytes()),
            !self.view().quarantine.quarantined.contains(partition.spec_bytes()) && next_version
                >= WRITE_RATE_THRESHOLD ==> (r matches Err(StoreError::WriteRateExceeded(k, n)) && k@ == key@
                && n == next_version),
            !self.view().quarantine.quarantined.contains(partition.spec_bytes()) && next_version
                < WRITE_RATE_THRESHOLD ==> r == Ok::<u32, StoreError>(self.view().deks.current),
    {
        if self.quarantine.is_quarantined(partition) {
            return Err(StoreError::Quarantined(copy_bytes(partition.as_bytes())));
        }
        match check_write_rate(next_version) {
            WriteRate::Exceeded => Err(StoreError::WriteRateExceeded(copy_bytes(key), next_version)),
            _ => Ok(self.deks.current()),
        }
    }

    /// This node's current DEK in stored form `(version, wrapped)`, from
    /// what `_meta:dek:current` holds (`stored`).
    pub fn current_dek_wrapped(&self, stored: Option<&[u8]>) -> (r: Result<(u32, Vec<u8>), StoreError>)
        ensures
            match stored {
                None => r == Err::<(u32, Vec<u8>), StoreError>(StoreError::NoDekInstalled),
                Some(s) => if s@.len() < DEK_RECORD_MIN_LEN {
                    r == Err::<(u32, Vec<u8>), StoreError>(StoreError::InvalidDekRecord(s@.len() as usize))
                } else {
                    (r matches Ok((v, w)) && v == crate::codec::be_value(s@.subrange(0, 4)) && w@ == s@.subrange(
                        4,
                        s@.len() as int,
                    ))
                },
            },
    {
        match decode_dek_record(stored) {
            Ok(x) => Ok(x),
            Err(DekRecordError::NotInstalled) => Err(StoreError::NoDekInstalled),
            Err(DekRecordError::TooShort { len }) => Err(StoreError::InvalidDekRecord(len)),
        }
    }

    /// The retired DEK epochs in stored form `(version, wrapped)`, from the
    /// entries a scan of `_meta:dek:retired:` returned, in scan order.
    pub fn retired_deks_wrapped(&self, entries: &Vec<(Vec<u8>, Vec<u8>)>) -> (r: Vec<(u32, Vec<u8>)>)
        ensures
            versioned_view(r@) == retired_entries(entries_view(entries@)),
    {
        retired_deks_wrapped(entries)
    }

    /// Checks the adoption of the cluster's current DEK fetched before
    /// joining: only while `data` is empty (`data_empty`) and only when this
    /// node's KEK unwrapped it (`unwrapped`). Returns the record to persist
    /// under `_meta:dek:current`; nothing changes here.
    pub fn install_fetched_dek(&self, data_empty: bool, dek_version: u32, wrapped_dek: &[u8], unwrapped: bool) -> (r:
        Result<Vec<u8>, StoreError>)
        ensures
            !data_empty ==> r == Err::<Vec<u8>, StoreError>(StoreError::DataNotEmpty(dek_version)),
            data_empty && !unwrapped ==> r == Err::<Vec<u8>, StoreError>(StoreError::Crypto),
            data_empty && unwrapped ==> (r matches Ok(rec) && rec@.len() == 4 + wrapped_dek@.len()
                && crate::codec::be_value(rec@.subrange(0, 4)) == dek_version && rec@.subrange(4, rec@.len() as int)
                == wrapped_dek@),
    {
        if !data_empty {
            return Err(StoreError::DataNotEmpty(dek_version));
        }
        if !unwrapped {
            return Err(StoreError::Crypto);
        }
        Ok(crate::keys::encode_dek_record(dek_version, wrapped_dek))
    }

    /// Makes the fetched DEK current once its record is persisted.
    pub fn adopt_fetched_dek(&mut self, dek_version: u32)
        requires
            old(self).wf(),
        ensures
            final(self).wf(),
            final(self).view() == (MachineView {
                deks: DekRingView { current: dek_version, ..old(self).view().deks },
                ..old(self).view()
            }),
    {
        self.deks.set_current(dek_version);
    }

    /// Checks the adoption of a retired DEK fetched before joining, under the
    /// same conditions as `install_fetched_dek`. Returns the key of its
    /// retired record (the wrapped bytes are its value); nothing changes
    /// here.
    pub fn install_fetched_retired_dek(&self, data_empty: bool, dek_version: u32, unwrapped: bool) -> (r: Result<
        Vec<u8>,
        StoreError,
    >)
        ensures
            !data_empty ==> r == Err::<Vec<u8>, StoreError>(StoreError::DataNotEmpty(dek_version)),
            data_empty && !unwrapped ==> r == Err::<Vec<u8>, StoreError>(StoreError::Crypto),
            data_empty && unwrapped ==> (r matches Ok(k) && k@ == versioned_key(dek_retired_prefix(), dek_version)),
    {
        if !data_empty {
            return Err(StoreError::DataNotEmpty(dek_version));
        }
        if !unwrapped {
            return Err(StoreError::Crypto);
        }
        Ok(retired_dek_key(dek_version))
    }

    /// Registers a fetched retired DEK as readable.
    pub fn adopt_fetched_retired_dek(&mut self, dek_version: u32)
        requires
            old(self).wf(),
        ensures
            final(self).wf(),
            final(self).view() == (MachineView {
                deks: DekRingView { retired: old(self).view().deks.retired.insert(dek_version), ..old(self).view().deks },
                ..old(self).view()
            }),
    {
        self.deks.retire(dek_version);
    }

    /// Swaps in the DEK of a committed rotation (see `DekRing::complete_rotation`).
    pub fn complete_dek_swap(&mut self, new_version: u32, is_emergency: bool) -> (r: RotationEffect)
        requires
            old(self).wf(),
        ensures
            final(self).wf(),
            final(self).view() == (MachineView {
                deks: after_rotation(old(self).view().deks, new_version, is_emergency),
                ..old(self).view()
            }),
            r.old_version == old(self).view().deks.current,
            r.reencrypt_old == !is_emergency,
    {
        self.deks.complete_rotation(new_version, is_emergency)
    }

    /// Whether `partition` is quarantined.
    pub fn is_quarantined(&self, partition: &str) -> (r: bool)
        requires
            self.wf(),
        ensures
            r == self.view().quarantine.quarantined.contains(partition.spec_bytes()),
    {
        self.quarantine.is_quarantined(partition)
    }

    /// The snapshot payload of this node: the full contents of every
    /// replicated Fjall keyspace (`fjall_keyspaces`, read at one point of
    /// the database) and the names of the ephemeral keyspaces.
    pub fn snapshot_payload(&self, fjall_keyspaces: Vec<(String, KeyspaceEntries)>) -> (r: SnapshotPayload)
        ensures
            r.version == SNAPSHOT_FORMAT_VERSION,
            r.keyspaces_view() == replicated(keyspaces_seq(fjall_keyspaces@)),
            crate::ephemeral::names_match(r.ephemeral_keyspaces@, self.view().ephemeral.dom()),
    {
        let names = self.ephemeral.names();
        build_payload(fjall_keyspaces, names)
    }

    /// After a snapshot was installed: the ephemeral registry becomes the
    /// names the payload lists, each with no record; everything else is
    /// left as it was.
    pub fn install_snapshot_registry(&mut self, payload: &SnapshotPayload)
        requires
            old(self).wf(),
        ensures
            final(self).wf(),
            final(self).view() == (MachineView {
                ephemeral: registry_of_names(payload.ephemeral_keyspaces@),
                ..old(self).view()
            }),
    {
        self.ephemeral.reset(&payload.ephemeral_keyspaces);
    }

    /// Opens the header of a snapshot file: its DEK version, UTC epoch and
    /// encrypted body, and which epoch of this node decrypts it (the current
    /// one or the retired one of that version). A file shorter than its
    /// header, or stamped with a version this node holds no epoch for, is
    /// refused.
    pub fn open_snapshot_file(&self, disk: &[u8]) -> (r: Result<(SnapshotFileParts, EpochChoice), StoreError>)
        ensures
            disk@.len() < SNAPSHOT_HEADER_LEN ==> r == Err::<(SnapshotFileParts, EpochChoice), StoreError>(
                StoreError::SnapshotTooShort(disk@.len() as usize),
            ),
            disk@.len() >= SNAPSHOT_HEADER_LEN ==> {
                let v = be_value(disk@.subrange(0, 4));
                &&& (r is Ok <==> !(epoch_for(self.view().deks, Some(v as u32)) is Unknown))
                &&& r matches Ok((p, c)) ==> {
                    &&& p.dek_version == v
                    &&& p.utc_epoch == be_value(disk@.subrange(4, 12))
                    &&& p.body@ == disk@.subrange(12, disk@.len() as int)
                    &&& c == epoch_for(self.view().deks, Some(p.dek_version))
                }
                &&& r matches Err(e) ==> e == StoreError::NoMatchingEpoch(v as u32)
            },
    {
        match split_snapshot_file(disk) {
            Err(n) => Err(StoreError::SnapshotTooShort(n)),
            Ok(parts) => {
                let v = parts.dek_version;
                match self.deks.choose_epoch(Some(v)) {
                    EpochChoice::Unknown(_) => Err(StoreError::NoMatchingEpoch(v)),
                    c => Ok((parts, c)),
                }
            },
        }
    }
}

/// The ephemeral registry a snapshot's name list restores: each listed
/// name, with no record.
pub open spec fn registry_of_names(names: Seq<String>) -> Map<Seq<char>, Map<Seq<u8>, (Seq<u8>, Metadata)>> {
    Map::new(
        |n: Seq<char>| exists|i: int| 0 <= i < names.len() && names[i]@ == n,
        |n: Seq<char>| Map::<Seq<u8>, (Seq<u8>, Metadata)>::empty(),
    )
}

/// A snapshot carries the ephemeral keyspace registry: the names a node
/// lists into its payload are, after the install, exactly the ephemeral
/// keyspaces of the installing node, and none of them holds a record.
pub proof fn law_snapshot_carries_ephemeral_names(names: Seq<String>, registered: Set<Seq<char>>)
    requires
        crate::ephemeral::names_match(names, registered),
    ensures
        registry_of_names(names).dom() == registered,
        forall|n: Seq<char>| #[trigger] registry_of_names(names).contains_key(n) ==> registry_of_names(names)[n].is_empty(),
{
    assert forall|n: Seq<char>| #[trigger] registry_of_names(names).dom().contains(n) <==> registered.contains(n) by {
        if registered.contains(n) {
            let i = choose|i: int| 0 <= i < names.len() && names[i]@ == n;
            assert(registry_of_names(names).dom().contains(n));
        }
        if registry_of_names(names).dom().contains(n) {
            let i = choose|i: int| 0 <= i < names.len() && names[i]@ == n;
            assert(registered.contains(names[i]@));
        }
    }
    assert(registry_of_names(names).dom() =~= registered);
}

/// Every tag-verification failure counts toward the partition's
/// quarantine, whatever epoch the read was routed to, and also for a legacy
/// record that a retired epoch then decrypts; a read that decrypts, or fails
/// for another reason, leaves the tracker as it was. A record naming an
/// epoch the node does not hold quarantines its partition at once. A read
/// that newly quarantines the partition always owes the signal that
/// persists the node's marker, also when the read itself succeeded.
pub proof fn law_tag_failures_always_count(
    v: MachineView,
    p: Seq<u8>,
    route: EpochChoice,
    outcome: DecryptOutcome,
    probes: Seq<bool>,
    now: u64,
)
    ensures
        !(route is Unknown) && outcome == DecryptOutcome::TagMismatch ==> settle_spec(v, p, route, outcome, probes, now).1
            == after_failure(v.quarantine, p, now),
        !(route is Unknown) && outcome == DecryptOutcome::TagMismatch ==> settle_spec(v, p, route, outcome, probes, now).2
            == failure_quarantines(v.quarantine, p, now),
        !(route is Unknown) && outcome != DecryptOutcome::TagMismatch ==> settle_spec(v, p, route, outcome, probes, now).1
            == v.quarantine,
        route is Unknown ==> settle_spec(v, p, route, outcome, probes, now).1.quarantined.contains(p),
        route is Unknown ==> (settle_spec(v, p, route, outcome, probes, now).2 <==> !v.quarantine.quarantined.contains(p)),
        route is Probe && outcome == DecryptOutcome::TagMismatch && first_true(probes) is Some ==> settle_spec(
            v,
            p,
            route,
            outcome,
            probes,
            now,
        ).0 is Ok,
{
}

/// The revision of the ephemeral record under `key` in `ks`, if there is one.
pub open spec fn stored_ephemeral_revision(
    e: Map<Seq<char>, Map<Seq<u8>, (Seq<u8>, Metadata)>>,
    ks: Seq<char>,
    key: Seq<u8>,
) -> Option<u64> {
    if e.contains_key(ks) && e[ks].contains_key(key) {
        Some(e[ks][key].1.revision)
    } else {
        None
    }
}

/// Ephemeral records obey optimistic concurrency: an ephemeral write, or a
/// removal from an ephemeral keyspace, that expects revision `e` while the
/// key holds another revision (or nothing) is refused with a conflict
/// naming both revisions, and the record stays exactly as it was. A write
/// still registers its keyspace (empty if it was new); nothing else of the
/// node changes and nothing reaches Fjall.
pub proof fn law_ephemeral_stale_revision_refused(
    v: MachineView,
    t: TxnView,
    key: Seq<u8>,
    ks: Seq<char>,
    cipher: Seq<u8>,
    md: Metadata,
    tier: u8,
    e: u64,
    f: FactsView,
)
    requires
        !is_system_write(ks, key),
        md.is_ephemeral,
        stored_ephemeral_revision(v.ephemeral, ks, key) != Some(e),
    ensures
        ({
            let (v2, t2, r) = apply_step(v, t, MutationView::Put(key, ks, cipher, md, tier, Some(e)), f);
            &&& r is Ok
            &&& t2.batch == t.batch
            &&& t2.dek_swap == t.dek_swap
            &&& t2.violations == t.violations.push(
                ViolationView::RevisionConflict(key, stored_ephemeral_revision(v.ephemeral, ks, key), e),
            )
            &&& v2.ephemeral.contains_key(ks)
            &&& v2.ephemeral[ks] == (if v.ephemeral.contains_key(ks) {
                v.ephemeral[ks]
            } else {
                Map::<Seq<u8>, (Seq<u8>, Metadata)>::empty()
            })
            &&& v2.ephemeral.remove(ks) == v.ephemeral.remove(ks)
            &&& v2 == (MachineView { ephemeral: v2.ephemeral, ..v })
        }),
        v.ephemeral.contains_key(ks) ==> ({
            let (v2, t2, r) = apply_step(v, t, MutationView::Remove(key, ks, Some(e)), f);
            &&& r is Ok
            &&& v2 == v
            &&& t2.batch == t.batch
            &&& t2.dek_swap == t.dek_swap
            &&& t2.violations == t.violations.push(
                ViolationView::RevisionConflict(key, stored_ephemeral_revision(v.ephemeral, ks, key), e),
            )
        }),
{
    let e1 = ensure_ephemeral(v.ephemeral, ks);
    assert(e1.remove(ks) =~= v.ephemeral.remove(ks));
}

/// An ephemeral write that expects no revision, or the revision the record
/// has, stores exactly the given value and metadata under the key, keeps
/// every other record, adds no refusal and nothing reaches Fjall.
pub proof fn law_ephemeral_put_current_revision_writes(
    v: MachineView,
    t: TxnView,
    key: Seq<u8>,
    ks: Seq<char>,
    cipher: Seq<u8>,
    md: Metadata,
    tier: u8,
    expected: Option<u64>,
    f: FactsView,
)
    requires
        !is_system_write(ks, key),
        md.is_ephemeral,
        expected is None || stored_ephemeral_revision(v.ephemeral, ks, key) == expected,
    ensures
        ({
            let (v2, t2, r) = apply_step(v, t, MutationView::Put(key, ks, cipher, md, tier, expected), f);
            &&& r is Ok
            &&& t2 == t
            &&& v2.ephemeral.contains_key(ks)
            &&& v2.ephemeral[ks][key] == (cipher, md)
            &&& v2.ephemeral[ks].remove(key) == (if v.ephemeral.contains_key(ks) {
                v.ephemeral[ks]
            } else {
                Map::<Seq<u8>, (Seq<u8>, Metadata)>::empty()
            }).remove(key)
            &&& v2.ephemeral.remove(ks) == v.ephemeral.remove(ks)
            &&& v2 == (MachineView { ephemeral: v2.ephemeral, ..v })
        }),
{
    let e1 = ensure_ephemeral(v.ephemeral, ks);
    assert(e1.remove(ks) =~= v.ephemeral.remove(ks));
    let v2 = apply_step(v, t, MutationView::Put(key, ks, cipher, md, tier, expected), f).0;
    assert(v2.ephemeral.remove(ks) =~= v.ephemeral.remove(ks));
    assert(v2.ephemeral[ks].remove(key) =~= e1[ks].remove(key));
}

/// A removal from an ephemeral keyspace that expects no revision, or the
/// revision the record has, deletes exactly that key and nothing else.
pub proof fn law_ephemeral_remove_deletes_key(
    v: MachineView,
    t: TxnView,
    key: Seq<u8>,
    ks: Seq<char>,
    expected: Option<u64>,
    f: FactsView,
)
    requires
        !is_system_write(ks, key),
        v.ephemeral.contains_key(ks),
        expected is None || stored_ephemeral_revision(v.ephemeral, ks, key) == expected,
    ensures
        ({
            let (v2, t2, r) = apply_step(v, t, MutationView::Remove(key, ks, expected), f);
            &&& r is Ok
            &&& t2 == t
            &&& v2.ephemeral.contains_key(ks)
            &&& !v2.ephemeral[ks].contains_key(key)
            &&& forall|k: Seq<u8>| k != key ==> (#[trigger] v2.ephemeral[ks].contains_key(k) <==> v.ephemeral[ks].contains_key(k))
            &&& forall|k: Seq<u8>| k != key && v.ephemeral[ks].contains_key(k) ==> #[trigger] v2.ephemeral[ks][k] == v.ephemeral[ks][k]
            &&& v2.ephemeral.remove(ks) == v.ephemeral.remove(ks)
            &&& v2 == (MachineView { ephemeral: v2.ephemeral, ..v })
        }),
{
    let v2 = apply_step(v, t, MutationView::Remove(key, ks, expected), f).0;
    assert(v2.ephemeral.remove(ks) =~= v.ephemeral.remove(ks));
}

/// An ephemeral create of a key that is already present is refused as
/// already existing and keeps the stored record (value and metadata) and
/// everything else as it was; of an absent key it stores the record.
pub proof fn law_ephemeral_create_if_absent(
    v: MachineView,
    t: TxnView,
    key: Seq<u8>,
    ks: Seq<char>,
    cipher: Seq<u8>,
    md: Metadata,
    tier: u8,
    f: FactsView,
)
    requires
        md.is_ephemeral,
    ensures
        v.ephemeral.contains_key(ks) && v.ephemeral[ks].contains_key(key) ==> ({
            let (v2, t2, r) = apply_step(v, t, MutationView::CreateIfAbsent(key, ks, cipher, md, tier), f);
            &&& r is Ok
            &&& v2 == v
            &&& t2.batch == t.batch
            &&& t2.dek_swap == t.dek_swap
            &&& t2.violations == t.violations.push(ViolationView::AlreadyExists(key))
        }),
        !(v.ephemeral.contains_key(ks) && v.ephemeral[ks].contains_key(key)) ==> ({
            let (v2, t2, r) = apply_step(v, t, MutationView::CreateIfAbsent(key, ks, cipher, md, tier), f);
            &&& r is Ok
            &&& t2 == t
            &&& v2.ephemeral.contains_key(ks)
            &&& v2.ephemeral[ks].contains_key(key)
            &&& v2.ephemeral[ks][key] == (cipher, md)
            &&& v2.ephemeral[ks].remove(key) == (if v.ephemeral.contains_key(ks) {
                v.ephemeral[ks]
            } else {
                Map::<Seq<u8>, (Seq<u8>, Metadata)>::empty()
            })
        }),
{
    let e1 = ensure_ephemeral(v.ephemeral, ks);
    if v.ephemeral.contains_key(ks) && v.ephemeral[ks].contains_key(key) {
        assert(e1 =~= v.ephemeral);
    } else {
        assert(e1[ks].insert(key, (cipher, md)).remove(key) =~= e1[ks]);
    }
}

/// The first successful probe: `first_true(s)` is the least index holding
/// `true`, and `None` exactly when no entry is `true`.
pub proof fn law_first_true_is_least_success(s: Seq<bool>)
    ensures
        first_true(s) is None <==> forall|j: int| 0 <= j < s.len() ==> !s[j],
        first_true(s) matches Some(i) ==> 0 <= i < s.len() && s[i] && forall|j: int| 0 <= j < i ==> !s[j],
    decreases s.len(),
{
    if s.len() > 0 {
        law_first_true_is_least_success(s.drop_last());
        let p = s.drop_last();
        assert forall|j: int| 0 <= j < p.len() implies p[j] == s[j] by {}
        if first_true(p) is None && !s.last() {
            assert forall|j: int| 0 <= j < s.len() implies !s[j] by {
                if j < p.len() {
                    assert(p[j] == s[j]);
                }
            }
        }
    }
}

/// A legacy read whose current-epoch attempt fails its tag is served by the
/// first retired epoch, in probe order, that decrypts the record; it fails
/// only when none does. (The probe results come from a vector, so there are
/// at most `usize::MAX` of them.)
pub proof fn law_legacy_probe_uses_first_decrypting_epoch(
    v: MachineView,
    p: Seq<u8>,
    probes: Seq<bool>,
    now: u64,
)
    requires
        probes.len() <= usize::MAX,
    ensures
        (exists|j: int| 0 <= j < probes.len() && probes[j]) ==> (settle_spec(
            v,
            p,
            EpochChoice::Probe,
            DecryptOutcome::TagMismatch,
            probes,
            now,
        ).0 matches Ok(PlaintextSource::Retired(i)) && i < probes.len() && probes[i as int] && forall|j: int|
            0 <= j < i ==> !probes[j]),
        (forall|j: int| 0 <= j < probes.len() ==> !probes[j]) ==> settle_spec(
            v,
            p,
            EpochChoice::Probe,
            DecryptOutcome::TagMismatch,
            probes,
            now,
        ).0 == Err::<PlaintextSource, StoreError>(StoreError::TagMismatch),
{
    law_first_true_is_least_success(probes);
    match first_true(probes) {
        Some(i) => {
            assert((i as usize) as int == i);
        },
        None => {},
    }
}

/// What settling a read routed to `route` does: the result, the tracker
/// afterwards, and whether a quarantine signal is owed.
pub open spec fn settle_spec(
    v: MachineView,
    p: Seq<u8>,
    route: EpochChoice,
    outcome: DecryptOutcome,
    probes: Seq<bool>,
    now: u64,
) -> (Result<PlaintextSource, StoreError>, TrackerView, bool) {
    let fail_q = after_failure(v.quarantine, p, now);
    let newly = failure_quarantines(v.quarantine, p, now);
    match route {
        EpochChoice::Unknown(h) => (
            Err(StoreError::UnknownDekEpoch(h)),
            TrackerView { quarantined: v.quarantine.quarantined.insert(p), ..v.quarantine },
            !v.quarantine.quarantined.contains(p),
        ),
        EpochChoice::Probe => match outcome {
            DecryptOutcome::Plaintext => (Ok(PlaintextSource::Routed), v.quarantine, false),
            DecryptOutcome::Failed => (Err(StoreError::Crypto), v.quarantine, false),
            DecryptOutcome::TagMismatch => match first_true(probes) {
                Some(i) => (Ok(PlaintextSource::Retired(i as usize)), fail_q, newly),
                None => (Err(StoreError::TagMismatch), fail_q, newly),
            },
        },
        _ => match outcome {
            DecryptOutcome::Plaintext => (Ok(PlaintextSource::Routed), v.quarantine, false),
            DecryptOutcome::Failed => (Err(StoreError::Crypto), v.quarantine, false),
            DecryptOutcome::TagMismatch => (Err(StoreError::TagMismatch), fail_q, newly),
        },
    }
}

fn vec_find_pending(v: &Vec<PendingRotation>, id: &String) -> (r: Option<usize>)
    ensures
        r matches Some(i) ==> i < v@.len() && v@[i as int].rotation_id@ == id@,
        r is None ==> !pending_map(v@).contains_key(id@),
{
    let mut i: usize = 0;
    while i < v.len()
        invariant
            i <= v@.len(),
            forall|j: int| 0 <= j < i ==> v@[j].rotation_id@ != id@,
        decreases v.len() - i,
    {
        if v[i].rotation_id == *id {
            return Some(i);
        }
        i = i + 1;
    }
    proof {
        lemma_pending_absent(v@, id@);
    }
    None
}

fn vec_pending_put(v: &mut Vec<PendingRotation>, e: PendingRotation)
    requires
        distinct_ids(old(v)@),
    ensures
        distinct_ids(final(v)@),
        pending_map(final(v)@) == pending_map(old(v)@).insert(e.rotation_id@, e.view()),
{
    match vec_find_pending(v, &e.rotation_id) {
        Some(i) => {
            proof {
                lemma_pending_update(v@, i as int, e);
            }
            v.set(i, e);
        },
        None => {
            let ghost before = v@;
            v.push(e);
            proof {
                assert(v@.drop_last() =~= before);
                assert forall|a: int, b: int| 0 <= a < b < v@.len() implies v@[a].rotation_id@ != v@[b].rotation_id@ by {
                    assert(v@[a] == before[a]);
                    if b < before.len() {
                        assert(v@[b] == before[b]);
                    } else {
                        lemma_pending_index(before, a);
                    }
                }
            }
        },
    }
}

/// What loading the pending rotations found in `meta` keeps: every entry
/// still open at `now`, a later entry replacing an earlier one with the same
/// id.
pub open spec fn loaded_pending(entries: Seq<PendingRotation>, now: u64) -> Map<Seq<char>, PendingView>
    decreases entries.len(),
{
    if entries.len() == 0 {
        Map::empty()
    } else {
        let m = loaded_pending(entries.drop_last(), now);
        if entries.last().expires_at <= now {
            m
        } else {
            m.insert(entries.last().rotation_id@, entries.last().view())
        }
    }
}

/// Loads the pending emergency rotations on startup from the entries that
/// decoded under `_meta:rotation:pending:`: those expired at `now` (Unix
/// seconds) are left out, since they can no longer be confirmed.
pub fn load_pending_rotations(entries: Vec<PendingRotation>, now: u64) -> (r: Vec<PendingRotation>)
    ensures
        distinct_ids(r@),
        pending_map(r@) == loaded_pending(entries@, now),
{
    let mut out: Vec<PendingRotation> = Vec::new();
    let mut i: usize = 0;
    while i < entries.len()
        invariant
            i <= entries@.len(),
            distinct_ids(out@),
            pending_map(out@) == loaded_pending(entries@.subrange(0, i as int), now),
        decreases entries.len() - i,
    {
        let ghost sub = entries@.subrange(0, i + 1);
        assert(sub.drop_last() =~= entries@.subrange(0, i as int));
        assert(sub.last() == entries@[i as int]);
        if entries[i].expires_at > now {
            vec_pending_put(&mut out, entries[i].duplicate());
        }
        i = i + 1;
    }
    assert(entries@.subrange(0, i as int) =~= entries@);
    out
}

/// Position of the first `true`.
fn first_success(s: &Vec<bool>) -> (r: Option<usize>)
    ensures
        r matches Some(i) ==> first_true(s@) == Some(i as int),
        r is None ==> first_true(s@) is None,
{
    let mut i: usize = 0;
    while i < s.len()
        invariant
            i <= s@.len(),
            first_true(s@.subrange(0, i as int)) is None,
        decreases s.len() - i,
    {
        assert(s@.subrange(0, i + 1).drop_last() =~= s@.subrange(0, i as int));
        if s[i] {
            proof {
                lemma_first_true_prefix(s@, i as int + 1);
            }
            return Some(i);
        }
        i = i + 1;
    }
    assert(s@.subrange(0, i as int) =~= s@);
    None
}

/// Once a prefix has a first `true`, every longer sequence has the same one.
proof fn lemma_first_true_prefix(s: Seq<bool>, k: int)
    requires
        0 <= k <= s.len(),
        first_true(s.subrange(0, k)) is Some,
    ensures
        first_true(s) == first_true(s.subrange(0, k)),
    decreases s.len() - k,
{
    if k < s.len() {
        assert(s.subrange(0, k + 1).drop_last() =~= s.subrange(0, k));
        lemma_first_true_prefix(s, k + 1);
    } else {
        assert(s.subrange(0, k) =~= s);
    }
}

proof fn lemma_pending_absent(s: Seq<PendingRotation>, id: Seq<char>)
    requires
        forall|j: int| 0 <= j < s.len() ==> s[j].rotation_id@ != id,
    ensures
        !pending_map(s).contains_key(id),
    decreases s.len(),
{
    if s.len() > 0 {
        lemma_pending_absent(s.drop_last(), id);
    }
}

proof fn lemma_pending_index(s: Seq<PendingRotation>, i: int)
    requires
        0 <= i < s.len(),
    ensures
        pending_map(s).contains_key(s[i].rotation_id@),
    decreases s.len(),
{
    if i < s.len() - 1 {
        lemma_pending_index(s.drop_last(), i);
    }
}

proof fn lemma_pending_lookup(s: Seq<PendingRotation>, i: int)
    requires
        distinct_ids(s),
        0 <= i < s.len(),
    ensures
        pending_map(s).contains_key(s[i].rotation_id@),
        pending_map(s)[s[i].rotation_id@] == s[i].view(),
    decreases s.len(),
{
    if i < s.len() - 1 {
        lemma_pending_lookup(s.drop_last(), i);
    }
}

proof fn lemma_pending_update(s: Seq<PendingRotation>, i: int, e: PendingRotation)
    requires
        distinct_ids(s),
        0 <= i < s.len(),
        e.rotation_id@ == s[i].rotation_id@,
    ensures
        pending_map(s.update(i, e)) == pending_map(s).insert(e.rotation_id@, e.view()),
        distinct_ids(s.update(i, e)),
    decreases s.len(),
{
    let t = s.update(i, e);
    if i == s.len() - 1 {
        assert(t.drop_last() =~= s.drop_last());
        if pending_map(s.drop_last()).contains_key(e.rotation_id@) {
            lemma_pending_absent(s.drop_last(), e.rotation_id@);
        }
        assert(pending_map(t) =~= pending_map(s).insert(e.rotation_id@, e.view()));
    } else {
        assert(t.drop_last() =~= s.drop_last().update(i, e));
        lemma_pending_update(s.drop_last(), i, e);
        assert(pending_map(t) =~= pending_map(s).insert(e.rotation_id@, e.view()));
    }
    assert forall|a: int, b: int| 0 <= a < b < t.len() implies t[a].rotation_id@ != t[b].rotation_id@ by {
        assert(t[a].rotation_id@ == s[a].rotation_id@);
        assert(t[b].rotation_id@ == s[b].rotation_id@);
    }
}

proof fn lemma_pending_remove(s: Seq<PendingRotation>, i: int)
    requires
        distinct_ids(s),
        0 <= i < s.len(),
    ensures
        pending_map(s.remove(i)) == pending_map(s).remove(s[i].rotation_id@),
        distinct_ids(s.remove(i)),
    decreases s.len(),
{
    let t = s.remove(i);
    if i == s.len() - 1 {
        assert(t =~= s.drop_last());
        lemma_pending_absent(t, s[i].rotation_id@);
        assert(pending_map(t) =~= pending_map(s).remove(s[i].rotation_id@));
    } else {
        assert(t.drop_last() =~= s.drop_last().remove(i));
        lemma_pending_remove(s.drop_last(), i);
        assert(t.last() == s.last());
        assert(pending_map(t) =~= pending_map(s).remove(s[i].rotation_id@));
    }
    assert forall|a: int, b: int| 0 <= a < b < t.len() implies t[a].rotation_id@ != t[b].rotation_id@ by {
        let sa = if a < i {
            a
        } else {
            a + 1
        };
        let sb = if b < i {
            b
        } else {
            b + 1
        };
        assert(t[a] == s[sa]);
        assert(t[b] == s[sb]);
    }
}

/// An error that aborts applying a log entry.
#[derive(Debug, Clone, Copy, PartialEq, Eq, Structural)]
pub enum ApplyError {
    /// A mutation tried to write or delete the node's Raft bookkeeping.
    SystemData,
    /// A DEK could not be unwrapped, or a record could not be encrypted.
    Crypto,
}

/// What the state machine needs to know of storage and cryptography to
/// apply one mutation. Only the fields the mutation uses are read:
/// `stored_metadata` (the key's record metadata, for an expected revision
/// of a persistent write or removal), `metadata_present` (whether `meta`
/// holds anything under the key, for a persistent `CreateIfAbsent`),
/// `next_version` and `sealed` (the record's next write version and the
/// plaintext encrypted under the current DEK for it, `None` when
/// encryption failed, for persistent writes), `marker_keys` (the keys under
/// the partition's marker prefix, for `ClearQuarantine`), `now` (Unix
/// seconds), `dek_unwrapped` (whether the KEK unwrapped the mutation's DEK),
/// `current_dek_record` (what `_meta:dek:current` holds, for a normal
/// rotation) and `rotation_record` (the packed pending rotation, for
/// `CreatePendingRotation`).
pub struct MutationFacts {
    pub stored_metadata: Option<Metadata>,
    pub metadata_present: bool,
    pub next_version: u32,
    pub sealed: Option<Vec<u8>>,
    pub marker_keys: Vec<Vec<u8>>,
    pub now: u64,
    pub dek_unwrapped: bool,
    pub current_dek_record: Option<Vec<u8>>,
    pub rotation_record: Vec<u8>,
}

pub ghost struct FactsView {
    pub stored_metadata: Option<Metadata>,
    pub metadata_present: bool,
    pub next_version: u32,
    pub sealed: Option<Seq<u8>>,
    pub marker_keys: Seq<Seq<u8>>,
    pub now: u64,
    pub dek_unwrapped: bool,
    pub current_dek_record: Option<Seq<u8>>,
    pub rotation_record: Seq<u8>,
}

impl MutationFacts {
    pub open spec fn view(&self) -> FactsView {
        FactsView {
            stored_metadata: self.stored_metadata,
            metadata_present: self.metadata_present,
            next_version: self.next_version,
            sealed: match self.sealed {
                Some(c) => Some(c@),
                None => None,
            },
            marker_keys: self.marker_keys@.map_values(|k: Vec<u8>| k@),
            now: self.now,
            dek_unwrapped: self.dek_unwrapped,
            current_dek_record: match self.current_dek_record {
                Some(c) => Some(c@),
                None => None,
            },
            rotation_record: self.rotation_record@,
        }
    }
}

/// The Fjall writes, violations and pending DEK swap that one log entry's
/// mutations have accumulated.
pub struct Transaction {
    pub batch: Vec<BatchOp>,
    pub violations: Vec<Violation>,
    /// The rotation to swap in once the batch commits: `(version,
    /// is_emergency)`.
    pub dek_swap: Option<(u32, bool)>,
}

pub ghost struct TxnView {
    pub batch: Seq<BatchOpView>,
    pub violations: Seq<ViolationView>,
    pub dek_swap: Option<(u32, bool)>,
}

impl Transaction {
    pub open spec fn view(&self) -> TxnView {
        TxnView {
            batch: batch_view(self.batch@),
            violations: violations_view(self.violations@),
            dek_swap: self.dek_swap,
        }
    }

    /// An empty transaction.
    pub fn new() -> (r: Transaction)
        ensures
            r.view() == (TxnView { batch: Seq::empty(), violations: Seq::empty(), dek_swap: None }),
    {
        let r = Transaction { batch: Vec::new(), violations: Vec::new(), dek_swap: None };
        assert(batch_view(r.batch@) =~= Seq::<BatchOpView>::empty());
        assert(violations_view(r.violations@) =~= Seq::<ViolationView>::empty());
        r
    }

    /// Whether the entry's Fjall writes are to be committed: only when no
    /// mutation was refused.
    pub fn commits(&self) -> (r: bool)
        ensures
            r == (self.view().violations.len() == 0),
    {
        self.violations.len() == 0
    }
}

pub open spec fn push_violation(t: TxnView, v: ViolationView) -> TxnView {
    TxnView { violations: t.violations.push(v), ..t }
}

pub open spec fn push_op(t: TxnView, o: BatchOpView) -> TxnView {
    TxnView { batch: t.batch.push(o), ..t }
}

/// Writes that target the node's Raft bookkeeping: the membership record
/// in `meta`, or the last-applied record in any keyspace.
pub open spec fn is_system_write(keyspace: Seq<char>, key: Seq<u8>) -> bool {
    (encode_utf8(keyspace) == meta_name() && key == last_membership_key()) || key == last_applied_log_key()
}

/// A revision check fails when a revision is expected and the current one
/// differs (or there is none).
pub open spec fn revision_mismatch(expected: Option<u64>, current: Option<u64>) -> bool {
    expected matches Some(e) && current != Some(e)
}

pub open spec fn ephemeral_revision(
    e: Map<Seq<char>, Map<Seq<u8>, (Seq<u8>, Metadata)>>,
    ks: Seq<char>,
    key: Seq<u8>,
) -> Option<u64> {
    if e.contains_key(ks) && e[ks].contains_key(key) {
        Some(e[ks][key].1.revision)
    } else {
        None
    }
}

pub open spec fn ensure_ephemeral(
    e: Map<Seq<char>, Map<Seq<u8>, (Seq<u8>, Metadata)>>,
    ks: Seq<char>,
) -> Map<Seq<char>, Map<Seq<u8>, (Seq<u8>, Metadata)>> {
    if e.contains_key(ks) {
        e
    } else {
        e.insert(ks, Map::empty())
    }
}

pub open spec fn metadata_revision(m: Option<Metadata>) -> Option<u64> {
    match m {
        Some(x) => Some(x.revision),
        None => None,
    }
}

/// The encrypted write of a persistent record (after any revision or
/// existence check): refused while the keyspace's partition is quarantined
/// or once the record reaches the write threshold, otherwise the ciphertext
/// and the metadata (with the tier and the current DEK version) join the
/// batch.
pub open spec fn persistent_write(
    v: MachineView,
    t: TxnView,
    key: Seq<u8>,
    ks: Seq<char>,
    metadata: Metadata,
    tier: u8,
    f: FactsView,
) -> (TxnView, Result<(), ApplyError>) {
    if v.quarantine.quarantined.contains(encode_utf8(ks)) {
        (push_violation(t, ViolationView::Quarantined(key, encode_utf8(ks))), Ok(()))
    } else if f.next_version >= WRITE_RATE_THRESHOLD {
        (push_violation(t, ViolationView::WriteRateExceeded(key, f.next_version)), Ok(()))
    } else {
        match f.sealed {
            None => (t, Err(ApplyError::Crypto)),
            Some(ct) => (
                push_op(
                    push_op(t, BatchOpView::Insert(TargetView::Keyspace(ks), key, ct)),
                    BatchOpView::PutMetadata(
                        key,
                        Metadata { tier, dek_version: Some(v.deks.current), ..metadata },
                    ),
                ),
                Ok(()),
            ),
        }
    }
}

/// The pending rotations still open at `now`.
pub open spec fn live_pending(p: Map<Seq<char>, PendingView>, now: u64) -> Map<Seq<char>, PendingView> {
    p.restrict(Set::new(|id: Seq<char>| p.contains_key(id) && p[id].expires_at > now))
}

pub open spec fn with_pending(v: MachineView, p: Map<Seq<char>, PendingView>) -> MachineView {
    MachineView { pending: p, ..v }
}

pub open spec fn marker_removals(t: TxnView, keys: Seq<Seq<u8>>, prefix: Seq<u8>) -> TxnView
    decreases keys.len(),
{
    if keys.len() == 0 {
        t
    } else {
        let t1 = marker_removals(t, keys.drop_last(), prefix);
        if has_prefix(keys.last(), prefix) {
            push_op(t1, BatchOpView::Remove(TargetView::Meta, keys.last()))
        } else {
            t1
        }
    }
}

/// What applying mutation `m` does, given the facts `f`: the state
/// machine and the transaction afterwards, and whether the entry aborts.
pub open spec fn apply_step(v: MachineView, t: TxnView, m: MutationView, f: FactsView) -> (
    MachineView,
    TxnView,
    Result<(), ApplyError>,
) {
    match m {
        MutationView::Remove(key, ks, expected) => if is_system_write(ks, key) {
            (v, t, Err(ApplyError::SystemData))
        } else if v.ephemeral.contains_key(ks) {
            let cur = ephemeral_revision(v.ephemeral, ks, key);
            if revision_mismatch(expected, cur) {
                (v, push_violation(t, ViolationView::RevisionConflict(key, cur, expected->0)), Ok(()))
            } else {
                (
                    MachineView { ephemeral: v.ephemeral.insert(ks, v.ephemeral[ks].remove(key)), ..v },
                    t,
                    Ok(()),
                )
            }
        } else {
            let cur = metadata_revision(f.stored_metadata);
            let t1 = if revision_mismatch(expected, cur) {
                push_violation(t, ViolationView::RevisionConflict(key, cur, expected->0))
            } else {
                t
            };
            (
                v,
                push_op(
                    push_op(t1, BatchOpView::Remove(TargetView::Keyspace(ks), key)),
                    BatchOpView::Remove(TargetView::Meta, key),
                ),
                Ok(()),
            )
        },
        MutationView::RemoveIndex(key) => (v, push_op(t, BatchOpView::Remove(TargetView::Index, key)), Ok(())),
        MutationView::SetIndex(key) => (
            v,
            push_op(t, BatchOpView::Insert(TargetView::Index, key, Seq::empty())),
            Ok(()),
        ),
        MutationView::Put(key, ks, cipher, metadata, tier, expected) => if is_system_write(ks, key) {
            (v, t, Err(ApplyError::SystemData))
        } else if metadata.is_ephemeral {
            let e1 = ensure_ephemeral(v.ephemeral, ks);
            let cur = ephemeral_revision(e1, ks, key);
            if revision_mismatch(expected, cur) {
                (
                    MachineView { ephemeral: e1, ..v },
                    push_violation(t, ViolationView::RevisionConflict(key, cur, expected->0)),
                    Ok(()),
                )
            } else {
                (
                    MachineView { ephemeral: e1.insert(ks, e1[ks].insert(key, (cipher, metadata))), ..v },
                    t,
                    Ok(()),
                )
            }
        } else {
            let cur = metadata_revision(f.stored_metadata);
            let t1 = if revision_mismatch(expected, cur) {
                push_violation(t, ViolationView::RevisionConflict(key, cur, expected->0))
            } else {
                t
            };
            let (t2, r) = persistent_write(v, t1, key, ks, metadata, tier, f);
            (v, t2, r)
        },
        MutationView::CreateIfAbsent(key, ks, cipher, metadata, tier) => if metadata.is_ephemeral {
            let e1 = ensure_ephemeral(v.ephemeral, ks);
            if e1[ks].contains_key(key) {
                (MachineView { ephemeral: e1, ..v }, push_violation(t, ViolationView::AlreadyExists(key)), Ok(()))
            } else {
                (
                    MachineView { ephemeral: e1.insert(ks, e1[ks].insert(key, (cipher, metadata))), ..v },
                    t,
                    Ok(()),
                )
            }
        } else {
            let t1 = if f.metadata_present {
                push_violation(t, ViolationView::AlreadyExists(key))
            } else {
                t
            };
            let (t2, r) = persistent_write(v, t1, key, ks, metadata, tier, f);
            (v, t2, r)
        },
        MutationView::ClearQuarantine(partition) => (
            MachineView {
                quarantine: TrackerView {
                    failures: v.quarantine.failures.remove(encode_utf8(partition)),
                    quarantined: v.quarantine.quarantined.remove(encode_utf8(partition)),
                },
                ..v
            },
            marker_removals(t, f.marker_keys, quarantine_scan_prefix(encode_utf8(partition))),
            Ok(()),
        ),
        MutationView::Quarantine(reporter, partition) => (
            if reporter == v.node_id {
                MachineView {
                    quarantine: TrackerView {
                        quarantined: v.quarantine.quarantined.insert(encode_utf8(partition)),
                        ..v.quarantine
                    },
                    ..v
                }
            } else {
                v
            },
            push_op(
                t,
                BatchOpView::Insert(
                    TargetView::Meta,
                    quarantine_key(encode_utf8(partition), reporter),
                    be_bytes(f.now as nat, 8),
                ),
            ),
            Ok(()),
        ),
        MutationView::InstallDek(wrapped, version, is_emergency) => if !f.dek_unwrapped {
            (v, t, Err(ApplyError::Crypto))
        } else {
            let t1 = push_op(t, BatchOpView::Insert(TargetView::Meta, dek_current_key(), dek_record(version, wrapped)));
            let t2 = if is_emergency {
                push_op(
                    t1,
                    BatchOpView::Insert(
                        TargetView::Meta,
                        versioned_key(dek_revoked_prefix(), v.deks.current),
                        be_bytes(f.now as nat, 8),
                    ),
                )
            } else {
                match f.current_dek_record {
                    Some(cur) => if cur.len() > 4 {
                        push_op(
                            t1,
                            BatchOpView::Insert(
                                TargetView::Meta,
                                versioned_key(dek_retired_prefix(), v.deks.current),
                                cur.subrange(4, cur.len() as int),
                            ),
                        )
                    } else {
                        t1
                    },
                    None => t1,
                }
            };
            (v, TxnView { dek_swap: Some((version, is_emergency)), ..t2 }, Ok(()))
        },
        MutationView::CreatePendingRotation(id, wrapped, version, expires_at, initiator) => {
            let live = live_pending(v.pending, f.now);
            if !live.dom().is_empty() {
                (with_pending(v, live), push_violation(t, ViolationView::RotationAlreadyPending(id)), Ok(()))
            } else {
                (
                    with_pending(
                        v,
                        live.insert(
                            id,
                            PendingView { wrapped_dek: wrapped, dek_version: version, expires_at, initiator },
                        ),
                    ),
                    push_op(
                        t,
                        BatchOpView::Insert(
                            TargetView::Meta,
                            pending_rotation_prefix() + encode_utf8(id),
                            f.rotation_record,
                        ),
                    ),
                    Ok(()),
                )
            }
        },
        MutationView::ConfirmPendingRotation(id, confirmer) => if !v.pending.contains_key(id) {
            (v, push_violation(t, ViolationView::RotationNotFound(id)), Ok(()))
        } else {
            let e = v.pending[id];
            if e.expires_at <= f.now {
                (
                    with_pending(v, v.pending.remove(id)),
                    push_violation(t, ViolationView::RotationExpired(id, e.expires_at, f.now)),
                    Ok(()),
                )
            } else if e.initiator == confirmer {
                (v, push_violation(t, ViolationView::SameOperator(id)), Ok(()))
            } else if !f.dek_unwrapped {
                (with_pending(v, v.pending.remove(id)), t, Err(ApplyError::Crypto))
            } else {
                let t1 = push_op(
                    push_op(
                        push_op(t, BatchOpView::Remove(TargetView::Meta, pending_rotation_prefix() + encode_utf8(id))),
                        BatchOpView::Insert(TargetView::Meta, dek_current_key(), dek_record(e.dek_version, e.wrapped_dek)),
                    ),
                    BatchOpView::Insert(
                        TargetView::Meta,
                        versioned_key(dek_revoked_prefix(), v.deks.current),
                        be_bytes(f.now as nat, 8),
                    ),
                );
                (with_pending(v, v.pending.remove(id)), TxnView { dek_swap: Some((e.dek_version, true)), ..t1 }, Ok(()))
            }
        },
        MutationView::AbortPendingRotation(id) => if v.pending.contains_key(id) && v.pending[id].expires_at
            <= f.now {
            (
                with_pending(v, v.pending.remove(id)),
                push_op(t, BatchOpView::Remove(TargetView::Meta, pending_rotation_prefix() + encode_utf8(id))),
                Ok(()),
            )
        } else {
            (v, t, Ok(()))
        },
    }
}

impl Transaction {
    /// Records a refused mutation.
    pub fn push_violation(&mut self, v: Violation)
        ensures
            final(self).view() == push_violation(old(self).view(), v.view()),
    {
        let ghost before = self.violations@;
        self.violations.push(v);
        assert(violations_view(self.violations@) =~= violations_view(before).push(v.view()));
    }

    /// Adds a write to the batch.
    pub fn push_op(&mut self, o: BatchOp)
        ensures
            final(self).view() == push_op(old(self).view(), o.view()),
    {
        let ghost before = self.batch@;
        self.batch.push(o);
        assert(batch_view(self.batch@) =~= batch_view(before).push(o.view()));
    }
}

/// Whether a write of `key` in `keyspace` targets Raft bookkeeping.
fn check_system_write(keyspace: &str, key: &[u8]) -> (r: bool)
    ensures
        r == is_system_write(keyspace@, key@),
{
    let m = last_membership_key_bytes();
    let a = last_applied_log_key_bytes();
    (check_meta_keyspace(keyspace.as_bytes()) && bytes_eq(key, m.as_slice())) || bytes_eq(key, a.as_slice())
}

pub open spec fn live_seq(s: Seq<PendingRotation>, now: u64) -> Seq<PendingRotation>
    decreases s.len(),
{
    if s.len() == 0 {
        Seq::empty()
    } else if s.last().expires_at > now {
        live_seq(s.drop_last(), now).push(s.last())
    } else {
        live_seq(s.drop_last(), now)
    }
}

proof fn lemma_live_seq_map(s: Seq<PendingRotation>, now: u64)
    requires
        distinct_ids(s),
    ensures
        pending_map(live_seq(s, now)) == live_pending(pending_map(s), now),
    decreases s.len(),
{
    if s.len() == 0 {
        assert(live_pending(pending_map(s), now) =~= Map::<Seq<char>, PendingView>::empty());
    } else {
        let t = s.drop_last();
        let e = s.last();
        assert(distinct_ids(t));
        lemma_live_seq_map(t, now);
        assert forall|j: int| 0 <= j < t.len() implies t[j].rotation_id@ != e.rotation_id@ by {
            assert(s[j] == t[j]);
        }
        lemma_pending_absent(t, e.rotation_id@);
        assert(pending_map(s) == pending_map(t).insert(e.rotation_id@, e.view()));
        if e.expires_at > now {
            assert(live_seq(s, now) == live_seq(t, now).push(e));
            assert(live_seq(s, now).drop_last() =~= live_seq(t, now));
            assert(pending_map(live_seq(s, now)) == pending_map(live_seq(t, now)).insert(e.rotation_id@, e.view()));
        } else {
            assert(live_seq(s, now) == live_seq(t, now));
        }
        assert(live_pending(pending_map(s), now) =~= if e.expires_at > now {
            live_pending(pending_map(t), now).insert(e.rotation_id@, e.view())
        } else {
            live_pending(pending_map(t), now)
        });
    }
}

proof fn lemma_pending_map_empty(s: Seq<PendingRotation>)
    ensures
        pending_map(s).dom().is_empty() <==> s.len() == 0,
{
    if s.len() > 0 {
        assert(pending_map(s).contains_key(s.last().rotation_id@));
    } else {
        assert(pending_map(s).dom() =~= Set::<Seq<char>>::empty());
    }
}

impl FjallStateMachine {
    /// Drops every pending rotation whose window has closed at `now`.
    fn pending_retain_live(&mut self, now: u64)
        requires
            old(self).wf(),
        ensures
            final(self).wf(),
            final(self).view() == with_pending(old(self).view(), live_pending(old(self).view().pending, now)),
            final(self).retired_order() == old(self).retired_order(),
    {
        let ghost s = self.pending_rotations@;
        let mut kept: Vec<PendingRotation> = Vec::new();
        let mut i: usize = 0;
        while i < self.pending_rotations.len()
            invariant
                i <= s.len(),
                s == self.pending_rotations@,
                distinct_ids(s),
                pending_map(kept@) == pending_map(live_seq(s.subrange(0, i as int), now)),
                distinct_ids(kept@),
                forall|a: int|
                    0 <= a < kept@.len() ==> exists|j: int| 0 <= j < i && s[j].rotation_id@ == #[trigger] kept@[a].rotation_id@,
            decreases s.len() - i,
        {
            let ghost pre = s.subrange(0, i as int);
            assert(s.subrange(0, i + 1).drop_last() =~= pre);
            assert(s.subrange(0, i + 1).last() == s[i as int]);
            if self.pending_rotations[i].expires_at > now {
                let e = self.pending_rotations[i].duplicate();
                let ghost kb = kept@;
                let ghost ev = e.view();
                let ghost eid = e.rotation_id@;
                kept.push(e);
                proof {
                    assert(kept@.drop_last() =~= kb);
                    assert(live_seq(s.subrange(0, i + 1), now) == live_seq(pre, now).push(s[i as int]));
                    assert(pending_map(kept@) == pending_map(kb).insert(eid, ev));
                    assert(live_seq(pre, now).push(s[i as int]).drop_last() =~= live_seq(pre, now));
                    assert(pending_map(live_seq(s.subrange(0, i + 1), now)) == pending_map(live_seq(pre, now)).insert(
                        s[i as int].rotation_id@,
                        s[i as int].view(),
                    ));
                    assert forall|a: int, b: int| 0 <= a < b < kept@.len() implies kept@[a].rotation_id@
                        != kept@[b].rotation_id@ by {
                        assert(kept@[a] == kb[a]);
                        if b < kb.len() {
                            assert(kept@[b] == kb[b]);
                        } else {
                            let j = choose|j: int| 0 <= j < i && s[j].rotation_id@ == kb[a].rotation_id@;
                        }
                    }
                    assert forall|a: int| 0 <= a < kept@.len() implies exists|j: int|
                        0 <= j < i + 1 && s[j].rotation_id@ == #[trigger] kept@[a].rotation_id@ by {
                        if a < kb.len() {
                            assert(kept@[a] == kb[a]);
                            let j = choose|j: int| 0 <= j < i && s[j].rotation_id@ == kb[a].rotation_id@;
                        } else {
                            assert(s[i as int].rotation_id@ == kept@[a].rotation_id@);
                        }
                    }
                }
            }
            else {
                assert(live_seq(s.subrange(0, i + 1), now) == live_seq(pre, now));
            }
            i = i + 1;
        }
        assert(s.subrange(0, i as int) =~= s);
        proof {
            lemma_live_seq_map(s, now);
        }
        self.pending_rotations = kept;
    }

    /// The encrypted write of a persistent record (see `persistent_write`).
    fn persistent_write(
        &self,
        txn: &mut Transaction,
        key: &[u8],
        keyspace: &str,
        metadata: Metadata,
        tier: u8,
        f: &MutationFacts,
    ) -> (r: Result<(), ApplyError>)
        requires
            self.wf(),
        ensures
            (final(txn).view(), r) == persistent_write(self.view(), old(txn).view(), key@, keyspace@, metadata, tier, f.view()),
    {
        if self.quarantine.is_quarantined(keyspace) {
            txn.push_violation(
                Violation::Quarantined { key: copy_bytes(key), partition: copy_bytes(keyspace.as_bytes()) },
            );
            return Ok(());
        }
        match check_write_rate(f.next_version) {
            WriteRate::Exceeded => {
                txn.push_violation(
                    Violation::WriteRateExceeded { key: copy_bytes(key), version: f.next_version },
                );
                return Ok(());
            },
            _ => {},
        }
        match &f.sealed {
            None => Err(ApplyError::Crypto),
            Some(ct) => {
                txn.push_op(
                    BatchOp::Insert {
                        target: Target::Keyspace(keyspace.to_owned()),
                        key: copy_bytes(key),
                        value: copy_bytes(ct.as_slice()),
                    },
                );
                let md = Metadata { tier, dek_version: Some(self.deks.current()), ..metadata };
                txn.push_op(BatchOp::PutMetadata { key: copy_bytes(key), metadata: md });
                Ok(())
            },
        }
    }

    fn ephemeral_revision_of(&self, keyspace: &str, key: &[u8]) -> (r: Option<u64>)
        ensures
            r == ephemeral_revision(self.view().ephemeral, keyspace@, key@),
    {
        match self.ephemeral.ephemeral_get(keyspace, key) {
            Some(v) => Some(v.1.revision),
            None => None,
        }
    }

    fn apply_remove(
        &mut self,
        key: Vec<u8>,
        keyspace: String,
        expected: Option<u64>,
        f: &MutationFacts,
        txn: &mut Transaction,
    ) -> (r: Result<(), ApplyError>)
        requires
            old(self).wf(),
        ensures
            final(self).wf(),
            final(self).retired_order() == old(self).retired_order(),
            (final(self).view(), final(txn).view(), r) == apply_step(
                old(self).view(),
                old(txn).view(),
                MutationView::Remove(key@, keyspace@, expected),
                f.view(),
            ),
    {
        if check_system_write(keyspace.as_str(), key.as_slice()) {
            return Err(ApplyError::SystemData);
        }
        if self.ephemeral.is_ephemeral_keyspace(keyspace.as_str()) {
            let cur = self.ephemeral_revision_of(keyspace.as_str(), key.as_slice());
            match expected {
                Some(e) => {
                    if cur != Some(e) {
                        txn.push_violation(Violation::RevisionConflict { key, current: cur, expected: e });
                        return Ok(());
                    }
                },
                None => {},
            }
            self.ephemeral.remove_key(keyspace.as_str(), key.as_slice());
            return Ok(());
        }
        let cur = match f.stored_metadata {
            Some(m) => Some(m.revision),
            None => None,
        };
        match expected {
            Some(e) => {
                if cur != Some(e) {
                    txn.push_violation(
                        Violation::RevisionConflict { key: copy_bytes(key.as_slice()), current: cur, expected: e },
                    );
                }
            },
            None => {},
        }
        txn.push_op(BatchOp::Remove { target: Target::Keyspace(keyspace), key: copy_bytes(key.as_slice()) });
        txn.push_op(BatchOp::Remove { target: Target::Meta, key });
        Ok(())
    }

    fn apply_put(
        &mut self,
        key: Vec<u8>,
        keyspace: String,
        cipher: Vec<u8>,
        metadata: Metadata,
        tier: u8,
        expected: Option<u64>,
        f: &MutationFacts,
        txn: &mut Transaction,
    ) -> (r: Result<(), ApplyError>)
        requires
            old(self).wf(),
        ensures
            final(self).wf(),
            final(self).retired_order() == old(self).retired_order(),
            (final(self).view(), final(txn).view(), r) == apply_step(
                old(self).view(),
                old(txn).view(),
                MutationView::Put(key@, keyspace@, cipher@, metadata, tier, expected),
                f.view(),
            ),
    {
        if check_system_write(keyspace.as_str(), key.as_slice()) {
            return Err(ApplyError::SystemData);
        }
        if metadata.is_ephemeral {
            self.ephemeral.ensure_keyspace(keyspace.clone());
            let cur = self.ephemeral_revision_of(keyspace.as_str(), key.as_slice());
            match expected {
                Some(e) => {
                    if cur != Some(e) {
                        txn.push_violation(Violation::RevisionConflict { key, current: cur, expected: e });
                        return Ok(());
                    }
                },
                None => {},
            }
            self.ephemeral.insert(keyspace, key, (cipher, metadata));
            return Ok(());
        }
        let cur = match f.stored_metadata {
            Some(m) => Some(m.revision),
            None => None,
        };
        match expected {
            Some(e) => {
                if cur != Some(e) {
                    txn.push_violation(
                        Violation::RevisionConflict { key: copy_bytes(key.as_slice()), current: cur, expected: e },
                    );
                }
            },
            None => {},
        }
        self.persistent_write(txn, key.as_slice(), keyspace.as_str(), metadata, tier, f)
    }

    fn apply_create_if_absent(
        &mut self,
        key: Vec<u8>,
        keyspace: String,
        cipher: Vec<u8>,
        metadata: Metadata,
        tier: u8,
        f: &MutationFacts,
        txn: &mut Transaction,
    ) -> (r: Result<(), ApplyError>)
        requires
            old(self).wf(),
        ensures
            final(self).wf(),
            final(self).retired_order() == old(self).retired_order(),
            (final(self).view(), final(txn).view(), r) == apply_step(
                old(self).view(),
                old(txn).view(),
                MutationView::CreateIfAbsent(key@, keyspace@, cipher@, metadata, tier),
                f.view(),
            ),
    {
        if metadata.is_ephemeral {
            self.ephemeral.ensure_keyspace(keyspace.clone());
            let present = self.ephemeral.ephemeral_get(keyspace.as_str(), key.as_slice()).is_some();
            if present {
                txn.push_violation(Violation::AlreadyExists { key });
                return Ok(());
            }
            self.ephemeral.insert(keyspace, key, (cipher, metadata));
            return Ok(());
        }
        if f.metadata_present {
            txn.push_violation(Violation::AlreadyExists { key: copy_bytes(key.as_slice()) });
        }
        self.persistent_write(txn, key.as_slice(), keyspace.as_str(), metadata, tier, f)
    }

    fn apply_clear_quarantine(&mut self, partition: String, f: &MutationFacts, txn: &mut Transaction) -> (r: Result<
        (),
        ApplyError,
    >)
        requires
            old(self).wf(),
        ensures
            final(self).wf(),
            final(self).retired_order() == old(self).retired_order(),
            (final(self).view(), final(txn).view(), r) == apply_step(
                old(self).view(),
                old(txn).view(),
                MutationView::ClearQuarantine(partition@),
                f.view(),
            ),
    {
        self.quarantine.clear(partition.as_str());
        let prefix = quarantine_scan_prefix_bytes(partition.as_str().as_bytes());
        let ghost t0 = txn.view();
        let ghost keys = f.view().marker_keys;
        let mut i: usize = 0;
        while i < f.marker_keys.len()
            invariant
                i <= f.marker_keys@.len(),
                keys == f.view().marker_keys,
                keys.len() == f.marker_keys@.len(),
                prefix@ == quarantine_scan_prefix(encode_utf8(partition@)),
                txn.view() == marker_removals(t0, keys.subrange(0, i as int), prefix@),
            decreases f.marker_keys.len() - i,
        {
            let k = &f.marker_keys[i];
            assert(keys[i as int] == k@);
            assert(keys.subrange(0, i + 1).drop_last() =~= keys.subrange(0, i as int));
            if starts_with(k.as_slice(), prefix.as_slice()) {
                txn.push_op(BatchOp::Remove { target: Target::Meta, key: copy_bytes(k.as_slice()) });
            }
            i = i + 1;
        }
        assert(keys.subrange(0, i as int) =~= keys);
        Ok(())
    }

    fn apply_quarantine(&mut self, reporter: u64, partition: String, f: &MutationFacts, txn: &mut Transaction) -> (r:
        Result<(), ApplyError>)
        requires
            old(self).wf(),
        ensures
            final(self).wf(),
            final(self).retired_order() == old(self).retired_order(),
            (final(self).view(), final(txn).view(), r) == apply_step(
                old(self).view(),
                old(txn).view(),
                MutationView::Quarantine(reporter, partition@),
                f.view(),
            ),
    {
        let key = quarantine_meta_key_bytes(partition.as_str().as_bytes(), reporter);
        txn.push_op(BatchOp::Insert { target: Target::Meta, key, value: be_u64(f.now) });
        if reporter == self.node_id {
            self.quarantine.force_quarantine(partition.as_str());
        }
        Ok(())
    }

    fn apply_install_dek(
        &mut self,
        wrapped: Vec<u8>,
        version: u32,
        is_emergency: bool,
        f: &MutationFacts,
        txn: &mut Transaction,
    ) -> (r: Result<(), ApplyError>)
        requires
            old(self).wf(),
        ensures
            final(self).wf(),
            final(self).retired_order() == old(self).retired_order(),
            (final(self).view(), final(txn).view(), r) == apply_step(
                old(self).view(),
                old(txn).view(),
                MutationView::InstallDek(wrapped@, version, is_emergency),
                f.view(),
            ),
    {
        if !f.dek_unwrapped {
            return Err(ApplyError::Crypto);
        }
        let record = encode_dek_record(version, wrapped.as_slice());
        txn.push_op(BatchOp::Insert { target: Target::Meta, key: dek_current_key_bytes(), value: record });
        let old_version = self.deks.current();
        if is_emergency {
            txn.push_op(
                BatchOp::Insert { target: Target::Meta, key: revoked_dek_key(old_version), value: be_u64(f.now) },
            );
        } else {
            match &f.current_dek_record {
                Some(cur) => {
                    if cur.len() > 4 {
                        txn.push_op(
                            BatchOp::Insert {
                                target: Target::Meta,
                                key: retired_dek_key(old_version),
                                value: slice_copy(cur.as_slice(), 4, cur.len()),
                            },
                        );
                    }
                },
                None => {},
            }
        }
        txn.dek_swap = Some((version, is_emergency));
        Ok(())
    }

    fn apply_create_pending_rotation(
        &mut self,
        rotation_id: String,
        wrapped: Vec<u8>,
        version: u32,
        expires_at: u64,
        initiator: String,
        f: &MutationFacts,
        txn: &mut Transaction,
    ) -> (r: Result<(), ApplyError>)
        requires
            old(self).wf(),
        ensures
            final(self).wf(),
            final(self).retired_order() == old(self).retired_order(),
            (final(self).view(), final(txn).view(), r) == apply_step(
                old(self).view(),
                old(txn).view(),
                MutationView::CreatePendingRotation(rotation_id@, wrapped@, version, expires_at, initiator@),
                f.view(),
            ),
    {
        self.pending_retain_live(f.now);
        proof {
            lemma_pending_map_empty(self.pending_rotations@);
        }
        if self.pending_rotations.len() > 0 {
            txn.push_violation(Violation::RotationAlreadyPending { rotation_id });
            return Ok(());
        }
        let key = pending_rotation_key(rotation_id.as_str().as_bytes());
        let entry = PendingRotation { rotation_id, wrapped_dek: wrapped, dek_version: version, expires_at, initiator };
        self.pending_put(entry);
        txn.push_op(BatchOp::Insert { target: Target::Meta, key, value: copy_bytes(f.rotation_record.as_slice()) });
        Ok(())
    }

    fn apply_confirm_pending_rotation(
        &mut self,
        rotation_id: String,
        confirmer: String,
        f: &MutationFacts,
        txn: &mut Transaction,
    ) -> (r: Result<(), ApplyError>)
        requires
            old(self).wf(),
        ensures
            final(self).wf(),
            final(self).retired_order() == old(self).retired_order(),
            (final(self).view(), final(txn).view(), r) == apply_step(
                old(self).view(),
                old(txn).view(),
                MutationView::ConfirmPendingRotation(rotation_id@, confirmer@),
                f.view(),
            ),
    {
        match self.find_pending(&rotation_id) {
            None => {
                txn.push_violation(Violation::RotationNotFound { rotation_id });
                Ok(())
            },
            Some(i) => {
                proof {
                    lemma_pending_lookup(self.pending_rotations@, i as int);
                }
                let e = self.pending_rotations[i].duplicate();
                if e.expires_at <= f.now {
                    self.pending_remove(&rotation_id);
                    txn.push_violation(
                        Violation::RotationExpired { rotation_id, expires_at: e.expires_at, now: f.now },
                    );
                    return Ok(());
                }
                if e.initiator == confirmer {
                    txn.push_violation(Violation::SameOperator { rotation_id });
                    return Ok(());
                }
                self.pending_remove(&rotation_id);
                if !f.dek_unwrapped {
                    return Err(ApplyError::Crypto);
                }
                txn.push_op(
                    BatchOp::Remove { target: Target::Meta, key: pending_rotation_key(rotation_id.as_str().as_bytes()) },
                );
                let record = encode_dek_record(e.dek_version, e.wrapped_dek.as_slice());
                txn.push_op(BatchOp::Insert { target: Target::Meta, key: dek_current_key_bytes(), value: record });
                // The confirmed rotation is an emergency one: the epoch it
                // replaces is recorded as revoked (version and time only).
                let old_version = self.deks.current();
                txn.push_op(
                    BatchOp::Insert { target: Target::Meta, key: revoked_dek_key(old_version), value: be_u64(f.now) },
                );
                txn.dek_swap = Some((e.dek_version, true));
                Ok(())
            },
        }
    }

    fn apply_abort_pending_rotation(&mut self, rotation_id: String, f: &MutationFacts, txn: &mut Transaction) -> (r:
        Result<(), ApplyError>)
        requires
            old(self).wf(),
        ensures
            final(self).wf(),
            final(self).retired_order() == old(self).retired_order(),
            (final(self).view(), final(txn).view(), r) == apply_step(
                old(self).view(),
                old(txn).view(),
                MutationView::AbortPendingRotation(rotation_id@),
                f.view(),
            ),
    {
        match self.find_pending(&rotation_id) {
            Some(i) => {
                proof {
                    lemma_pending_lookup(self.pending_rotations@, i as int);
                }
                if self.pending_rotations[i].expires_at <= f.now {
                    self.pending_remove(&rotation_id);
                    txn.push_op(
                        BatchOp::Remove { target: Target::Meta, key: pending_rotation_key(rotation_id.as_str().as_bytes()) },
                    );
                }
                Ok(())
            },
            None => Ok(()),
        }
    }

    /// Applies one mutation of a committed log entry to the state machine
    /// and to the entry's transaction, given the facts `f` that the
    /// mutation reads (see `MutationFacts` and `apply_step`).
    ///
    /// Ephemeral writes and removals, the quarantine tracker and the pending
    /// rotations change at once; Fjall writes only join the transaction's
    /// batch, which commits when no mutation of the entry was refused. An
    /// `Err` aborts the whole entry.
    pub fn apply_mutation(&mut self, m: Mutation, f: &MutationFacts, txn: &mut Transaction) -> (r: Result<
        (),
        ApplyError,
    >)
        requires
            old(self).wf(),
        ensures
            final(self).wf(),
            final(self).retired_order() == old(self).retired_order(),
            (final(self).view(), final(txn).view(), r) == apply_step(
                old(self).view(),
                old(txn).view(),
                m.view(),
                f.view(),
            ),
    {
        match m {
            Mutation::Remove { key, keyspace, expected_revision } => self.apply_remove(
                key,
                keyspace,
                expected_revision,
                f,
                txn,
            ),
            Mutation::RemoveIndex { key } => {
                txn.push_op(BatchOp::Remove { target: Target::Index, key });
                Ok(())
            },
            Mutation::Put { key, keyspace, cipher, metadata, tier, expected_revision } => self.apply_put(
                key,
                keyspace,
                cipher,
                metadata,
                tier,
                expected_revision,
                f,
                txn,
            ),
            Mutation::CreateIfAbsent { key, keyspace, cipher, metadata, tier } => self.apply_create_if_absent(
                key,
                keyspace,
                cipher,
                metadata,
                tier,
                f,
                txn,
            ),
            Mutation::SetIndex { key } => {
                let empty: Vec<u8> = Vec::new();
                assert(empty@ =~= Seq::<u8>::empty());
                txn.push_op(BatchOp::Insert { target: Target::Index, key, value: empty });
                Ok(())
            },
            Mutation::ClearQuarantine { partition } => self.apply_clear_quarantine(partition, f, txn),
            Mutation::Quarantine { node_id, partition } => self.apply_quarantine(node_id, partition, f, txn),
            Mutation::InstallDek { wrapped_dek, dek_version, is_emergency } => self.apply_install_dek(
                wrapped_dek,
                dek_version,
                is_emergency,
                f,
                txn,
            ),
            Mutation::CreatePendingRotation { rotation_id, wrapped_dek, dek_version, expires_at, initiator } =>
                self.apply_create_pending_rotation(
                rotation_id,
                wrapped_dek,
                dek_version,
                expires_at,
                initiator,
                f,
                txn,
            ),
            Mutation::ConfirmPendingRotation { rotation_id, confirmer } => self.apply_confirm_pending_rotation(
                rotation_id,
                confirmer,
                f,
                txn,
            ),
            Mutation::AbortPendingRotation { rotation_id } => self.apply_abort_pending_rotation(rotation_id, f, txn),
        }
    }
}

/// Ephemeral records never reach Fjall: an ephemeral write, create or
/// removal adds nothing to the batch.
pub proof fn law_ephemeral_writes_never_touch_fjall(v: MachineView, t: TxnView, m: MutationView, f: FactsView)
    requires
        match m {
            MutationView::Put(key, ks, _, md, _, _) => md.is_ephemeral,
            MutationView::CreateIfAbsent(_, _, _, md, _) => md.is_ephemeral,
            MutationView::Remove(_, ks, _) => v.ephemeral.contains_key(ks),
            _ => false,
        },
    ensures
        apply_step(v, t, m, f).1.batch == t.batch,
        apply_step(v, t, m, f).1.dek_swap == t.dek_swap,
{
}

/// An ephemeral write that passes its checks can be read back: the
/// registry then holds the value and metadata under the key.
pub proof fn law_ephemeral_put_reads_back(
    v: MachineView,
    t: TxnView,
    key: Seq<u8>,
    ks: Seq<char>,
    cipher: Seq<u8>,
    md: Metadata,
    tier: u8,
    f: FactsView,
)
    requires
        md.is_ephemeral,
        !is_system_write(ks, key),
    ensures
        ({
            let (v2, t2, r) = apply_step(v, t, MutationView::Put(key, ks, cipher, md, tier, None), f);
            &&& r is Ok
            &&& v2.ephemeral.contains_key(ks)
            &&& v2.ephemeral[ks].contains_key(key)
            &&& v2.ephemeral[ks][key] == (cipher, md)
            &&& t2 == t
        }),
{
}

/// Optimistic concurrency: a write or removal that expects a revision the
/// record does not have is refused with a conflict, so its entry commits
/// nothing.
pub proof fn law_revision_mismatch_is_refused(
    v: MachineView,
    t: TxnView,
    m: MutationView,
    f: FactsView,
)
    requires
        match m {
            MutationView::Put(key, ks, _, md, _, expected) => !is_system_write(ks, key) && !md.is_ephemeral
                && revision_mismatch(expected, metadata_revision(f.stored_metadata)),
            MutationView::Remove(key, ks, expected) => !is_system_write(ks, key) && !v.ephemeral.contains_key(
                ks,
            ) && revision_mismatch(expected, metadata_revision(f.stored_metadata)),
            _ => false,
        },
    ensures
        apply_step(v, t, m, f).2 is Ok ==> apply_step(v, t, m, f).1.violations.len() > t.violations.len(),
        apply_step(v, t, m, f).1.violations.len() > 0 || apply_step(v, t, m, f).2 is Err,
{
    match m {
        MutationView::Put(key, ks, c, md, tier, expected) => {
            let cur = metadata_revision(f.stored_metadata);
            let t1 = push_violation(t, ViolationView::RevisionConflict(key, cur, expected->0));
            let (t2, r) = persistent_write(v, t1, key, ks, md, tier, f);
            assert(t2.violations.len() >= t1.violations.len());
        },
        _ => {},
    }
}

/// The node's Raft bookkeeping (the last-applied record, and the
/// membership record in `meta`) can never be written or deleted by a
/// mutation: the entry aborts and nothing changes.
pub proof fn law_system_records_protected(v: MachineView, t: TxnView, m: MutationView, f: FactsView)
    requires
        match m {
            MutationView::Put(key, ks, _, _, _, _) => is_system_write(ks, key),
            MutationView::Remove(key, ks, _) => is_system_write(ks, key),
            _ => false,
        },
    ensures
        apply_step(v, t, m, f) == (v, t, Err::<(), ApplyError>(ApplyError::SystemData)),
{
}

/// A persistent write to a quarantined partition is refused: nothing joins
/// the batch and the entry carries a violation.
pub proof fn law_quarantined_partition_refuses_writes(
    v: MachineView,
    t: TxnView,
    key: Seq<u8>,
    ks: Seq<char>,
    cipher: Seq<u8>,
    md: Metadata,
    tier: u8,
    expected: Option<u64>,
    f: FactsView,
)
    requires
        !md.is_ephemeral,
        !is_system_write(ks, key),
        v.quarantine.quarantined.contains(encode_utf8(ks)),
    ensures
        ({
            let (v2, t2, r) = apply_step(v, t, MutationView::Put(key, ks, cipher, md, tier, expected), f);
            &&& r is Ok
            &&& v2 == v
            &&& t2.batch == t.batch
            &&& t2.violations.len() > 0
            &&& t2.violations.last() == ViolationView::Quarantined(key, encode_utf8(ks))
        }),
{
}

proof fn lemma_marker_removals_extend(t: TxnView, keys: Seq<Seq<u8>>, prefix: Seq<u8>)
    ensures
        marker_removals(t, keys, prefix).violations == t.violations,
        marker_removals(t, keys, prefix).dek_swap == t.dek_swap,
        marker_removals(t, keys, prefix).batch.len() >= t.batch.len(),
        marker_removals(t, keys, prefix).batch.subrange(0, t.batch.len() as int) == t.batch,
    decreases keys.len(),
{
    if keys.len() > 0 {
        lemma_marker_removals_extend(t, keys.drop_last(), prefix);
        let t1 = marker_removals(t, keys.drop_last(), prefix);
        assert(t1.batch.push(BatchOpView::Remove(TargetView::Meta, keys.last())).subrange(0, t.batch.len() as int)
            =~= t1.batch.subrange(0, t.batch.len() as int));
    }
}

/// Within one log entry, what earlier mutations recorded is never undone:
/// applying a mutation only appends to the entry's refusals and to its
/// batch, so one refused mutation keeps the whole entry from committing.
pub proof fn law_refusals_and_writes_only_accumulate(v: MachineView, t: TxnView, m: MutationView, f: FactsView)
    ensures
        ({
            let t2 = apply_step(v, t, m, f).1;
            &&& t2.violations.len() >= t.violations.len()
            &&& t2.violations.subrange(0, t.violations.len() as int) == t.violations
            &&& t2.batch.len() >= t.batch.len()
            &&& t2.batch.subrange(0, t.batch.len() as int) == t.batch
        }),
{
    let t2 = apply_step(v, t, m, f).1;
    match m {
        MutationView::ClearQuarantine(partition) => {
            lemma_marker_removals_extend(t, f.marker_keys, quarantine_scan_prefix(encode_utf8(partition)));
        },
        _ => {},
    }
    assert(t2.violations.subrange(0, t.violations.len() as int) =~= t.violations);
    assert(t2.batch.subrange(0, t.batch.len() as int) =~= t.batch);
}

/// Dual control: the operator who staged an emergency rotation cannot
/// confirm it (the entry stays pending and no DEK is swapped); another
/// operator confirming within the window swaps in the staged DEK as an
/// emergency rotation and records the replaced epoch as revoked.
pub proof fn law_dual_control(v: MachineView, t: TxnView, id: Seq<char>, confirmer: Seq<char>, f: FactsView)
    requires
        v.pending.contains_key(id),
        v.pending[id].expires_at > f.now,
    ensures
        confirmer == v.pending[id].initiator ==> ({
            let (v2, t2, r) = apply_step(v, t, MutationView::ConfirmPendingRotation(id, confirmer), f);
            &&& r is Ok
            &&& v2 == v
            &&& t2.dek_swap == t.dek_swap
            &&& t2.violations == t.violations.push(ViolationView::SameOperator(id))
        }),
        confirmer != v.pending[id].initiator && f.dek_unwrapped ==> ({
            let (v2, t2, r) = apply_step(v, t, MutationView::ConfirmPendingRotation(id, confirmer), f);
            &&& r is Ok
            &&& !v2.pending.contains_key(id)
            &&& t2.dek_swap == Some((v.pending[id].dek_version, true))
            &&& t2.violations == t.violations
            &&& t2.batch.len() == t.batch.len() + 3
            &&& t2.batch.last() == BatchOpView::Insert(
                TargetView::Meta,
                versioned_key(dek_revoked_prefix(), v.deks.current),
                be_bytes(f.now as nat, 8),
            )
        }),
{
}

/// At most one emergency rotation is pending at a time: no mutation takes
/// the pending set above one entry.
pub proof fn law_at_most_one_pending_rotation(v: MachineView, t: TxnView, m: MutationView, f: FactsView)
    requires
        v.pending.dom().finite(),
        v.pending.dom().len() <= 1,
    ensures
        apply_step(v, t, m, f).0.pending.dom().finite(),
        apply_step(v, t, m, f).0.pending.dom().len() <= 1,
{
    let v2 = apply_step(v, t, m, f).0;
    match m {
        MutationView::CreatePendingRotation(id, w, ver, exp, ini) => {
            let live = live_pending(v.pending, f.now);
            assert(live.dom().subset_of(v.pending.dom()));
            vstd::set_lib::lemma_len_subset(live.dom(), v.pending.dom());
            if live.dom().is_empty() {
                assert(live.dom() =~= Set::<Seq<char>>::empty());
                let ins = live.insert(id, PendingView { wrapped_dek: w, dek_version: ver, expires_at: exp, initiator: ini });
                assert(ins.dom() =~= set![id]);
            }
        },
        MutationView::ConfirmPendingRotation(id, _) => {
            if v.pending.contains_key(id) {
                assert(v.pending.remove(id).dom() =~= v.pending.dom().remove(id));
            }
        },
        MutationView::AbortPendingRotation(id) => {
            if v.pending.contains_key(id) {
                assert(v.pending.remove(id).dom() =~= v.pending.dom().remove(id));
            }
        },
        _ => {},
    }
}

/// A quarantine committed through Raft blocks reads on the node that
/// reported it and only there; on every node the reporter's marker is
/// written, stamped with the time it was applied (Unix seconds).
pub proof fn law_committed_quarantine_blocks_reporter_only(
    v: MachineView,
    t: TxnView,
    reporter: u64,
    partition: Seq<char>,
    f: FactsView,
)
    ensures
        ({
            let (v2, t2, r) = apply_step(v, t, MutationView::Quarantine(reporter, partition), f);
            &&& r is Ok
            &&& reporter == v.node_id ==> v2.quarantine.quarantined.contains(encode_utf8(partition))
            &&& reporter != v.node_id ==> v2 == v
            &&& t2.batch == t.batch.push(
                BatchOpView::Insert(TargetView::Meta, quarantine_key(encode_utf8(partition), reporter), be_bytes(f.now as nat, 8)),
            )
            &&& t2.violations == t.violations
        }),
{
}

/// Clearing a quarantine lifts it on every node and removes every
/// reporting node's marker listed under the partition's prefix.
pub proof fn law_clear_quarantine_lifts_it(v: MachineView, t: TxnView, partition: Seq<char>, f: FactsView)
    ensures
        ({
            let (v2, t2, r) = apply_step(v, t, MutationView::ClearQuarantine(partition), f);
            &&& r is Ok
            &&& !v2.quarantine.quarantined.contains(encode_utf8(partition))
            &&& !v2.quarantine.failures.contains_key(encode_utf8(partition))
        }),
{
}

} // verus!
