//! Values that flow between the state machine and its storage: record
//! metadata, replicated mutations, batch writes, violations and errors.
use crate::quarantine::MetaWrite;
use vstd::prelude::*;

verus! {

/// Per-record metadata kept beside each record (in `meta`, or inside the
/// ephemeral registry for ephemeral records).
#[derive(Debug, Clone, Copy, PartialEq, Eq, Structural)]
pub struct Metadata {
    /// Optimistic-concurrency revision of the record.
    pub revision: u64,
    /// Whether the record lives only in memory, never in Fjall.
    pub is_ephemeral: bool,
    /// Data tier the record was encrypted for.
    pub tier: u8,
    /// DEK epoch the record's ciphertext is under; `None` for records
    /// written before epochs were tracked per record.
    pub dek_version: Option<u32>,
}

impl Metadata {
    /// Metadata of a fresh persistent record.
    pub fn new() -> (r: Metadata)
        ensures
            r == (Metadata { revision: 0, is_ephemeral: false, tier: 0, dek_version: None }),
    {
        Metadata { revision: 0, is_ephemeral: false, tier: 0, dek_version: None }
    }

    /// Metadata of a fresh ephemeral record.
    pub fn ephemeral() -> (r: Metadata)
        ensures
            r == (Metadata { revision: 0, is_ephemeral: true, tier: 0, dek_version: None }),
    {
        Metadata { revision: 0, is_ephemeral: true, tier: 0, dek_version: None }
    }

    /// Metadata of a fresh persistent record of `tier`.
    pub fn with_tier(tier: u8) -> (r: Metadata)
        ensures
            r == (Metadata { revision: 0, is_ephemeral: false, tier, dek_version: None }),
    {
        Metadata { revision: 0, is_ephemeral: false, tier, dek_version: None }
    }
}

/// Which keyspace a batch write goes to.
#[derive(Debug, Clone, PartialEq, Eq)]
pub enum Target {
    /// The `meta` keyspace.
    Meta,
    /// The `index` keyspace.
    Index,
    /// The keyspace with this name (the core `data` keyspace included).
    Keyspace(String),
}

pub ghost enum TargetView {
    Meta,
    Index,
    Keyspace(Seq<char>),
}

impl Target {
    pub open spec fn view(&self) -> TargetView {
        match self {
            Target::Meta => TargetView::Meta,
            Target::Index => TargetView::Index,
            Target::Keyspace(n) => TargetView::Keyspace(n@),
        }
    }
}

/// One write of an atomic batch.
#[derive(Debug, Clone, PartialEq, Eq)]
pub enum BatchOp {
    Insert { target: Target, key: Vec<u8>, value: Vec<u8> },
    /// Store `metadata` (in its packed form) under `key` in `meta`.
    PutMetadata { key: Vec<u8>, metadata: Metadata },
    Remove { target: Target, key: Vec<u8> },
}

pub ghost enum BatchOpView {
    Insert(TargetView, Seq<u8>, Seq<u8>),
    PutMetadata(Seq<u8>, Metadata),
    Remove(TargetView, Seq<u8>),
}

impl BatchOp {
    pub open spec fn view(&self) -> BatchOpView {
        match self {
            BatchOp::Insert { target, key, value } => BatchOpView::Insert(target.view(), key@, value@),
            BatchOp::PutMetadata { key, metadata } => BatchOpView::PutMetadata(key@, *metadata),
            BatchOp::Remove { target, key } => BatchOpView::Remove(target.view(), key@),
        }
    }
}

pub open spec fn batch_view(b: Seq<BatchOp>) -> Seq<BatchOpView> {
    b.map_values(|o: BatchOp| o.view())
}

/// The batch writes that carry out `meta` writes.
pub open spec fn meta_write_op(w: crate::quarantine::MetaWriteView) -> BatchOpView {
    match w {
        crate::quarantine::MetaWriteView::Insert(k, v) => BatchOpView::Insert(TargetView::Meta, k, v),
        crate::quarantine::MetaWriteView::Remove(k) => BatchOpView::Remove(TargetView::Meta, k),
    }
}

/// Turns a `meta` write into the batch write that carries it out.
pub fn meta_write_to_batch(w: MetaWrite) -> (r: BatchOp)
    ensures
        r.view() == meta_write_op(w.view()),
{
    match w {
        MetaWrite::Insert { key, value } => BatchOp::Insert { target: Target::Meta, key, value },
        MetaWrite::Remove { key } => BatchOp::Remove { target: Target::Meta, key },
    }
}

/// Why a mutation of a transaction was not carried out. A transaction
/// with any violation commits none of its Fjall writes.
#[derive(Debug, Clone, PartialEq, Eq)]
pub enum Violation {
    /// The record's revision is not the one the write expected.
    RevisionConflict { key: Vec<u8>, current: Option<u64>, expected: u64 },
    /// `CreateIfAbsent` found the key present.
    AlreadyExists { key: Vec<u8> },
    /// The keyspace's partition is quarantined.
    Quarantined { key: Vec<u8>, partition: Vec<u8> },
    /// The record reached the per-record write threshold.
    WriteRateExceeded { key: Vec<u8>, version: u32 },
    /// Another emergency rotation is already pending.
    RotationAlreadyPending { rotation_id: String },
    /// No pending rotation has this id.
    RotationNotFound { rotation_id: String },
    /// The pending rotation's confirmation window has passed.
    RotationExpired { rotation_id: String, expires_at: u64, now: u64 },
    /// The confirming operator is the one who initiated the rotation.
    SameOperator { rotation_id: String },
}

pub ghost enum ViolationView {
    RevisionConflict(Seq<u8>, Option<u64>, u64),
    AlreadyExists(Seq<u8>),
    Quarantined(Seq<u8>, Seq<u8>),
    WriteRateExceeded(Seq<u8>, u32),
    RotationAlreadyPending(Seq<char>),
    RotationNotFound(Seq<char>),
    RotationExpired(Seq<char>, u64, u64),
    SameOperator(Seq<char>),
}

impl Violation {
    pub open spec fn view(&self) -> ViolationView {
        match self {
            Violation::RevisionConflict { key, current, expected } => ViolationView::RevisionConflict(
                key@,
                *current,
                *expected,
            ),
            Violation::AlreadyExists { key } => ViolationView::AlreadyExists(key@),
            Violation::Quarantined { key, partition } => ViolationView::Quarantined(key@, partition@),
            Violation::WriteRateExceeded { key, version } => ViolationView::WriteRateExceeded(key@, *version),
            Violation::RotationAlreadyPending { rotation_id } => ViolationView::RotationAlreadyPending(
                rotation_id@,
            ),
            Violation::RotationNotFound { rotation_id } => ViolationView::RotationNotFound(rotation_id@),
            Violation::RotationExpired { rotation_id, expires_at, now } => ViolationView::RotationExpired(
                rotation_id@,
                *expires_at,
                *now,
            ),
            Violation::SameOperator { rotation_id } => ViolationView::SameOperator(rotation_id@),
        }
    }
}

pub open spec fn violations_view(v: Seq<Violation>) -> Seq<ViolationView> {
    v.map_values(|x: Violation| x.view())
}

/// The class of a violation, as reported to clients.
#[derive(Debug, Clone, Copy, PartialEq, Eq, Structural)]
pub enum ViolationType {
    Conflict,
    Quarantined,
    WriteRateExceeded,
    NotFound,
    Expired,
    Unauthorized,
}

impl Violation {
    pub open spec fn type_of(&self) -> ViolationType {
        match self {
            Violation::RevisionConflict { .. } => ViolationType::Conflict,
            Violation::AlreadyExists { .. } => ViolationType::Conflict,
            Violation::Quarantined { .. } => ViolationType::Quarantined,
            Violation::WriteRateExceeded { .. } => ViolationType::WriteRateExceeded,
            Violation::RotationAlreadyPending { .. } => ViolationType::Conflict,
            Violation::RotationNotFound { .. } => ViolationType::NotFound,
            Violation::RotationExpired { .. } => ViolationType::Expired,
            Violation::SameOperator { .. } => ViolationType::Unauthorized,
        }
    }

    /// The class of this violation.
    pub fn violation_type(&self) -> (r: ViolationType)
        ensures
            r == self.type_of(),
    {
        match self {
            Violation::RevisionConflict { .. } => ViolationType::Conflict,
            Violation::AlreadyExists { .. } => ViolationType::Conflict,
            Violation::Quarantined { .. } => ViolationType::Quarantined,
            Violation::WriteRateExceeded { .. } => ViolationType::WriteRateExceeded,
            Violation::RotationAlreadyPending { .. } => ViolationType::Conflict,
            Violation::RotationNotFound { .. } => ViolationType::NotFound,
            Violation::RotationExpired { .. } => ViolationType::Expired,
            Violation::SameOperator { .. } => ViolationType::Unauthorized,
        }
    }
}

impl ViolationType {
    /// The type string clients see: `CONFLICT`, `QUARANTINED`,
    /// `WRITE_RATE_EXCEEDED`, `NOT_FOUND`, `EXPIRED` or `UNAUTHORIZED`.
    pub fn code(&self) -> (r: &'static str)
        ensures
            *self == ViolationType::Conflict ==> r@ == "CONFLICT"@,
            *self == ViolationType::Quarantined ==> r@ == "QUARANTINED"@,
            *self == ViolationType::WriteRateExceeded ==> r@ == "WRITE_RATE_EXCEEDED"@,
            *self == ViolationType::NotFound ==> r@ == "NOT_FOUND"@,
            *self == ViolationType::Expired ==> r@ == "EXPIRED"@,
            *self == ViolationType::Unauthorized ==> r@ == "UNAUTHORIZED"@,
    {
        match self {
            ViolationType::Conflict => "CONFLICT",
            ViolationType::Quarantined => "QUARANTINED",
            ViolationType::WriteRateExceeded => "WRITE_RATE_EXCEEDED",
            ViolationType::NotFound => "NOT_FOUND",
            ViolationType::Expired => "EXPIRED",
            ViolationType::Unauthorized => "UNAUTHORIZED",
        }
    }
}

/// Errors of the state machine's operations.
#[derive(Debug, Clone, PartialEq, Eq)]
pub enum StoreError {
    /// The partition is quarantined; reads and writes are refused.
    Quarantined(Vec<u8>),
    /// The record reached the per-record write threshold.
    WriteRateExceeded(Vec<u8>, u32),
    /// A record names a DEK epoch this node does not hold.
    UnknownDekEpoch(u32),
    /// GCM tag verification failed.
    TagMismatch,
    /// Another cryptographic failure.
    Crypto,
    /// `data`, `meta` and `index` can never be dropped.
    CoreKeyspace(String),
    /// The keyspace still holds entries.
    KeyspaceNotEmpty(String),
    /// Nothing is stored under `_meta:dek:current`.
    NoDekInstalled,
    /// The stored DEK record is too short.
    InvalidDekRecord(usize),
    /// A fetched DEK can only be installed while `data` is still empty.
    DataNotEmpty(u32),
    /// A mutation tried to write or delete the node's Raft bookkeeping.
    SystemData,
    /// The snapshot file is shorter than its header.
    SnapshotTooShort(usize),
    /// No DEK epoch of this node matches the snapshot's DEK version.
    NoMatchingEpoch(u32),
    /// The snapshot payload has a format version this node does not read.
    UnsupportedSnapshotVersion(u32),
}

/// A replicated mutation, as carried by a committed log entry.
#[derive(Debug, Clone, PartialEq, Eq)]
pub enum Mutation {
    Remove { key: Vec<u8>, keyspace: String, expected_revision: Option<u64> },
    RemoveIndex { key: Vec<u8> },
    Put {
        key: Vec<u8>,
        keyspace: String,
        cipher: Vec<u8>,
        metadata: Metadata,
        tier: u8,
        expected_revision: Option<u64>,
    },
    CreateIfAbsent { key: Vec<u8>, keyspace: String, cipher: Vec<u8>, metadata: Metadata, tier: u8 },
    SetIndex { key: Vec<u8> },
    ClearQuarantine { partition: String },
    Quarantine { node_id: u64, partition: String },
    InstallDek { wrapped_dek: Vec<u8>, dek_version: u32, is_emergency: bool },
    CreatePendingRotation {
        rotation_id: String,
        wrapped_dek: Vec<u8>,
        dek_version: u32,
        expires_at: u64,
        initiator: String,
    },
    ConfirmPendingRotation { rotation_id: String, confirmer: String },
    AbortPendingRotation { rotation_id: String },
}

pub ghost enum MutationView {
    Remove(Seq<u8>, Seq<char>, Option<u64>),
    RemoveIndex(Seq<u8>),
    Put(Seq<u8>, Seq<char>, Seq<u8>, Metadata, u8, Option<u64>),
    CreateIfAbsent(Seq<u8>, Seq<char>, Seq<u8>, Metadata, u8),
    SetIndex(Seq<u8>),
    ClearQuarantine(Seq<char>),
    Quarantine(u64, Seq<char>),
    InstallDek(Seq<u8>, u32, bool),
    CreatePendingRotation(Seq<char>, Seq<u8>, u32, u64, Seq<char>),
    ConfirmPendingRotation(Seq<char>, Seq<char>),
    AbortPendingRotation(Seq<char>),
}

impl Mutation {
    pub open spec fn view(&self) -> MutationView {
        match self {
            Mutation::Remove { key, keyspace, expected_revision } => MutationView::Remove(
                key@,
                keyspace@,
                *expected_revision,
            ),
            Mutation::RemoveIndex { key } => MutationView::RemoveIndex(key@),
            Mutation::Put { key, keyspace, cipher, metadata, tier, expected_revision } => MutationView::Put(
                key@,
                keyspace@,
                cipher@,
                *metadata,
                *tier,
                *expected_revision,
            ),
            Mutation::CreateIfAbsent { key, keyspace, cipher, metadata, tier } => MutationView::CreateIfAbsent(
                key@,
                keyspace@,
                cipher@,
                *metadata,
                *tier,
            ),
            Mutation::SetIndex { key } => MutationView::SetIndex(key@),
            Mutation::ClearQuarantine { partition } => MutationView::ClearQuarantine(partition@),
            Mutation::Quarantine { node_id, partition } => MutationView::Quarantine(*node_id, partition@),
            Mutation::InstallDek { wrapped_dek, dek_version, is_emergency } => MutationView::InstallDek(
                wrapped_dek@,
                *dek_version,
                *is_emergency,
            ),
            Mutation::CreatePendingRotation { rotation_id, wrapped_dek, dek_version, expires_at, initiator } =>
                MutationView::CreatePendingRotation(
                rotation_id@,
                wrapped_dek@,
                *dek_version,
                *expires_at,
                initiator@,
            ),
            Mutation::ConfirmPendingRotation { rotation_id, confirmer } => MutationView::ConfirmPendingRotation(
                rotation_id@,
                confirmer@,
            ),
            Mutation::AbortPendingRotation { rotation_id } => MutationView::AbortPendingRotation(rotation_id@),
        }
    }
}

/// An emergency DEK rotation staged for dual-control confirmation.
#[derive(Debug, Clone, PartialEq, Eq)]
pub struct PendingRotation {
    pub rotation_id: String,
    pub wrapped_dek: Vec<u8>,
    pub dek_version: u32,
    /// Unix time (seconds) at which the confirmation window closes.
    pub expires_at: u64,
    pub initiator: String,
}

pub ghost struct PendingView {
    pub wrapped_dek: Seq<u8>,
    pub dek_version: u32,
    pub expires_at: u64,
    pub initiator: Seq<char>,
}

impl PendingRotation {
    /// A copy of this entry.
    pub fn duplicate(&self) -> (r: PendingRotation)
        ensures
            r.view() == self.view(),
            r.rotation_id@ == self.rotation_id@,
    {
        PendingRotation {
            rotation_id: self.rotation_id.clone(),
            wrapped_dek: crate::codec::copy_bytes(self.wrapped_dek.as_slice()),
            dek_version: self.dek_version,
            expires_at: self.expires_at,
            initiator: self.initiator.clone(),
        }
    }

    pub open spec fn view(&self) -> PendingView {
        PendingView {
            wrapped_dek: self.wrapped_dek@,
            dek_version: self.dek_version,
            expires_at: self.expires_at,
            initiator: self.initiator@,
        }
    }
}

} // verus!
