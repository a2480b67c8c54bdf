//! Verified decision core of a replicated, encrypted key-value state
//! machine: meta-key layouts, per-partition quarantine tracking, DEK epoch
//! bookkeeping, the ephemeral keyspace registry, snapshot payloads and the
//! per-mutation apply logic.
pub mod codec;

pub mod text;
pub mod keys;
pub mod quarantine;
pub mod types;
pub mod ephemeral;
pub mod dek;
pub mod machine;
pub mod snapshot;
pub mod reencrypt;
