//! Layouts of the bookkeeping keys and records kept in the `meta` keyspace
//! and of the on-disk snapshot file header.
use crate::codec::{
    all_digits, be_bytes, bytes_eq, lemma_be_round_trip, lemma_pow256_fixed, append_bytes, be_decode, be_decode_u32, be_u32, be_u64, be_value, dec_digits,
    has_prefix, is_digit, last_index_of, lemma_dec_digits_shape, lemma_last_index_of_join, lemma_last_index_of_props,
    lemma_parse_dec_digits, parse_u32, parse_u64, parse_unsigned, rfind_byte, slice_copy,
    starts_with, u64_to_dec, ASCII_COLON,
};
use crate::text::{is_ascii_bytes, is_valid_utf8, lemma_ascii_valid_utf8, string_from_utf8};
use vstd::prelude::*;
use vstd::string::StringSliceAdditionalSpecFns;
use vstd::utf8::*;

verus! {

broadcast use vstd::utf8::encode_utf8_valid_utf8;

/// `_meta:quarantine:`
pub open spec fn quarantine_prefix() -> Seq<u8> {
    seq![95u8, 109u8, 101u8, 116u8, 97u8, 58u8, 113u8, 117u8, 97u8, 114u8, 97u8, 110u8, 116u8, 105u8, 110u8, 101u8, 58u8]
}

/// `_meta:dek:retired:`
pub open spec fn dek_retired_prefix() -> Seq<u8> {
    seq![95u8, 109u8, 101u8, 116u8, 97u8, 58u8, 100u8, 101u8, 107u8, 58u8, 114u8, 101u8, 116u8, 105u8, 114u8, 101u8, 100u8, 58u8]
}

/// `_meta:dek:revoked:`
pub open spec fn dek_revoked_prefix() -> Seq<u8> {
    seq![95u8, 109u8, 101u8, 116u8, 97u8, 58u8, 100u8, 101u8, 107u8, 58u8, 114u8, 101u8, 118u8, 111u8, 107u8, 101u8, 100u8, 58u8]
}

/// `_meta:dek:current`
pub open spec fn dek_current_key() -> Seq<u8> {
    seq![95u8, 109u8, 101u8, 116u8, 97u8, 58u8, 100u8, 101u8, 107u8, 58u8, 99u8, 117u8, 114u8, 114u8, 101u8, 110u8, 116u8]
}

/// `_meta:rotation:pending:`
pub open spec fn pending_rotation_prefix() -> Seq<u8> {
    seq![95u8, 109u8, 101u8, 116u8, 97u8, 58u8, 114u8, 111u8, 116u8, 97u8, 116u8, 105u8, 111u8, 110u8, 58u8, 112u8, 101u8, 110u8, 100u8, 105u8, 110u8, 103u8, 58u8]
}

/// `_meta:dek:reencrypt_done:`
pub open spec fn reencrypt_done_prefix() -> Seq<u8> {
    seq![95u8, 109u8, 101u8, 116u8, 97u8, 58u8, 100u8, 101u8, 107u8, 58u8, 114u8, 101u8, 101u8, 110u8, 99u8, 114u8, 121u8, 112u8, 116u8, 95u8, 100u8, 111u8, 110u8, 101u8, 58u8]
}

/// `last_applied_log`
pub open spec fn last_applied_log_key() -> Seq<u8> {
    seq![108u8, 97u8, 115u8, 116u8, 95u8, 97u8, 112u8, 112u8, 108u8, 105u8, 101u8, 100u8, 95u8, 108u8, 111u8, 103u8]
}

/// `last_membership`
pub open spec fn last_membership_key() -> Seq<u8> {
    seq![108u8, 97u8, 115u8, 116u8, 95u8, 109u8, 101u8, 109u8, 98u8, 101u8, 114u8, 115u8, 104u8, 105u8, 112u8]
}

pub fn quarantine_prefix_bytes() -> (r: Vec<u8>)
    ensures
        r@ == quarantine_prefix(),
{
    let r = vec![95u8, 109u8, 101u8, 116u8, 97u8, 58u8, 113u8, 117u8, 97u8, 114u8, 97u8, 110u8, 116u8, 105u8, 110u8, 101u8, 58u8];
    assert(r@ =~= quarantine_prefix());
    r
}

pub fn dek_retired_prefix_bytes() -> (r: Vec<u8>)
    ensures
        r@ == dek_retired_prefix(),
{
    let r = vec![95u8, 109u8, 101u8, 116u8, 97u8, 58u8, 100u8, 101u8, 107u8, 58u8, 114u8, 101u8, 116u8, 105u8, 114u8, 101u8, 100u8, 58u8];
    assert(r@ =~= dek_retired_prefix());
    r
}

pub fn dek_revoked_prefix_bytes() -> (r: Vec<u8>)
    ensures
        r@ == dek_revoked_prefix(),
{
    let r = vec![95u8, 109u8, 101u8, 116u8, 97u8, 58u8, 100u8, 101u8, 107u8, 58u8, 114u8, 101u8, 118u8, 111u8, 107u8, 101u8, 100u8, 58u8];
    assert(r@ =~= dek_revoked_prefix());
    r
}

pub fn dek_current_key_bytes() -> (r: Vec<u8>)
    ensures
        r@ == dek_current_key(),
{
    let r = vec![95u8, 109u8, 101u8, 116u8, 97u8, 58u8, 100u8, 101u8, 107u8, 58u8, 99u8, 117u8, 114u8, 114u8, 101u8, 110u8, 116u8];
    assert(r@ =~= dek_current_key());
    r
}

pub fn pending_rotation_prefix_bytes() -> (r: Vec<u8>)
    ensures
        r@ == pending_rotation_prefix(),
{
    let r = vec![95u8, 109u8, 101u8, 116u8, 97u8, 58u8, 114u8, 111u8, 116u8, 97u8, 116u8, 105u8, 111u8, 110u8, 58u8, 112u8, 101u8, 110u8, 100u8, 105u8, 110u8, 103u8, 58u8];
    assert(r@ =~= pending_rotation_prefix());
    r
}

pub fn reencrypt_done_prefix_bytes() -> (r: Vec<u8>)
    ensures
        r@ == reencrypt_done_prefix(),
{
    let r = vec![95u8, 109u8, 101u8, 116u8, 97u8, 58u8, 100u8, 101u8, 107u8, 58u8, 114u8, 101u8, 101u8, 110u8, 99u8, 114u8, 121u8, 112u8, 116u8, 95u8, 100u8, 111u8, 110u8, 101u8, 58u8];
    assert(r@ =~= reencrypt_done_prefix());
    r
}

pub fn last_applied_log_key_bytes() -> (r: Vec<u8>)
    ensures
        r@ == last_applied_log_key(),
{
    let r = vec![108u8, 97u8, 115u8, 116u8, 95u8, 97u8, 112u8, 112u8, 108u8, 105u8, 101u8, 100u8, 95u8, 108u8, 111u8, 103u8];
    assert(r@ =~= last_applied_log_key());
    r
}

pub fn last_membership_key_bytes() -> (r: Vec<u8>)
    ensures
        r@ == last_membership_key(),
{
    let r = vec![108u8, 97u8, 115u8, 116u8, 95u8, 109u8, 101u8, 109u8, 98u8, 101u8, 114u8, 115u8, 104u8, 105u8, 112u8];
    assert(r@ =~= last_membership_key());
    r
}

/// `data`
pub open spec fn data_name() -> Seq<u8> {
    seq![100u8, 97u8, 116u8, 97u8]
}

/// `meta`
pub open spec fn meta_name() -> Seq<u8> {
    seq![109u8, 101u8, 116u8, 97u8]
}

/// `index`
pub open spec fn index_name() -> Seq<u8> {
    seq![105u8, 110u8, 100u8, 101u8, 120u8]
}

/// `logs`
pub open spec fn logs_name() -> Seq<u8> {
    seq![108u8, 111u8, 103u8, 115u8]
}

/// `local_emergency`
pub open spec fn local_emergency_name() -> Seq<u8> {
    seq![108u8, 111u8, 99u8, 97u8, 108u8, 95u8, 101u8, 109u8, 101u8, 114u8, 103u8, 101u8, 110u8, 99u8, 121u8]
}

/// The keyspaces every node always has and that can never be dropped.
pub open spec fn is_core_keyspace(name: Seq<u8>) -> bool {
    name == data_name() || name == meta_name() || name == index_name()
}

/// Node-local keyspaces that never travel in a snapshot: the Raft log and
/// the emergency keyspace.
pub open spec fn is_node_local_keyspace(name: Seq<u8>) -> bool {
    name == logs_name() || name == local_emergency_name()
}

/// Keyspaces that never hold state-encrypted records and that the
/// re-encryption sweep passes over.
pub open spec fn is_unencrypted_keyspace(name: Seq<u8>) -> bool {
    name == meta_name() || name == logs_name() || name == index_name()
}

/// Whether `name` is `data`, `meta` or `index`.
pub fn check_core_keyspace(name: &[u8]) -> (r: bool)
    ensures
        r == is_core_keyspace(name@),
{
    let d = vec![100u8, 97u8, 116u8, 97u8];
    let m = vec![109u8, 101u8, 116u8, 97u8];
    let x = vec![105u8, 110u8, 100u8, 101u8, 120u8];
    assert(d@ =~= data_name());
    assert(m@ =~= meta_name());
    assert(x@ =~= index_name());
    bytes_eq(name, d.as_slice()) || bytes_eq(name, m.as_slice()) || bytes_eq(name, x.as_slice())
}

/// Whether `name` is `meta`.
pub fn check_meta_keyspace(name: &[u8]) -> (r: bool)
    ensures
        r == (name@ == meta_name()),
{
    let m = vec![109u8, 101u8, 116u8, 97u8];
    assert(m@ =~= meta_name());
    bytes_eq(name, m.as_slice())
}

/// Whether `name` is `logs` or `local_emergency`.
pub fn check_node_local_keyspace(name: &[u8]) -> (r: bool)
    ensures
        r == is_node_local_keyspace(name@),
{
    let l = vec![108u8, 111u8, 103u8, 115u8];
    let e = vec![108u8, 111u8, 99u8, 97u8, 108u8, 95u8, 101u8, 109u8, 101u8, 114u8, 103u8, 101u8, 110u8, 99u8, 121u8];
    assert(l@ =~= logs_name());
    assert(e@ =~= local_emergency_name());
    bytes_eq(name, l.as_slice()) || bytes_eq(name, e.as_slice())
}

/// Whether `name` is `meta`, `logs` or `index`.
pub fn check_unencrypted_keyspace(name: &[u8]) -> (r: bool)
    ensures
        r == is_unencrypted_keyspace(name@),
{
    let m = vec![109u8, 101u8, 116u8, 97u8];
    let l = vec![108u8, 111u8, 103u8, 115u8];
    let x = vec![105u8, 110u8, 100u8, 101u8, 120u8];
    assert(m@ =~= meta_name());
    assert(l@ =~= logs_name());
    assert(x@ =~= index_name());
    bytes_eq(name, m.as_slice()) || bytes_eq(name, l.as_slice()) || bytes_eq(name, x.as_slice())
}

/// The marker key `_meta:quarantine:<partition>:<node_id>`: the partition
/// comes first so that every reporting node's marker for one partition
/// shares one scan prefix.
pub open spec fn quarantine_key(partition: Seq<u8>, node_id: u64) -> Seq<u8> {
    quarantine_prefix() + partition + seq![ASCII_COLON] + dec_digits(node_id as nat)
}

/// The scan prefix shared by every node's marker for `partition`.
pub open spec fn quarantine_scan_prefix(partition: Seq<u8>) -> Seq<u8> {
    quarantine_prefix() + partition + seq![ASCII_COLON]
}

/// `<prefix><decimal version>`
pub open spec fn versioned_key(prefix: Seq<u8>, version: u32) -> Seq<u8> {
    prefix + dec_digits(version as nat)
}

/// Builds the marker key for `partition` reported by `node_id`, as bytes.
pub fn quarantine_meta_key_bytes(partition: &[u8], node_id: u64) -> (r: Vec<u8>)
    ensures
        r@ == quarantine_key(partition@, node_id),
{
    let mut r = quarantine_prefix_bytes();
    append_bytes(&mut r, partition);
    r.push(ASCII_COLON);
    let digits = u64_to_dec(node_id);
    append_bytes(&mut r, digits.as_slice());
    assert(r@ =~= quarantine_key(partition@, node_id));
    r
}

/// The scan prefix `_meta:quarantine:<partition>:` for one partition.
pub fn quarantine_scan_prefix_bytes(partition: &[u8]) -> (r: Vec<u8>)
    ensures
        r@ == quarantine_scan_prefix(partition@),
{
    let mut r = quarantine_prefix_bytes();
    append_bytes(&mut r, partition);
    r.push(ASCII_COLON);
    assert(r@ =~= quarantine_scan_prefix(partition@));
    r
}

proof fn lemma_quarantine_key_utf8(partition: Seq<u8>, node_id: u64)
    requires
        valid_utf8(partition),
    ensures
        valid_utf8(quarantine_key(partition, node_id)),
{
    lemma_dec_digits_shape(node_id as nat);
    let d = dec_digits(node_id as nat);
    let tail = seq![ASCII_COLON] + d;
    assert(is_ascii_bytes(quarantine_prefix()));
    assert(is_ascii_bytes(tail)) by {
        assert forall|i: int| 0 <= i < tail.len() implies #[trigger] tail[i] < 128 by {
            if i > 0 {
                assert(tail[i] == d[i - 1]);
                assert(is_digit(d[i - 1]));
            }
        }
    }
    lemma_ascii_valid_utf8(quarantine_prefix());
    lemma_ascii_valid_utf8(tail);
    valid_utf8_concat(quarantine_prefix(), partition);
    valid_utf8_concat(quarantine_prefix() + partition, tail);
    assert(quarantine_key(partition, node_id) =~= quarantine_prefix() + partition + tail);
}

/// Builds the marker key `_meta:quarantine:<partition>:<node_id>`.
pub fn quarantine_meta_key(partition: &str, node_id: u64) -> (r: String)
    ensures
        encode_utf8(r@) == quarantine_key(partition.spec_bytes(), node_id),
{
    let bytes = quarantine_meta_key_bytes(partition.as_bytes(), node_id);
    proof {
        lemma_quarantine_key_utf8(partition.spec_bytes(), node_id);
    }
    match string_from_utf8(bytes) {
        Some(s) => s,
        None => {
            assert(false);
            String::new()
        },
    }
}

/// `<prefix><decimal version>` for one DEK version.
pub fn versioned_key_bytes(prefix: &[u8], version: u32) -> (r: Vec<u8>)
    ensures
        r@ == versioned_key(prefix@, version),
{
    let mut r: Vec<u8> = Vec::new();
    append_bytes(&mut r, prefix);
    let digits = u64_to_dec(version as u64);
    append_bytes(&mut r, digits.as_slice());
    assert(r@ =~= versioned_key(prefix@, version));
    r
}

/// The retired-DEK record key `_meta:dek:retired:<version>`.
pub fn retired_dek_key(version: u32) -> (r: Vec<u8>)
    ensures
        r@ == versioned_key(dek_retired_prefix(), version),
{
    let p = dek_retired_prefix_bytes();
    versioned_key_bytes(p.as_slice(), version)
}

/// The revoked-DEK marker key `_meta:dek:revoked:<version>`.
pub fn revoked_dek_key(version: u32) -> (r: Vec<u8>)
    ensures
        r@ == versioned_key(dek_revoked_prefix(), version),
{
    let p = dek_revoked_prefix_bytes();
    versioned_key_bytes(p.as_slice(), version)
}

/// The marker key `_meta:dek:reencrypt_done:<version>` recording that a
/// retired epoch holds no record any more.
pub fn reencrypt_done_key(version: u32) -> (r: Vec<u8>)
    ensures
        r@ == versioned_key(reencrypt_done_prefix(), version),
{
    let p = reencrypt_done_prefix_bytes();
    versioned_key_bytes(p.as_slice(), version)
}

/// The key `_meta:rotation:pending:<rotation_id>` of a staged emergency
/// rotation.
pub fn pending_rotation_key(rotation_id: &[u8]) -> (r: Vec<u8>)
    ensures
        r@ == pending_rotation_prefix() + rotation_id@,
{
    let mut r = pending_rotation_prefix_bytes();
    append_bytes(&mut r, rotation_id);
    r
}

/// How a key found under the quarantine prefix reads.
pub ghost enum MarkerView {
    /// Not a marker: not UTF-8, not under the prefix, or a node id that
    /// is not a number.
    Invalid,
    /// A marker written before markers named their node: `<prefix><partition>`.
    Legacy(Seq<u8>),
    /// `<prefix><partition>:<node_id>`.
    Scoped(Seq<u8>, u64),
}

/// A parsed quarantine marker key.
#[derive(Debug, Clone, PartialEq, Eq)]
pub enum MarkerKey {
    Invalid,
    Legacy { partition: Vec<u8> },
    Scoped { partition: Vec<u8>, node_id: u64 },
}

impl MarkerKey {
    pub open spec fn view(&self) -> MarkerView {
        match self {
            MarkerKey::Invalid => MarkerView::Invalid,
            MarkerKey::Legacy { partition } => MarkerView::Legacy(partition@),
            MarkerKey::Scoped { partition, node_id } => MarkerView::Scoped(partition@, *node_id),
        }
    }
}

/// Reads a marker key: after the prefix, the part after the last `:` is
/// the reporting node's id and the part before it the partition; with no
/// `:` at all the key is a legacy marker naming only the partition.
pub open spec fn classify_marker(key: Seq<u8>) -> MarkerView {
    if !valid_utf8(key) || !has_prefix(key, quarantine_prefix()) {
        MarkerView::Invalid
    } else {
        let rest = key.subrange(quarantine_prefix().len() as int, key.len() as int);
        match last_index_of(rest, ASCII_COLON) {
            Some(i) => match parse_unsigned(rest.subrange(i + 1, rest.len() as int), u64::MAX as nat) {
                Some(n) => MarkerView::Scoped(rest.subrange(0, i), n as u64),
                None => MarkerView::Invalid,
            },
            None => MarkerView::Legacy(rest),
        }
    }
}

/// Parses a key found under the quarantine prefix.
pub fn parse_quarantine_marker(key: &[u8]) -> (r: MarkerKey)
    ensures
        r.view() == classify_marker(key@),
{
    if !is_valid_utf8(key) {
        return MarkerKey::Invalid;
    }
    let prefix = quarantine_prefix_bytes();
    if !starts_with(key, prefix.as_slice()) {
        return MarkerKey::Invalid;
    }
    let rest = slice_copy(key, prefix.len(), key.len());
    proof {
        lemma_last_index_of_props(rest@, ASCII_COLON);
    }
    match rfind_byte(rest.as_slice(), ASCII_COLON) {
        Some(i) => {
            let node_str = slice_copy(rest.as_slice(), i + 1, rest.len());
            match parse_u64(node_str.as_slice()) {
                Some(n) => {
                    let partition = slice_copy(rest.as_slice(), 0, i);
                    MarkerKey::Scoped { partition, node_id: n }
                },
                None => MarkerKey::Invalid,
            }
        },
        None => MarkerKey::Legacy { partition: rest },
    }
}

/// A marker key built for `partition` (UTF-8) and `node_id` reads back as
/// that partition and node.
pub proof fn lemma_quarantine_key_classifies(partition: Seq<u8>, node_id: u64)
    requires
        valid_utf8(partition),
    ensures
        classify_marker(quarantine_key(partition, node_id)) == MarkerView::Scoped(partition, node_id),
{
    let key = quarantine_key(partition, node_id);
    lemma_quarantine_key_utf8(partition, node_id);
    lemma_dec_digits_shape(node_id as nat);
    let d = dec_digits(node_id as nat);
    let plen = quarantine_prefix().len() as int;
    assert(key.subrange(0, plen) =~= quarantine_prefix());
    let rest = key.subrange(plen, key.len() as int);
    assert(rest =~= partition.push(ASCII_COLON) + d);
    lemma_last_index_of_join(partition, ASCII_COLON, d);
    assert(rest.subrange(partition.len() as int + 1, rest.len() as int) =~= d);
    assert(rest.subrange(0, partition.len() as int) =~= partition);
    lemma_parse_dec_digits(node_id as nat, u64::MAX as nat);
}

/// Why a stored current-DEK record could not be read.
#[derive(Debug, Clone, Copy, PartialEq, Eq)]
pub enum DekRecordError {
    /// Nothing is stored under `_meta:dek:current`.
    NotInstalled,
    /// The stored record is shorter than a version and a wrapped key.
    TooShort { len: usize },
}

/// Smallest length of a stored DEK record: four version bytes and at
/// least sixty bytes of wrapped key.
pub const DEK_RECORD_MIN_LEN: usize = 64;

/// A DEK record as stored: the version in four big-endian bytes, then the
/// wrapped key bytes.
pub open spec fn dek_record(version: u32, wrapped: Seq<u8>) -> Seq<u8> {
    be_bytes(version as nat, 4) + wrapped
}

/// Encodes a DEK record: `[version_u32_BE; 4] ++ wrapped`.
pub fn encode_dek_record(version: u32, wrapped: &[u8]) -> (r: Vec<u8>)
    ensures
        r@ == dek_record(version, wrapped@),
        r@.len() == 4 + wrapped@.len(),
        be_value(r@.subrange(0, 4)) == version,
        r@.subrange(4, r@.len() as int) == wrapped@,
{
    let mut r = be_u32(version);
    let ghost head = r@;
    append_bytes(&mut r, wrapped);
    assert(r@.subrange(0, 4) =~= head);
    assert(r@.subrange(4, r@.len() as int) =~= wrapped@);
    assert(r@ =~= dek_record(version, wrapped@));
    r
}

/// Reads the stored current-DEK record: its version and its wrapped key
/// bytes; `stored` is what `_meta:dek:current` holds, if anything.
pub fn decode_dek_record(stored: Option<&[u8]>) -> (r: Result<(u32, Vec<u8>), DekRecordError>)
    ensures
        match stored {
            None => r == Err::<(u32, Vec<u8>), DekRecordError>(DekRecordError::NotInstalled),
            Some(s) => if s@.len() < DEK_RECORD_MIN_LEN {
                r == Err::<(u32, Vec<u8>), DekRecordError>(DekRecordError::TooShort { len: s@.len() as usize })
            } else {
                (r matches Ok((v, w)) && v == be_value(s@.subrange(0, 4)) && w@ == s@.subrange(4, s@.len() as int))
            },
        },
{
    match stored {
        None => Err(DekRecordError::NotInstalled),
        Some(s) => {
            if s.len() < DEK_RECORD_MIN_LEN {
                return Err(DekRecordError::TooShort { len: s.len() });
            }
            let head = slice_copy(s, 0, 4);
            let version = be_decode_u32(head.as_slice());
            let wrapped = slice_copy(s, 4, s.len());
            Ok((version, wrapped))
        },
    }
}

/// A stored DEK record reads back as the version and wrapped key it was
/// written with, and is long enough to be read whenever the wrapped key has
/// at least sixty bytes.
pub proof fn law_dek_record_round_trip(version: u32, wrapped: Seq<u8>)
    ensures
        dek_record(version, wrapped).len() == 4 + wrapped.len(),
        be_value(dek_record(version, wrapped).subrange(0, 4)) == version,
        dek_record(version, wrapped).subrange(4, 4 + wrapped.len() as int) == wrapped,
        wrapped.len() >= 60 ==> dek_record(version, wrapped).len() >= DEK_RECORD_MIN_LEN,
{
    lemma_pow256_fixed();
    lemma_be_round_trip(version as nat, 4);
    let r = dek_record(version, wrapped);
    assert(r.subrange(0, 4) =~= be_bytes(version as nat, 4));
    assert(r.subrange(4, 4 + wrapped.len() as int) =~= wrapped);
}

/// What a retired-DEK entry `(key, wrapped)` found under the retired
/// prefix yields: its version, when the key is UTF-8 and names a `u32`.
pub open spec fn retired_entry_version(key: Seq<u8>) -> Option<u32> {
    if valid_utf8(key) && has_prefix(key, dek_retired_prefix()) {
        match parse_unsigned(
            key.subrange(dek_retired_prefix().len() as int, key.len() as int),
            u32::MAX as nat,
        ) {
            Some(v) => Some(v as u32),
            None => None,
        }
    } else {
        None
    }
}

/// The retired epochs listed by a prefix scan, in scan order, skipping
/// entries whose key does not name a version.
pub open spec fn retired_entries(entries: Seq<(Seq<u8>, Seq<u8>)>) -> Seq<(u32, Seq<u8>)>
    decreases entries.len(),
{
    if entries.len() == 0 {
        Seq::empty()
    } else {
        let rest = retired_entries(entries.drop_last());
        let (k, w) = entries.last();
        match retired_entry_version(k) {
            Some(v) => rest.push((v, w)),
            None => rest,
        }
    }
}

pub open spec fn entries_view(entries: Seq<(Vec<u8>, Vec<u8>)>) -> Seq<(Seq<u8>, Seq<u8>)> {
    entries.map_values(|e: (Vec<u8>, Vec<u8>)| (e.0@, e.1@))
}

pub open spec fn versioned_view(entries: Seq<(u32, Vec<u8>)>) -> Seq<(u32, Seq<u8>)> {
    entries.map_values(|e: (u32, Vec<u8>)| (e.0, e.1@))
}

/// A retired DEK stored under its version's key is listed back with that
/// version and its wrapped bytes: what a joining node fetches is what the
/// leader retired.
pub proof fn law_retired_key_reads_back(version: u32, wrapped: Seq<u8>)
    ensures
        retired_entries(seq![(versioned_key(dek_retired_prefix(), version), wrapped)]) == seq![(version, wrapped)],
{
    let prefix = dek_retired_prefix();
    let key = versioned_key(prefix, version);
    let d = dec_digits(version as nat);
    lemma_dec_digits_shape(version as nat);
    lemma_parse_dec_digits(version as nat, u32::MAX as nat);
    assert(is_ascii_bytes(prefix));
    assert(is_ascii_bytes(d)) by {
        assert forall|i: int| 0 <= i < d.len() implies #[trigger] d[i] < 128 by {
            assert(is_digit(d[i]));
        }
    }
    lemma_ascii_valid_utf8(prefix);
    lemma_ascii_valid_utf8(d);
    valid_utf8_concat(prefix, d);
    assert(key.subrange(0, prefix.len() as int) =~= prefix);
    assert(key.subrange(prefix.len() as int, key.len() as int) =~= d);
    assert(retired_entry_version(key) == Some(version));
    let s = seq![(key, wrapped)];
    assert(s.drop_last() =~= Seq::<(Seq<u8>, Seq<u8>)>::empty());
    assert(s.last() == (key, wrapped));
    assert(retired_entries(s.drop_last()) =~= Seq::<(u32, Seq<u8>)>::empty());
    assert(retired_entries(s) == retired_entries(s.drop_last()).push((version, wrapped)));
    assert(retired_entries(s) =~= seq![(version, wrapped)]);
}

/// Lists the retired DEK epochs from the entries a scan of the retired
/// prefix returned, as `(version, wrapped)`.
pub fn retired_deks_wrapped(entries: &Vec<(Vec<u8>, Vec<u8>)>) -> (r: Vec<(u32, Vec<u8>)>)
    ensures
        versioned_view(r@) == retired_entries(entries_view(entries@)),
{
    let prefix = dek_retired_prefix_bytes();
    let mut out: Vec<(u32, Vec<u8>)> = Vec::new();
    let mut i: usize = 0;
    while i < entries.len()
        invariant
            i <= entries@.len(),
            prefix@ == dek_retired_prefix(),
            versioned_view(out@) == retired_entries(entries_view(entries@.subrange(0, i as int))),
        decreases entries.len() - i,
    {
        let ghost pre = entries@.subrange(0, i as int);
        let ghost next = entries@.subrange(0, i + 1);
        assert(entries_view(next).drop_last() =~= entries_view(pre));
        assert(entries_view(next).last() == (entries@[i as int].0@, entries@[i as int].1@));
        let key = &entries[i].0;
        let mut version: Option<u32> = None;
        if is_valid_utf8(key.as_slice()) && starts_with(key.as_slice(), prefix.as_slice()) {
            let suffix = slice_copy(key.as_slice(), prefix.len(), key.len());
            version = parse_u32(suffix.as_slice());
        }
        assert(version == retired_entry_version(key@));
        match version {
            Some(v) => {
                let w = entries[i].1.clone();
                out.push((v, w));
                assert(versioned_view(out@) =~= retired_entries(entries_view(pre)).push((v, w@)));
            },
            None => {},
        }
        i = i + 1;
    }
    assert(entries@.subrange(0, i as int) =~= entries@);
    out
}

/// Length of the snapshot file header: DEK version and UTC epoch.
pub const SNAPSHOT_HEADER_LEN: usize = 12;

/// A snapshot file split into its header fields and encrypted body.
#[derive(Debug, Clone, PartialEq, Eq)]
pub struct SnapshotFileParts {
    pub dek_version: u32,
    pub utc_epoch: u64,
    pub body: Vec<u8>,
}

/// Splits a snapshot file `[dek_version_u32_BE; 4] ++ [utc_epoch_u64_BE; 8]
/// ++ body`; `Err` carries the length of a file too short for the header.
pub fn split_snapshot_file(bytes: &[u8]) -> (r: Result<SnapshotFileParts, usize>)
    ensures
        bytes@.len() < SNAPSHOT_HEADER_LEN ==> r == Err::<SnapshotFileParts, usize>(bytes@.len() as usize),
        bytes@.len() >= SNAPSHOT_HEADER_LEN ==> (r matches Ok(p) && {
            &&& p.dek_version == be_value(bytes@.subrange(0, 4))
            &&& p.utc_epoch == be_value(bytes@.subrange(4, 12))
            &&& p.body@ == bytes@.subrange(12, bytes@.len() as int)
        }),
{
    if bytes.len() < SNAPSHOT_HEADER_LEN {
        return Err(bytes.len());
    }
    let v = slice_copy(bytes, 0, 4);
    let e = slice_copy(bytes, 4, 12);
    let body = slice_copy(bytes, 12, bytes.len());
    Ok(SnapshotFileParts { dek_version: be_decode_u32(v.as_slice()), utc_epoch: be_decode(e.as_slice()), body })
}

/// Assembles a snapshot file from its header fields and encrypted body.
pub fn join_snapshot_file(dek_version: u32, utc_epoch: u64, body: &[u8]) -> (r: Vec<u8>)
    ensures
        r@ == snapshot_file(dek_version, utc_epoch, body@),
        r@.len() == SNAPSHOT_HEADER_LEN + body@.len(),
        be_value(r@.subrange(0, 4)) == dek_version,
        be_value(r@.subrange(4, 12)) == utc_epoch,
        r@.subrange(12, r@.len() as int) == body@,
{
    let mut r = be_u32(dek_version);
    let ghost a = r@;
    let e = be_u64(utc_epoch);
    append_bytes(&mut r, e.as_slice());
    let ghost b = r@;
    append_bytes(&mut r, body);
    assert(r@.subrange(0, 4) =~= a);
    assert(r@.subrange(4, 12) =~= e@);
    assert(r@.subrange(12, r@.len() as int) =~= body@);
    assert(r@ =~= snapshot_file(dek_version, utc_epoch, body@));
    r
}

/// A snapshot file as written: `[dek_version_u32_BE; 4] ++
/// [utc_epoch_u64_BE; 8] ++ body`.
pub open spec fn snapshot_file(dek_version: u32, utc_epoch: u64, body: Seq<u8>) -> Seq<u8> {
    be_bytes(dek_version as nat, 4) + be_bytes(utc_epoch as nat, 8) + body
}

/// A snapshot file reads back as the header fields and body it was written
/// with.
pub proof fn law_snapshot_file_round_trip(dek_version: u32, utc_epoch: u64, body: Seq<u8>)
    ensures
        snapshot_file(dek_version, utc_epoch, body).len() >= SNAPSHOT_HEADER_LEN,
        be_value(snapshot_file(dek_version, utc_epoch, body).subrange(0, 4)) == dek_version,
        be_value(snapshot_file(dek_version, utc_epoch, body).subrange(4, 12)) == utc_epoch,
        snapshot_file(dek_version, utc_epoch, body).subrange(12, 12 + body.len() as int) == body,
{
    lemma_pow256_fixed();
    lemma_be_round_trip(dek_version as nat, 4);
    lemma_be_round_trip(utc_epoch as nat, 8);
    let f = snapshot_file(dek_version, utc_epoch, body);
    assert(f.subrange(0, 4) =~= be_bytes(dek_version as nat, 4));
    assert(f.subrange(4, 12) =~= be_bytes(utc_epoch as nat, 8));
    assert(f.subrange(12, 12 + body.len() as int) =~= body);
}

} // verus!
