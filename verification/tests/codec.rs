use keystone_state_machine::codec::{
    append_bytes, be_decode, be_decode_u32, be_encode, be_u32, be_u64, bytes_eq, copy_bytes, parse_u32, parse_u64,
    rfind_byte, slice_copy, starts_with, u64_to_dec,
};
use keystone_state_machine::keys::{
    check_core_keyspace, check_node_local_keyspace, check_unencrypted_keyspace, pending_rotation_key,
    quarantine_scan_prefix_bytes, revoked_dek_key, versioned_key_bytes,
};

#[test]
fn decimal_rendering() {
    assert_eq!(u64_to_dec(0), b"0".to_vec());
    assert_eq!(u64_to_dec(7), b"7".to_vec());
    assert_eq!(u64_to_dec(1234567890), b"1234567890".to_vec());
    assert_eq!(u64_to_dec(u64::MAX), u64::MAX.to_string().into_bytes());
}

#[test]
fn decimal_parsing() {
    assert_eq!(parse_u64(b"0"), Some(0));
    assert_eq!(parse_u64(b"42"), Some(42));
    assert_eq!(parse_u64(b"+42"), Some(42));
    assert_eq!(parse_u64(b"007"), Some(7));
    assert_eq!(parse_u64(b"18446744073709551615"), Some(u64::MAX));
    assert_eq!(parse_u64(b"18446744073709551616"), None);
    assert_eq!(parse_u64(b""), None);
    assert_eq!(parse_u64(b"+"), None);
    assert_eq!(parse_u64(b"-1"), None);
    assert_eq!(parse_u64(b"1a"), None);
    assert_eq!(parse_u32(b"4294967295"), Some(u32::MAX));
    assert_eq!(parse_u32(b"4294967296"), None);
}

#[test]
fn big_endian_round_trips() {
    assert_eq!(be_u32(0x0102_0304), vec![1, 2, 3, 4]);
    assert_eq!(be_u64(1), vec![0, 0, 0, 0, 0, 0, 0, 1]);
    assert_eq!(be_encode(0x0102, 2), vec![1, 2]);
    assert_eq!(be_decode(&[1, 2]), 0x0102);
    assert_eq!(be_decode(&be_u64(u64::MAX)), u64::MAX);
    assert_eq!(be_decode_u32(&[0, 0, 1, 0]), 256);
}

#[test]
fn byte_helpers() {
    assert!(starts_with(b"_meta:x", b"_meta:"));
    assert!(!starts_with(b"_me", b"_meta:"));
    assert!(bytes_eq(b"abc", b"abc"));
    assert!(!bytes_eq(b"abc", b"abd"));
    assert_eq!(slice_copy(b"abcdef", 1, 4), b"bcd".to_vec());
    assert_eq!(copy_bytes(b"xy"), b"xy".to_vec());
    let mut v = b"ab".to_vec();
    append_bytes(&mut v, b"cd");
    assert_eq!(v, b"abcd".to_vec());
    assert_eq!(rfind_byte(b"a:b:c", b':'), Some(3));
    assert_eq!(rfind_byte(b"abc", b':'), None);
}

#[test]
fn key_layouts() {
    assert_eq!(quarantine_scan_prefix_bytes(b"data"), b"_meta:quarantine:data:".to_vec());
    assert_eq!(revoked_dek_key(4), b"_meta:dek:revoked:4".to_vec());
    assert_eq!(versioned_key_bytes(b"p:", 12), b"p:12".to_vec());
    assert_eq!(pending_rotation_key(b"r1"), b"_meta:rotation:pending:r1".to_vec());
}

#[test]
fn keyspace_classes() {
    for core in ["data", "meta", "index"] {
        assert!(check_core_keyspace(core.as_bytes()));
    }
    assert!(!check_core_keyspace(b"domain"));
    assert!(check_node_local_keyspace(b"logs"));
    assert!(check_node_local_keyspace(b"local_emergency"));
    assert!(!check_node_local_keyspace(b"data"));
    assert!(check_unencrypted_keyspace(b"meta"));
    assert!(!check_unencrypted_keyspace(b"data"));
}
