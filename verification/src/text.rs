//! UTF-8 checks and conversions over byte strings.
use vstd::prelude::*;
use vstd::utf8::*;

verus! {

/// Whether `b` is well-formed UTF-8.
///
/// Trusted: calls `std::str::from_utf8`, whose documentation states that it
/// succeeds exactly when the bytes are valid UTF-8.
#[verifier::external_body]
pub(crate) fn is_valid_utf8(b: &[u8]) -> (r: bool)
    ensures
        r == valid_utf8(b@),
{
    match std::str::from_utf8(b) {
        Ok(_) => true,
        Err(_) => false,
    }
}

/// Turns UTF-8 bytes into a `String`, or `None` when they are not UTF-8.
///
/// Trusted: calls `String::from_utf8`, which the standard library
/// documents as succeeding exactly on valid UTF-8 and keeping the bytes
/// as they are.
#[verifier::external_body]
pub(crate) fn string_from_utf8(v: Vec<u8>) -> (r: Option<String>)
    ensures
        r is Some <==> valid_utf8(v@),
        r matches Some(s) ==> encode_utf8(s@) == v@,
{
    match String::from_utf8(v) {
        Ok(s) => Some(s),
        Err(_) => None,
    }
}

/// Bytes below 0x80 are UTF-8 on their own.
pub open spec fn is_ascii_bytes(s: Seq<u8>) -> bool {
    forall|i: int| 0 <= i < s.len() ==> #[trigger] s[i] < 128
}

pub proof fn lemma_ascii_valid_utf8(s: Seq<u8>)
    requires
        is_ascii_bytes(s),
    ensures
        valid_utf8(s),
{
    assert(s.subrange(0, 0) =~= Seq::<u8>::empty());
    assert(partial_valid_utf8(s, 0));
    assert forall|i: int| 0 <= 0 <= i < s.len() <= s.len() implies #[trigger] is_leading_byte_width_1(
        s[i],
    ) by {}
    partial_valid_utf8_extend_ascii_block(s, 0, s.len() as int);
    assert(s.subrange(0, s.len() as int) =~= s);
}

/// Dropping an ASCII head from valid UTF-8 leaves valid UTF-8.
pub proof fn lemma_valid_utf8_drop_ascii(a: Seq<u8>, b: Seq<u8>)
    requires
        valid_utf8(a + b),
        is_ascii_bytes(a),
    ensures
        valid_utf8(b),
    decreases a.len(),
{
    if a.len() == 0 {
        assert(a + b =~= b);
    } else {
        let s = a + b;
        assert(s[0] == a[0]);
        assert(a[0] < 128);
        assert(length_of_first_scalar(s) == 1);
        assert(pop_first_scalar(s) =~= a.drop_first() + b);
        assert(is_ascii_bytes(a.drop_first())) by {
            assert forall|i: int| 0 <= i < a.drop_first().len() implies #[trigger] a.drop_first()[i]
                < 128 by {
                assert(a.drop_first()[i] == a[i + 1]);
            }
        }
        lemma_valid_utf8_drop_ascii(a.drop_first(), b);
    }
}

} // verus!
