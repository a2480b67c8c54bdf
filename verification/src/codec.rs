//! Byte-level helpers shared by the key layouts and record formats:
//! decimal rendering and parsing of unsigned integers, big-endian
//! integer encoding, and prefix / search helpers over byte strings.
use vstd::prelude::*;

verus! {

/// ASCII `0`.
pub const ASCII_ZERO: u8 = 48;

/// ASCII `+`.
pub const ASCII_PLUS: u8 = 43;

/// ASCII `:`.
pub const ASCII_COLON: u8 = 58;

pub open spec fn is_digit(b: u8) -> bool {
    ASCII_ZERO <= b && b <= 57
}

pub open spec fn all_digits(s: Seq<u8>) -> bool {
    forall|i: int| 0 <= i < s.len() ==> is_digit(#[trigger] s[i])
}

/// The number that a string of decimal digits denotes.
pub open spec fn digits_value(s: Seq<u8>) -> nat
    decreases s.len(),
{
    if s.len() == 0 {
        0
    } else {
        digits_value(s.drop_last()) * 10 + (s.last() - ASCII_ZERO) as nat
    }
}

/// The digits that an unsigned integer parse reads: an optional leading
/// `+` is skipped.
pub open spec fn unsigned_digits(s: Seq<u8>) -> Seq<u8> {
    if s.len() > 0 && s[0] == ASCII_PLUS {
        s.drop_first()
    } else {
        s
    }
}

/// What parsing `s` as an unsigned decimal integer no greater than `max`
/// gives: an optional `+`, then at least one ASCII digit and nothing else,
/// denoting a value that fits.
pub open spec fn parse_unsigned(s: Seq<u8>, max: nat) -> Option<nat> {
    let d = unsigned_digits(s);
    if d.len() > 0 && all_digits(d) && digits_value(d) <= max {
        Some(digits_value(d))
    } else {
        None
    }
}

/// The shortest decimal rendering of `n`.
pub open spec fn dec_digits(n: nat) -> Seq<u8>
    decreases n,
{
    if n < 10 {
        seq![(ASCII_ZERO + n) as u8]
    } else {
        dec_digits(n / 10).push((ASCII_ZERO + n % 10) as u8)
    }
}

pub open spec fn pow256(w: nat) -> nat
    decreases w,
{
    if w == 0 {
        1
    } else {
        256 * pow256((w - 1) as nat)
    }
}

/// The number that a big-endian byte string denotes.
pub open spec fn be_value(s: Seq<u8>) -> nat
    decreases s.len(),
{
    if s.len() == 0 {
        0
    } else {
        be_value(s.drop_last()) * 256 + s.last() as nat
    }
}

/// The big-endian encoding of `n` in `w` bytes.
pub open spec fn be_bytes(n: nat, w: nat) -> Seq<u8>
    decreases w,
{
    if w == 0 {
        Seq::empty()
    } else {
        be_bytes(n / 256, (w - 1) as nat).push((n % 256) as u8)
    }
}

/// Reading back a big-endian encoding gives the number encoded.
pub proof fn lemma_be_round_trip(n: nat, w: nat)
    requires
        n < pow256(w),
    ensures
        be_value(be_bytes(n, w)) == n,
        be_bytes(n, w).len() == w,
    decreases w,
{
    if w > 0 {
        assert(n / 256 < pow256((w - 1) as nat)) by (nonlinear_arith)
            requires
                n < 256 * pow256((w - 1) as nat),
        ;
        lemma_be_round_trip(n / 256, (w - 1) as nat);
        let b = be_bytes(n, w);
        assert(b.drop_last() =~= be_bytes(n / 256, (w - 1) as nat));
    }
}

pub proof fn lemma_pow256_fixed()
    ensures
        pow256(4) == 0x1_0000_0000,
        pow256(8) == 0x1_0000_0000_0000_0000,
{
    lemma_pow256_4();
    lemma_pow256_8();
}

pub open spec fn has_prefix(s: Seq<u8>, prefix: Seq<u8>) -> bool {
    prefix.len() <= s.len() && s.subrange(0, prefix.len() as int) == prefix
}

/// Index of the last occurrence of `b` in `s`, if any.
pub open spec fn last_index_of(s: Seq<u8>, b: u8) -> Option<int>
    decreases s.len(),
{
    if s.len() == 0 {
        None
    } else if s.last() == b {
        Some(s.len() - 1)
    } else {
        last_index_of(s.drop_last(), b)
    }
}

pub proof fn lemma_dec_digits_shape(n: nat)
    ensures
        dec_digits(n).len() > 0,
        all_digits(dec_digits(n)),
        digits_value(dec_digits(n)) == n,
        dec_digits(n)[0] != ASCII_PLUS,
        !dec_digits(n).contains(ASCII_COLON),
    decreases n,
{
    if n >= 10 {
        lemma_dec_digits_shape(n / 10);
        let d = dec_digits(n / 10);
        let e = d.push((ASCII_ZERO + n % 10) as u8);
        assert(e.drop_last() =~= d);
        assert(e.last() == (ASCII_ZERO + n % 10) as u8);
        assert(digits_value(e) == digits_value(d) * 10 + n % 10);
        assert(n == (n / 10) * 10 + n % 10);
        assert forall|i: int| 0 <= i < e.len() implies is_digit(#[trigger] e[i]) by {
            if i < d.len() {
                assert(e[i] == d[i]);
            }
        }
        assert(e[0] == d[0]);
        if e.contains(ASCII_COLON) {
            let j = choose|j: int| 0 <= j < e.len() && e[j] == ASCII_COLON;
            assert(is_digit(e[j]));
        }
    } else {
        let e = dec_digits(n);
        assert(e.drop_last() =~= Seq::<u8>::empty());
        assert(e.last() == (ASCII_ZERO + n) as u8);
        assert(digits_value(e) == digits_value(e.drop_last()) * 10 + n);
        if e.contains(ASCII_COLON) {
            let j = choose|j: int| 0 <= j < e.len() && e[j] == ASCII_COLON;
            assert(j == 0);
        }
    }
}

/// Rendering a number in decimal and parsing it back gives the number.
pub proof fn lemma_parse_dec_digits(n: nat, max: nat)
    requires
        n <= max,
    ensures
        parse_unsigned(dec_digits(n), max) == Some(n),
{
    lemma_dec_digits_shape(n);
}

proof fn lemma_digits_value_prefix_le(s: Seq<u8>, k: int)
    requires
        all_digits(s),
        0 <= k <= s.len(),
    ensures
        digits_value(s.subrange(0, k)) <= digits_value(s),
    decreases s.len(),
{
    if k < s.len() {
        let t = s.drop_last();
        assert(all_digits(t)) by {
            assert forall|i: int| 0 <= i < t.len() implies is_digit(#[trigger] t[i]) by {
                assert(t[i] == s[i]);
            }
        }
        lemma_digits_value_prefix_le(t, k);
        assert(t.subrange(0, k) =~= s.subrange(0, k));
    } else {
        assert(s.subrange(0, k) =~= s);
    }
}

proof fn lemma_pow256_8()
    ensures
        pow256(8) == 0x1_0000_0000_0000_0000,
{
    reveal_with_fuel(pow256, 9);
}

proof fn lemma_pow256_4()
    ensures
        pow256(4) == 0x1_0000_0000,
{
    reveal_with_fuel(pow256, 5);
}

proof fn lemma_pow256_mono(a: nat, b: nat)
    requires
        a <= b,
    ensures
        pow256(a) <= pow256(b),
        pow256(a) >= 1,
    decreases b,
{
    if a < b {
        lemma_pow256_mono(a, (b - 1) as nat);
    } else if a > 0 {
        lemma_pow256_mono((a - 1) as nat, (a - 1) as nat);
    }
}

/// Renders `n` in decimal.
pub fn u64_to_dec(n: u64) -> (r: Vec<u8>)
    ensures
        r@ == dec_digits(n as nat),
    decreases n,
{
    if n < 10 {
        vec![ASCII_ZERO + n as u8]
    } else {
        let mut v = u64_to_dec(n / 10);
        v.push(ASCII_ZERO + (n % 10) as u8);
        v
    }
}

/// Parses `s` as an unsigned decimal integer that fits in a `u64`: an
/// optional `+`, then one or more ASCII digits.
pub fn parse_u64(s: &[u8]) -> (r: Option<u64>)
    ensures
        r matches Some(v) ==> parse_unsigned(s@, u64::MAX as nat) == Some(v as nat),
        r is None ==> parse_unsigned(s@, u64::MAX as nat) is None,
{
    let start: usize = if s.len() > 0 && s[0] == ASCII_PLUS {
        1
    } else {
        0
    };
    let ghost d = unsigned_digits(s@);
    assert(d =~= s@.subrange(start as int, s@.len() as int));
    if start >= s.len() {
        return None;
    }
    let mut acc: u64 = 0;
    let mut i: usize = start;
    while i < s.len()
        invariant
            start <= i <= s.len(),
            start < s.len(),
            d == s@.subrange(start as int, s@.len() as int),
            d == unsigned_digits(s@),
            all_digits(d.subrange(0, i - start)),
            acc as nat == digits_value(d.subrange(0, i - start)),
        decreases s.len() - i,
    {
        let b = s[i];
        let ghost pre = d.subrange(0, i - start);
        let ghost next = d.subrange(0, i + 1 - start);
        assert(next.drop_last() =~= pre);
        assert(next.last() == b);
        assert(d[i - start] == s@[i as int]);
        if b < ASCII_ZERO || b > 57 {
            assert(!is_digit(d[i - start]));
            assert(!all_digits(d));
            return None;
        }
        assert(all_digits(next)) by {
            assert forall|j: int| 0 <= j < next.len() implies is_digit(#[trigger] next[j]) by {
                if j < pre.len() {
                    assert(next[j] == pre[j]);
                }
            }
        }
        let digit = (b - ASCII_ZERO) as u64;
        if acc > (u64::MAX - digit) / 10 {
            proof {
                assert(digits_value(next) > u64::MAX as nat) by (nonlinear_arith)
                    requires
                        digits_value(next) == acc as nat * 10 + digit as nat,
                        acc > (u64::MAX - digit) / 10,
                        digit <= 9,
                ;
                assert(next == d.subrange(0, i + 1 - start));
                if all_digits(d) {
                    lemma_digits_value_prefix_le(d, i + 1 - start);
                    assert(digits_value(d) > u64::MAX as nat);
                }
            }
            return None;
        }
        proof {
            assert(acc * 10 + digit <= u64::MAX) by (nonlinear_arith)
                requires
                    acc <= (u64::MAX - digit) / 10,
                    digit <= 9,
            ;
        }
        acc = acc * 10 + digit;
        i = i + 1;
    }
    assert(d.subrange(0, i - start) =~= d);
    Some(acc)
}

/// Parses `s` as an unsigned decimal integer that fits in a `u32`.
pub fn parse_u32(s: &[u8]) -> (r: Option<u32>)
    ensures
        r matches Some(v) ==> parse_unsigned(s@, u32::MAX as nat) == Some(v as nat),
        r is None ==> parse_unsigned(s@, u32::MAX as nat) is None,
{
    match parse_u64(s) {
        Some(v) => {
            if v <= u32::MAX as u64 {
                Some(v as u32)
            } else {
                None
            }
        },
        None => None,
    }
}

/// Big-endian encoding of `n` in `width` bytes.
pub fn be_encode(n: u64, width: usize) -> (r: Vec<u8>)
    requires
        (n as nat) < pow256(width as nat),
    ensures
        r@.len() == width,
        be_value(r@) == n,
        r@ == be_bytes(n as nat, width as nat),
    decreases width,
{
    if width == 0 {
        assert(n == 0);
        Vec::new()
    } else {
        proof {
            assert(n / 256 < pow256((width - 1) as nat)) by (nonlinear_arith)
                requires
                    n < 256 * pow256((width - 1) as nat),
            ;
        }
        let mut v = be_encode(n / 256, width - 1);
        let ghost pre = v@;
        v.push((n % 256) as u8);
        assert(v@.drop_last() =~= pre);
        v
    }
}

/// Reads a big-endian unsigned integer of at most eight bytes.
pub fn be_decode(s: &[u8]) -> (r: u64)
    requires
        s@.len() <= 8,
    ensures
        r as nat == be_value(s@),
{
    let mut acc: u64 = 0;
    let mut i: usize = 0;
    proof {
        lemma_pow256_8();
    }
    while i < s.len()
        invariant
            i <= s.len(),
            s@.len() <= 8,
            acc as nat == be_value(s@.subrange(0, i as int)),
            (acc as nat) < pow256(i as nat),
            pow256(8) == 0x1_0000_0000_0000_0000,
        decreases s.len() - i,
    {
        let b = s[i];
        let ghost next = s@.subrange(0, i + 1);
        assert(next.drop_last() =~= s@.subrange(0, i as int));
        proof {
            lemma_pow256_mono((i + 1) as nat, 8);
            assert(acc * 256 + b < pow256((i + 1) as nat)) by (nonlinear_arith)
                requires
                    acc < pow256(i as nat),
                    b < 256,
                    pow256((i + 1) as nat) == 256 * pow256(i as nat),
            ;
        }
        acc = acc * 256 + b as u64;
        i = i + 1;
    }
    assert(s@.subrange(0, i as int) =~= s@);
    acc
}

/// Big-endian four-byte encoding of a `u32`.
pub fn be_u32(n: u32) -> (r: Vec<u8>)
    ensures
        r@ == be_bytes(n as nat, 4),
        r@.len() == 4,
        be_value(r@) == n,
{
    proof {
        lemma_pow256_4();
    }
    be_encode(n as u64, 4)
}

/// Big-endian eight-byte encoding of a `u64`.
pub fn be_u64(n: u64) -> (r: Vec<u8>)
    ensures
        r@ == be_bytes(n as nat, 8),
        r@.len() == 8,
        be_value(r@) == n,
{
    proof {
        lemma_pow256_8();
    }
    be_encode(n, 8)
}

/// Reads a big-endian `u32` from exactly four bytes.
pub fn be_decode_u32(s: &[u8]) -> (r: u32)
    requires
        s@.len() == 4,
    ensures
        r as nat == be_value(s@),
{
    let v = be_decode(s);
    proof {
        lemma_be_value_bound(s@);
        lemma_pow256_4();
    }
    v as u32
}

pub proof fn lemma_be_value_bound(s: Seq<u8>)
    ensures
        be_value(s) < pow256(s.len()),
    decreases s.len(),
{
    if s.len() > 0 {
        lemma_be_value_bound(s.drop_last());
        let a = be_value(s.drop_last());
        let p = pow256(s.drop_last().len());
        assert(a * 256 + s.last() < 256 * p) by (nonlinear_arith)
            requires
                a < p,
                s.last() < 256,
        ;
    }
}

/// Whether `s` starts with `prefix`.
pub fn starts_with(s: &[u8], prefix: &[u8]) -> (r: bool)
    ensures
        r == has_prefix(s@, prefix@),
{
    if prefix.len() > s.len() {
        return false;
    }
    let mut i: usize = 0;
    while i < prefix.len()
        invariant
            i <= prefix.len() <= s.len(),
            forall|j: int| 0 <= j < i ==> s@[j] == prefix@[j],
        decreases prefix.len() - i,
    {
        if s[i] != prefix[i] {
            assert(s@.subrange(0, prefix@.len() as int)[i as int] != prefix@[i as int]);
            return false;
        }
        i = i + 1;
    }
    assert(s@.subrange(0, prefix@.len() as int) =~= prefix@);
    true
}

/// Whether two byte strings are equal.
pub fn bytes_eq(a: &[u8], b: &[u8]) -> (r: bool)
    ensures
        r == (a@ == b@),
{
    if a.len() != b.len() {
        return false;
    }
    let r = starts_with(a, b);
    assert(a@ =~= a@.subrange(0, b@.len() as int));
    r
}

/// The bytes of `s` from `start` to `end`.
pub fn slice_copy(s: &[u8], start: usize, end: usize) -> (r: Vec<u8>)
    requires
        start <= end <= s@.len(),
    ensures
        r@ == s@.subrange(start as int, end as int),
{
    let mut out: Vec<u8> = Vec::new();
    let mut i: usize = start;
    while i < end
        invariant
            start <= i <= end <= s@.len(),
            out@ == s@.subrange(start as int, i as int),
        decreases end - i,
    {
        out.push(s[i]);
        i = i + 1;
        assert(out@ =~= s@.subrange(start as int, i as int));
    }
    out
}

/// An owned copy of `s`.
pub fn copy_bytes(s: &[u8]) -> (r: Vec<u8>)
    ensures
        r@ == s@,
{
    let r = slice_copy(s, 0, s.len());
    assert(s@.subrange(0, s@.len() as int) =~= s@);
    r
}

/// Appends every byte of `src` to `dst`.
pub fn append_bytes(dst: &mut Vec<u8>, src: &[u8])
    ensures
        final(dst)@ == old(dst)@ + src@,
{
    let mut i: usize = 0;
    while i < src.len()
        invariant
            i <= src@.len(),
            dst@ == old(dst)@ + src@.subrange(0, i as int),
        decreases src.len() - i,
    {
        dst.push(src[i]);
        i = i + 1;
        assert(dst@ =~= old(dst)@ + src@.subrange(0, i as int));
    }
    assert(src@.subrange(0, src@.len() as int) =~= src@);
}

/// Index of the last `b` in `s`, if any.
pub fn rfind_byte(s: &[u8], b: u8) -> (r: Option<usize>)
    ensures
        r matches Some(i) ==> last_index_of(s@, b) == Some(i as int),
        r is None ==> last_index_of(s@, b) is None,
{
    let mut i: usize = s.len();
    assert(s@.subrange(0, i as int) =~= s@);
    while i > 0
        invariant
            i <= s@.len(),
            last_index_of(s@, b) == last_index_of(s@.subrange(0, i as int), b),
        decreases i,
    {
        let ghost t = s@.subrange(0, i as int);
        assert(t.drop_last() =~= s@.subrange(0, i - 1));
        if s[i - 1] == b {
            return Some(i - 1);
        }
        i = i - 1;
    }
    assert(s@.subrange(0, 0) =~= Seq::<u8>::empty());
    None
}

pub proof fn lemma_last_index_of_props(s: Seq<u8>, b: u8)
    ensures
        last_index_of(s, b) matches Some(i) ==> {
            &&& 0 <= i < s.len()
            &&& s[i] == b
            &&& !s.subrange(i + 1, s.len() as int).contains(b)
        },
        last_index_of(s, b) is None ==> !s.contains(b),
    decreases s.len(),
{
    if s.len() > 0 {
        let t = s.drop_last();
        lemma_last_index_of_props(t, b);
        if s.last() == b {
            assert(s.subrange(s.len() as int, s.len() as int) =~= Seq::<u8>::empty());
        } else {
            match last_index_of(t, b) {
                Some(i) => {
                    let tail = s.subrange(i + 1, s.len() as int);
                    if tail.contains(b) {
                        let j = choose|j: int| 0 <= j < tail.len() && tail[j] == b;
                        if j < tail.len() - 1 {
                            assert(t.subrange(i + 1, t.len() as int)[j] == b);
                        }
                    }
                },
                None => {
                    if s.contains(b) {
                        let j = choose|j: int| 0 <= j < s.len() && s[j] == b;
                        assert(t[j] == b);
                    }
                },
            }
        }
    }
}

/// The last occurrence of `b` in `prefix + b + suffix`, when `suffix` holds
/// no `b`, is the one between them.
pub proof fn lemma_last_index_of_join(prefix: Seq<u8>, b: u8, suffix: Seq<u8>)
    requires
        !suffix.contains(b),
    ensures
        last_index_of(prefix.push(b) + suffix, b) == Some(prefix.len() as int),
    decreases suffix.len(),
{
    let s = prefix.push(b) + suffix;
    if suffix.len() == 0 {
        assert(s =~= prefix.push(b));
    } else {
        let t = suffix.drop_last();
        assert(!t.contains(b)) by {
            if t.contains(b) {
                let j = choose|j: int| 0 <= j < t.len() && t[j] == b;
                assert(suffix[j] == b);
            }
        }
        assert(s.drop_last() =~= prefix.push(b) + t);
        assert(s.last() == suffix.last());
        assert(suffix.contains(suffix.last()) ) by {
            assert(suffix[suffix.len() - 1] == suffix.last());
        }
        lemma_last_index_of_join(prefix, b, t);
    }
}

} // verus!
