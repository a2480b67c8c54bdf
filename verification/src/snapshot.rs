//! Snapshot payloads: the full contents of every replicated keyspace plus
//! the names of the ephemeral keyspaces, and how installing one rewrites
//! the keyspaces of the installing node.
use crate::codec::{append_bytes, copy_bytes, dec_digits, is_digit, lemma_dec_digits_shape, u64_to_dec};
use crate::keys::{check_node_local_keyspace, is_node_local_keyspace};
use crate::text::{is_ascii_bytes, lemma_ascii_valid_utf8, string_from_utf8};
use crate::types::{batch_view, BatchOp, BatchOpView, StoreError, Target, TargetView};
use vstd::prelude::*;
use vstd::string::StringSliceAdditionalSpecFns;
use vstd::utf8::{encode_utf8, encode_utf8_valid_utf8, valid_utf8, valid_utf8_concat};

verus! {

/// Version of the payload layout; a payload of any other version is
/// refused rather than misread.
pub const SNAPSHOT_FORMAT_VERSION: u32 = 2;

/// The `(key, value)` pairs of one keyspace.
pub type KeyspaceEntries = Vec<(Vec<u8>, Vec<u8>)>;

/// What a snapshot carries.
#[derive(Debug, Clone, PartialEq, Eq)]
pub struct SnapshotPayload {
    pub version: u32,
    /// `(name, entries)` of every replicated keyspace.
    pub keyspaces: Vec<(String, KeyspaceEntries)>,
    /// Names of the ephemeral keyspaces (their records do not travel).
    pub ephemeral_keyspaces: Vec<String>,
}

pub open spec fn entries_seq(e: Seq<(Vec<u8>, Vec<u8>)>) -> Seq<(Seq<u8>, Seq<u8>)> {
    e.map_values(|x: (Vec<u8>, Vec<u8>)| (x.0@, x.1@))
}

pub open spec fn keyspaces_seq(k: Seq<(String, KeyspaceEntries)>) -> Seq<(Seq<char>, Seq<(Seq<u8>, Seq<u8>)>)> {
    k.map_values(|x: (String, KeyspaceEntries)| (x.0@, entries_seq(x.1@)))
}

pub open spec fn names_seq(n: Seq<String>) -> Seq<Seq<char>> {
    n.map_values(|x: String| x@)
}

impl SnapshotPayload {
    pub open spec fn keyspaces_view(&self) -> Seq<(Seq<char>, Seq<(Seq<u8>, Seq<u8>)>)> {
        keyspaces_seq(self.keyspaces@)
    }
}

/// Whether keyspace `n` is node-local (never in a snapshot).
pub open spec fn node_local(n: Seq<char>) -> bool {
    is_node_local_keyspace(encode_utf8(n))
}

/// The replicated keyspaces among `k`, in order.
pub open spec fn replicated(k: Seq<(Seq<char>, Seq<(Seq<u8>, Seq<u8>)>)>) -> Seq<
    (Seq<char>, Seq<(Seq<u8>, Seq<u8>)>),
>
    decreases k.len(),
{
    if k.len() == 0 {
        Seq::empty()
    } else if node_local(k.last().0) {
        replicated(k.drop_last())
    } else {
        replicated(k.drop_last()).push(k.last())
    }
}

/// Builds the payload from the full contents of every Fjall keyspace
/// (`fjall_keyspaces`, as listed) and the ephemeral keyspace names: the
/// node-local keyspaces are left out.
pub fn build_payload(fjall_keyspaces: Vec<(String, KeyspaceEntries)>, ephemeral_names: Vec<String>) -> (r:
    SnapshotPayload)
    ensures
        r.version == SNAPSHOT_FORMAT_VERSION,
        r.keyspaces_view() == replicated(keyspaces_seq(fjall_keyspaces@)),
        r.ephemeral_keyspaces@ == ephemeral_names@,
{
    let ghost all = keyspaces_seq(fjall_keyspaces@);
    let mut kept: Vec<(String, KeyspaceEntries)> = Vec::new();
    let mut input = fjall_keyspaces;
    let ghost total = input@;
    let mut rest: Vec<(String, KeyspaceEntries)> = Vec::new();
    let total_len = input.len();
    assert(total.len() == total_len);
    // Reverse the listing so that popping walks it front to back.
    while input.len() > 0
        invariant
            rest@.len() + input@.len() == total.len(),
            input@ == total.subrange(0, input@.len() as int),
            forall|j: int| 0 <= j < rest@.len() ==> rest@[j] == total[total.len() - 1 - j],
        decreases input.len(),
    {
        let ghost n = input@.len();
        let item = input.pop().unwrap();
        assert(item == total[n - 1]);
        rest.push(item);
        assert(input@ =~= total.subrange(0, input@.len() as int));
    }
    let mut i: usize = 0;
    while rest.len() > 0
        invariant
            total.len() <= usize::MAX,
            i + rest@.len() == total.len(),
            all == keyspaces_seq(total),
            forall|j: int| 0 <= j < rest@.len() ==> rest@[j] == total[total.len() - 1 - j],
            keyspaces_seq(kept@) == replicated(all.subrange(0, i as int)),
        decreases rest.len(),
    {
        let ghost before = kept@;
        let item = rest.pop().unwrap();
        assert(item == total[i as int]);
        let ghost sub = all.subrange(0, i + 1);
        assert(sub.drop_last() =~= all.subrange(0, i as int));
        assert(sub.last() == (item.0@, entries_seq(item.1@)));
        if !check_node_local_keyspace(item.0.as_str().as_bytes()) {
            kept.push(item);
            assert(keyspaces_seq(kept@) =~= keyspaces_seq(before).push(sub.last()));
        }
        i = i + 1;
    }
    assert(all.subrange(0, i as int) =~= all);
    SnapshotPayload { version: SNAPSHOT_FORMAT_VERSION, keyspaces: kept, ephemeral_keyspaces: ephemeral_names }
}


/// ASCII `-`.
pub const ASCII_HYPHEN: u8 = 45;

/// Number of distinct random suffixes a snapshot id draws from.
pub const SNAPSHOT_SUFFIX_RANGE: u64 = 1000;

/// The id of a snapshot: `<leader>-<index>-<suffix>` when the last applied
/// log id is known (as `(rendered leader id, index)`), `--<suffix>` before
/// any log was applied.
pub open spec fn snapshot_id_of(last: Option<(Seq<u8>, u64)>, suffix: u64) -> Seq<u8> {
    match last {
        Some((leader, index)) => leader + seq![ASCII_HYPHEN] + dec_digits(index as nat) + seq![ASCII_HYPHEN]
            + dec_digits(suffix as nat),
        None => seq![ASCII_HYPHEN, ASCII_HYPHEN] + dec_digits(suffix as nat),
    }
}

pub open spec fn last_log_view(last: Option<(&str, u64)>) -> Option<(Seq<u8>, u64)> {
    match last {
        Some((leader, index)) => Some((leader.spec_bytes(), index)),
        None => None,
    }
}

proof fn lemma_digits_ascii(n: nat)
    ensures
        is_ascii_bytes(dec_digits(n)),
{
    lemma_dec_digits_shape(n);
    let d = dec_digits(n);
    assert forall|i: int| 0 <= i < d.len() implies #[trigger] d[i] < 128 by {
        assert(is_digit(d[i]));
    }
}

proof fn lemma_snapshot_id_utf8(last: Option<(Seq<u8>, u64)>, suffix: u64)
    requires
        last matches Some((leader, _)) ==> valid_utf8(leader),
    ensures
        valid_utf8(snapshot_id_of(last, suffix)),
{
    let h = seq![ASCII_HYPHEN];
    assert(is_ascii_bytes(h));
    lemma_ascii_valid_utf8(h);
    lemma_digits_ascii(suffix as nat);
    lemma_ascii_valid_utf8(dec_digits(suffix as nat));
    match last {
        Some((leader, index)) => {
            lemma_digits_ascii(index as nat);
            lemma_ascii_valid_utf8(dec_digits(index as nat));
            valid_utf8_concat(leader, h);
            valid_utf8_concat(leader + h, dec_digits(index as nat));
            valid_utf8_concat(leader + h + dec_digits(index as nat), h);
            valid_utf8_concat(leader + h + dec_digits(index as nat) + h, dec_digits(suffix as nat));
        },
        None => {
            valid_utf8_concat(h, h);
            assert(h + h =~= seq![ASCII_HYPHEN, ASCII_HYPHEN]);
            valid_utf8_concat(h + h, dec_digits(suffix as nat));
        },
    }
}

/// Renders the id of a snapshot from the last applied log id, if any, and
/// the random `suffix`.
pub fn snapshot_id(last: Option<(&str, u64)>, suffix: u64) -> (r: String)
    ensures
        encode_utf8(r@) == snapshot_id_of(last_log_view(last), suffix),
{
    let mut b: Vec<u8> = Vec::new();
    match last {
        Some((leader, index)) => {
            append_bytes(&mut b, leader.as_bytes());
            b.push(ASCII_HYPHEN);
            let d = u64_to_dec(index);
            append_bytes(&mut b, d.as_slice());
            b.push(ASCII_HYPHEN);
        },
        None => {
            b.push(ASCII_HYPHEN);
            b.push(ASCII_HYPHEN);
        },
    }
    let d = u64_to_dec(suffix);
    append_bytes(&mut b, d.as_slice());
    proof {
        assert(b@ =~= snapshot_id_of(last_log_view(last), suffix));
        match last {
            Some((leader, _)) => {
                encode_utf8_valid_utf8(leader@);
            },
            None => {},
        }
        lemma_snapshot_id_utf8(last_log_view(last), suffix);
    }
    match string_from_utf8(b) {
        Some(s) => s,
        None => {
            assert(false);
            String::new()
        },
    }
}


/// A number drawn from `0..bound`.
///
/// Trusted: calls `rand::RngExt::random_range` on the thread-local
/// generator `rand::rng()`. Its documentation states that a value drawn
/// from an exclusive range `low..high` lies in `[low, high)`; it panics
/// only on an empty range, which `bound > 0` rules out. Which value comes
/// back is left open.
#[verifier::external_body]
fn random_below(bound: u64) -> (r: u64)
    requires
        bound > 0,
    ensures
        r < bound,
{
    rand::RngExt::random_range(&mut rand::rng(), 0..bound)
}

/// A fresh id for a snapshot taken at `last`, with a random suffix below
/// `SNAPSHOT_SUFFIX_RANGE`.
pub fn new_snapshot_id(last: Option<(&str, u64)>) -> (r: String)
    ensures
        exists|s: u64| s < SNAPSHOT_SUFFIX_RANGE && encode_utf8(r@) == #[trigger] snapshot_id_of(last_log_view(last), s),
{
    let suffix = random_below(SNAPSHOT_SUFFIX_RANGE);
    snapshot_id(last, suffix)
}


/// Byte-wise lexicographic order, the order of `str` comparison.
pub open spec fn lex_lt(a: Seq<u8>, b: Seq<u8>) -> bool
    decreases a.len(),
{
    if a.len() == 0 {
        b.len() > 0
    } else if b.len() == 0 {
        false
    } else if a[0] != b[0] {
        a[0] < b[0]
    } else {
        lex_lt(a.drop_first(), b.drop_first())
    }
}

proof fn lemma_lex_asym(a: Seq<u8>, b: Seq<u8>)
    ensures
        lex_lt(a, b) ==> !lex_lt(b, a),
    decreases a.len(),
{
    if a.len() > 0 && b.len() > 0 && a[0] == b[0] {
        lemma_lex_asym(a.drop_first(), b.drop_first());
    }
}

proof fn lemma_lex_total(a: Seq<u8>, b: Seq<u8>)
    ensures
        a == b || lex_lt(a, b) || lex_lt(b, a),
    decreases a.len(),
{
    if a.len() == 0 {
        if b.len() == 0 {
            assert(a =~= b);
        }
    } else if b.len() > 0 && a[0] == b[0] {
        lemma_lex_total(a.drop_first(), b.drop_first());
        if a.drop_first() == b.drop_first() {
            assert(a =~= seq![a[0]] + a.drop_first());
            assert(b =~= seq![b[0]] + b.drop_first());
        }
    }
}

proof fn lemma_lex_trans(a: Seq<u8>, b: Seq<u8>, c: Seq<u8>)
    requires
        lex_lt(a, b),
        lex_lt(b, c),
    ensures
        lex_lt(a, c),
    decreases a.len(),
{
    if a.len() > 0 && a[0] == b[0] && b[0] == c[0] {
        lemma_lex_trans(a.drop_first(), b.drop_first(), c.drop_first());
    }
}

/// Whether `a` orders before `b`, byte by byte.
pub fn bytes_lt(a: &[u8], b: &[u8]) -> (r: bool)
    ensures
        r == lex_lt(a@, b@),
{
    let mut i: usize = 0;
    assert(a@.skip(0) =~= a@);
    assert(b@.skip(0) =~= b@);
    while i < a.len() && i < b.len()
        invariant
            i <= a@.len(),
            i <= b@.len(),
            a@.subrange(0, i as int) == b@.subrange(0, i as int),
            lex_lt(a@, b@) == lex_lt(a@.skip(i as int), b@.skip(i as int)),
        decreases a.len() - i,
    {
        let ghost sa = a@.skip(i as int);
        let ghost sb = b@.skip(i as int);
        assert(sa[0] == a@[i as int]);
        assert(sb[0] == b@[i as int]);
        if a[i] != b[i] {
            return a[i] < b[i];
        }
        assert(sa.drop_first() =~= a@.skip(i + 1));
        assert(sb.drop_first() =~= b@.skip(i + 1));
        assert(a@.subrange(0, i + 1) =~= a@.subrange(0, i as int).push(a@[i as int]));
        assert(b@.subrange(0, i + 1) =~= b@.subrange(0, i as int).push(b@[i as int]));
        i = i + 1;
    }
    assert(a@.skip(i as int).len() == 0 || b@.skip(i as int).len() == 0);
    i < b.len()
}

/// Whether the id `names[i]` orders after every other listed id, and
/// strictly after every one listed before it.
pub open spec fn is_latest(names: Seq<String>, i: int) -> bool {
    &&& 0 <= i < names.len()
    &&& forall|j: int| 0 <= j < names.len() ==> !lex_lt(encode_utf8(names[i]@), #[trigger] encode_utf8(names[j]@))
    &&& forall|j: int| 0 <= j < i ==> lex_lt(#[trigger] encode_utf8(names[j]@), encode_utf8(names[i]@))
}

/// The stored snapshot to serve, as an index into the listed snapshot ids
/// (file names): the id that orders last, the first of equal ones. `None`
/// when nothing is stored.
pub fn latest_snapshot_name(names: &Vec<String>) -> (r: Option<usize>)
    ensures
        r is None <==> names@.len() == 0,
        r matches Some(i) ==> is_latest(names@, i as int),
{
    if names.len() == 0 {
        return None;
    }
    let mut best: usize = 0;
    let mut k: usize = 1;
    proof {
        lemma_lex_irrefl(encode_utf8(names@[0]@));
    }
    while k < names.len()
        invariant
            1 <= k <= names@.len(),
            best < k,
            forall|j: int| 0 <= j < k ==> !lex_lt(encode_utf8(names@[best as int]@), #[trigger] encode_utf8(names@[j]@)),
            forall|j: int| 0 <= j < best ==> lex_lt(#[trigger] encode_utf8(names@[j]@), encode_utf8(names@[best as int]@)),
        decreases names.len() - k,
    {
        let ghost b = encode_utf8(names@[best as int]@);
        let ghost c = encode_utf8(names@[k as int]@);
        if bytes_lt(names[best].as_str().as_bytes(), names[k].as_str().as_bytes()) {
            proof {
                assert forall|j: int| 0 <= j < k implies lex_lt(#[trigger] encode_utf8(names@[j]@), c) by {
                    let a = encode_utf8(names@[j]@);
                    lemma_lex_total(a, b);
                    if a != b {
                        if lex_lt(a, b) {
                            lemma_lex_trans(a, b, c);
                        }
                    }
                }
                assert forall|j: int| 0 <= j < k + 1 implies !lex_lt(c, #[trigger] encode_utf8(names@[j]@)) by {
                    if j < k {
                        lemma_lex_asym(encode_utf8(names@[j]@), c);
                    } else {
                        lemma_lex_asym(c, c);
                        lemma_lex_irrefl(c);
                    }
                }
            }
            best = k;
        }
        k = k + 1;
    }
    Some(best)
}

proof fn lemma_lex_irrefl(a: Seq<u8>)
    ensures
        !lex_lt(a, a),
    decreases a.len(),
{
    if a.len() > 0 {
        lemma_lex_irrefl(a.drop_first());
    }
}

/// Refuses a payload of another format version.
pub fn check_payload_version(p: &SnapshotPayload) -> (r: Result<(), StoreError>)
    ensures
        r is Ok <==> p.version == SNAPSHOT_FORMAT_VERSION,
        r matches Err(e) ==> e == StoreError::UnsupportedSnapshotVersion(p.version),
{
    if p.version != SNAPSHOT_FORMAT_VERSION {
        Err(StoreError::UnsupportedSnapshotVersion(p.version))
    } else {
        Ok(())
    }
}

/// The replicated keyspaces an install rewrites: every replicated keyspace
/// the node has (`existing`) and every one the payload names, each once.
pub open spec fn touched_set(existing: Seq<Seq<char>>, p: Seq<(Seq<char>, Seq<(Seq<u8>, Seq<u8>)>)>) -> Set<
    Seq<char>,
> {
    Set::new(
        |n: Seq<char>|
            !node_local(n) && (existing.contains(n) || exists|j: int| 0 <= j < p.len() && p[j].0 == n),
    )
}

fn contains_name(v: &Vec<String>, n: &String) -> (r: bool)
    ensures
        r == names_seq(v@).contains(n@),
{
    let mut i: usize = 0;
    while i < v.len()
        invariant
            i <= v@.len(),
            forall|j: int| 0 <= j < i ==> v@[j]@ != n@,
        decreases v.len() - i,
    {
        if v[i] == *n {
            assert(names_seq(v@)[i as int] == n@);
            return true;
        }
        i = i + 1;
    }
    assert forall|j: int| 0 <= j < names_seq(v@).len() implies names_seq(v@)[j] != n@ by {
        assert(names_seq(v@)[j] == v@[j]@);
    }
    false
}

/// The replicated keyspaces an install rewrites, each once.
pub fn touched_keyspaces(existing: &Vec<String>, p: &SnapshotPayload) -> (r: Vec<String>)
    ensures
        names_seq(r@).to_set() == touched_set(names_seq(existing@), p.keyspaces_view()),
        names_seq(r@).no_duplicates(),
{
    let ghost target = touched_set(names_seq(existing@), p.keyspaces_view());
    let mut out: Vec<String> = Vec::new();
    let mut i: usize = 0;
    while i < existing.len()
        invariant
            i <= existing@.len(),
            names_seq(out@).no_duplicates(),
            forall|n: Seq<char>|
                #[trigger] names_seq(out@).contains(n) <==> (!node_local(n) && names_seq(existing@).subrange(
                    0,
                    i as int,
                ).contains(n)),
        decreases existing.len() - i,
    {
        let n = &existing[i];
        let ghost before = out@;
        let ghost e0 = names_seq(existing@).subrange(0, i as int);
        let local = check_node_local_keyspace(n.as_str().as_bytes());
        let present = contains_name(&out, n);
        if !local && !present {
            out.push(n.clone());
            proof {
                assert(names_seq(out@) =~= names_seq(before).push(n@));
                lemma_push_no_dup(names_seq(before), n@);
            }
        }
        proof {
            assert(names_seq(existing@)[i as int] == n@);
            assert(names_seq(existing@).subrange(0, i + 1) =~= e0.push(n@));
            assert(local == node_local(n@));
            assert(present == names_seq(before).contains(n@));
            assert forall|x: Seq<char>|
                #[trigger] names_seq(out@).contains(x) <==> (!node_local(x) && names_seq(existing@).subrange(
                    0,
                    i + 1,
                ).contains(x)) by {
                assert(names_seq(before).contains(x) <==> (!node_local(x) && e0.contains(x)));
                lemma_push_contains(e0, n@, x);
                lemma_push_contains(names_seq(before), n@, x);
                if !local && !present {
                    assert(names_seq(out@) == names_seq(before).push(n@));
                } else {
                    assert(names_seq(out@) == names_seq(before));
                }
            }
        }
        i = i + 1;
    }
    assert(names_seq(existing@).subrange(0, i as int) =~= names_seq(existing@));
    let ghost pk = p.keyspaces_view();
    let mut j: usize = 0;
    while j < p.keyspaces.len()
        invariant
            j <= p.keyspaces@.len(),
            pk == p.keyspaces_view(),
            pk.len() == p.keyspaces@.len(),
            names_seq(out@).no_duplicates(),
            forall|n: Seq<char>|
                #[trigger] names_seq(out@).contains(n) <==> (!node_local(n) && (names_seq(existing@).contains(n)
                    || exists|a: int| 0 <= a < j && pk[a].0 == n)),
        decreases p.keyspaces.len() - j,
    {
        let n = &p.keyspaces[j].0;
        assert(pk[j as int].0 == n@);
        let ghost before = out@;
        let local = check_node_local_keyspace(n.as_str().as_bytes());
        let present = contains_name(&out, n);
        if !local && !present {
            out.push(n.clone());
            proof {
                assert(names_seq(out@) =~= names_seq(before).push(n@));
                lemma_push_no_dup(names_seq(before), n@);
            }
        }
        proof {
            assert(local == node_local(n@));
            assert(present == names_seq(before).contains(n@));
            assert forall|x: Seq<char>|
                #[trigger] names_seq(out@).contains(x) <==> (!node_local(x) && (names_seq(existing@).contains(x)
                    || exists|a: int| 0 <= a < j + 1 && pk[a].0 == x)) by {
                assert(names_seq(before).contains(x) <==> (!node_local(x) && (names_seq(existing@).contains(x)
                    || exists|a: int| 0 <= a < j && pk[a].0 == x)));
                lemma_push_contains(names_seq(before), n@, x);
                if !local && !present {
                    assert(names_seq(out@) == names_seq(before).push(n@));
                } else {
                    assert(names_seq(out@) == names_seq(before));
                }
                if exists|a: int| 0 <= a < j + 1 && pk[a].0 == x {
                    let a = choose|a: int| 0 <= a < j + 1 && pk[a].0 == x;
                    if a < j {
                        assert(exists|b: int| 0 <= b < j && pk[b].0 == x);
                    }
                }
                if x == n@ {
                    assert(pk[j as int].0 == x);
                }
            }
        }
        j = j + 1;
    }
    assert forall|x: Seq<char>| names_seq(out@).to_set().contains(x) <==> target.contains(x) by {
        assert(names_seq(out@).contains(x) <==> (!node_local(x) && (names_seq(existing@).contains(x) || exists|a: int|
            0 <= a < j && pk[a].0 == x)));
        if target.contains(x) {
            assert(!node_local(x) && (names_seq(existing@).contains(x) || exists|a: int|
                0 <= a < pk.len() && pk[a].0 == x));
        }
    }
    assert(names_seq(out@).to_set() =~= target);
    out
}

proof fn lemma_push_contains<A>(s: Seq<A>, y: A, x: A)
    ensures
        s.push(y).contains(x) <==> (s.contains(x) || x == y),
{
    if s.push(y).contains(x) {
        let j = choose|j: int| 0 <= j < s.push(y).len() && s.push(y)[j] == x;
        if j < s.len() {
            assert(s[j] == x);
        }
    }
    if s.contains(x) {
        let j = choose|j: int| 0 <= j < s.len() && s[j] == x;
        assert(s.push(y)[j] == x);
    }
    if x == y {
        assert(s.push(y)[s.len() as int] == x);
    }
}

proof fn lemma_push_no_dup<A>(s: Seq<A>, y: A)
    requires
        s.no_duplicates(),
        !s.contains(y),
    ensures
        s.push(y).no_duplicates(),
{
    let t = s.push(y);
    assert forall|a: int, b: int| 0 <= a < t.len() && 0 <= b < t.len() && a != b implies t[a] != t[b] by {
        if a < s.len() && b < s.len() {
            assert(t[a] == s[a] && t[b] == s[b]);
        } else if a < s.len() {
            assert(t[a] == s[a]);
        } else if b < s.len() {
            assert(t[b] == s[b]);
        }
    }
}

/// The removals that empty each touched keyspace: `(name, current keys)`.
pub open spec fn removal_ops(t: Seq<(Seq<char>, Seq<Seq<u8>>)>) -> Seq<BatchOpView>
    decreases t.len(),
{
    if t.len() == 0 {
        Seq::empty()
    } else {
        removal_ops(t.drop_last()) + t.last().1.map_values(
            |k: Seq<u8>| BatchOpView::Remove(TargetView::Keyspace(t.last().0), k),
        )
    }
}

/// The insertions of every replicated keyspace's entries.
pub open spec fn insertion_ops(p: Seq<(Seq<char>, Seq<(Seq<u8>, Seq<u8>)>)>) -> Seq<BatchOpView>
    decreases p.len(),
{
    if p.len() == 0 {
        Seq::empty()
    } else if node_local(p.last().0) {
        insertion_ops(p.drop_last())
    } else {
        insertion_ops(p.drop_last()) + p.last().1.map_values(
            |e: (Seq<u8>, Seq<u8>)| BatchOpView::Insert(TargetView::Keyspace(p.last().0), e.0, e.1),
        )
    }
}

pub open spec fn touched_seq(t: Seq<(String, Vec<Vec<u8>>)>) -> Seq<(Seq<char>, Seq<Seq<u8>>)> {
    t.map_values(|x: (String, Vec<Vec<u8>>)| (x.0@, x.1@.map_values(|k: Vec<u8>| k@)))
}

/// The writes of an install: first remove every current key of each touched
/// keyspace (`touched`: name and current keys), then insert every entry of
/// each replicated keyspace of the payload.
pub fn install_batch(touched: &Vec<(String, Vec<Vec<u8>>)>, p: &SnapshotPayload) -> (r: Vec<BatchOp>)
    ensures
        batch_view(r@) == removal_ops(touched_seq(touched@)) + insertion_ops(p.keyspaces_view()),
{
    let mut out: Vec<BatchOp> = Vec::new();
    let ghost ts = touched_seq(touched@);
    let mut i: usize = 0;
    while i < touched.len()
        invariant
            i <= touched@.len(),
            ts == touched_seq(touched@),
            batch_view(out@) == removal_ops(ts.subrange(0, i as int)),
        decreases touched.len() - i,
    {
        let name = &touched[i].0;
        let keys = &touched[i].1;
        let ghost base = out@;
        let ghost kv = keys@.map_values(|k: Vec<u8>| k@);
        let mut j: usize = 0;
        while j < keys.len()
            invariant
                j <= keys@.len(),
                kv == keys@.map_values(|k: Vec<u8>| k@),
                batch_view(out@) == batch_view(base) + kv.subrange(0, j as int).map_values(
                    |k: Seq<u8>| BatchOpView::Remove(TargetView::Keyspace(name@), k),
                ),
            decreases keys.len() - j,
        {
            let ghost pre = out@;
            out.push(BatchOp::Remove { target: Target::Keyspace(name.clone()), key: copy_bytes(keys[j].as_slice()) });
            assert(batch_view(out@) =~= batch_view(base) + kv.subrange(0, j + 1).map_values(
                |k: Seq<u8>| BatchOpView::Remove(TargetView::Keyspace(name@), k),
            )) by {
                assert(batch_view(out@) =~= batch_view(pre).push(
                    BatchOpView::Remove(TargetView::Keyspace(name@), kv[j as int]),
                ));
            }
            j = j + 1;
        }
        proof {
            let sub = ts.subrange(0, i + 1);
            assert(sub.drop_last() =~= ts.subrange(0, i as int));
            assert(sub.last() == (name@, kv));
            assert(kv.subrange(0, j as int) =~= kv);
        }
        i = i + 1;
    }
    assert(ts.subrange(0, i as int) =~= ts);
    let ghost mid = out@;
    let ghost pk = p.keyspaces_view();
    let mut a: usize = 0;
    while a < p.keyspaces.len()
        invariant
            a <= p.keyspaces@.len(),
            pk == p.keyspaces_view(),
            pk.len() == p.keyspaces@.len(),
            batch_view(out@) == batch_view(mid) + insertion_ops(pk.subrange(0, a as int)),
        decreases p.keyspaces.len() - a,
    {
        let name = &p.keyspaces[a].0;
        let entries = &p.keyspaces[a].1;
        let ghost ev = entries_seq(entries@);
        assert(pk[a as int] == (name@, ev));
        let ghost sub = pk.subrange(0, a + 1);
        assert(sub.drop_last() =~= pk.subrange(0, a as int));
        if !check_node_local_keyspace(name.as_str().as_bytes()) {
            let ghost base = out@;
            let mut j: usize = 0;
            while j < entries.len()
                invariant
                    j <= entries@.len(),
                    ev == entries_seq(entries@),
                    batch_view(out@) == batch_view(base) + ev.subrange(0, j as int).map_values(
                        |e: (Seq<u8>, Seq<u8>)| BatchOpView::Insert(TargetView::Keyspace(name@), e.0, e.1),
                    ),
                decreases entries.len() - j,
            {
                let ghost pre = out@;
                out.push(
                    BatchOp::Insert {
                        target: Target::Keyspace(name.clone()),
                        key: copy_bytes(entries[j].0.as_slice()),
                        value: copy_bytes(entries[j].1.as_slice()),
                    },
                );
                assert(batch_view(out@) =~= batch_view(base) + ev.subrange(0, j + 1).map_values(
                    |e: (Seq<u8>, Seq<u8>)| BatchOpView::Insert(TargetView::Keyspace(name@), e.0, e.1),
                )) by {
                    assert(batch_view(out@) =~= batch_view(pre).push(
                        BatchOpView::Insert(TargetView::Keyspace(name@), ev[j as int].0, ev[j as int].1),
                    ));
                }
                j = j + 1;
            }
            assert(ev.subrange(0, j as int) =~= ev);
        }
        a = a + 1;
    }
    assert(pk.subrange(0, a as int) =~= pk);
    out
}

/// Contents of the named keyspaces of a Fjall database.
pub type DbView = Map<Seq<char>, Map<Seq<u8>, Seq<u8>>>;

pub open spec fn ks_of(db: DbView, n: Seq<char>) -> Map<Seq<u8>, Seq<u8>> {
    if db.contains_key(n) {
        db[n]
    } else {
        Map::empty()
    }
}

/// The database after the keyspace writes of `ops` (writes to `meta` and
/// `index` are not modelled here).
pub open spec fn apply_keyspace_ops(db: DbView, ops: Seq<BatchOpView>) -> DbView
    decreases ops.len(),
{
    if ops.len() == 0 {
        db
    } else {
        let d = apply_keyspace_ops(db, ops.drop_last());
        match ops.last() {
            BatchOpView::Insert(TargetView::Keyspace(n), k, v) => d.insert(n, ks_of(d, n).insert(k, v)),
            BatchOpView::Remove(TargetView::Keyspace(n), k) => d.insert(n, ks_of(d, n).remove(k)),
            _ => d,
        }
    }
}

/// `m` with the entries `e` written in order.
pub open spec fn insert_all(m: Map<Seq<u8>, Seq<u8>>, e: Seq<(Seq<u8>, Seq<u8>)>) -> Map<Seq<u8>, Seq<u8>>
    decreases e.len(),
{
    if e.len() == 0 {
        m
    } else {
        insert_all(m, e.drop_last()).insert(e.last().0, e.last().1)
    }
}

/// `start` with every entry the payload carries for keyspace `n` written
/// in order.
pub open spec fn payload_fold(start: Map<Seq<u8>, Seq<u8>>, p: Seq<(Seq<char>, Seq<(Seq<u8>, Seq<u8>)>)>, n: Seq<
    char,
>) -> Map<Seq<u8>, Seq<u8>>
    decreases p.len(),
{
    if p.len() == 0 {
        start
    } else {
        let m = payload_fold(start, p.drop_last(), n);
        if p.last().0 == n && !node_local(n) {
            insert_all(m, p.last().1)
        } else {
            m
        }
    }
}

/// What keyspace `n` holds once the payload is installed.
pub open spec fn payload_contents(p: Seq<(Seq<char>, Seq<(Seq<u8>, Seq<u8>)>)>, n: Seq<char>) -> Map<Seq<u8>, Seq<u8>> {
    payload_fold(Map::empty(), p, n)
}

proof fn lemma_apply_concat(db: DbView, a: Seq<BatchOpView>, b: Seq<BatchOpView>)
    ensures
        apply_keyspace_ops(db, a + b) == apply_keyspace_ops(apply_keyspace_ops(db, a), b),
    decreases b.len(),
{
    if b.len() == 0 {
        assert(a + b =~= a);
    } else {
        assert((a + b).drop_last() =~= a + b.drop_last());
        assert((a + b).last() == b.last());
        lemma_apply_concat(db, a, b.drop_last());
    }
}

proof fn lemma_remove_keys(d: DbView, n: Seq<char>, keys: Seq<Seq<u8>>)
    ensures
        ({
            let r = apply_keyspace_ops(d, keys.map_values(|k: Seq<u8>| BatchOpView::Remove(TargetView::Keyspace(n), k)));
            &&& ks_of(r, n) == ks_of(d, n).remove_keys(keys.to_set())
            &&& forall|m: Seq<char>| m != n ==> #[trigger] ks_of(r, m) == ks_of(d, m)
        }),
    decreases keys.len(),
{
    let ops = keys.map_values(|k: Seq<u8>| BatchOpView::Remove(TargetView::Keyspace(n), k));
    if keys.len() == 0 {
        assert(ops.len() == 0);
        assert(keys.to_set() =~= Set::<Seq<u8>>::empty());
        assert(ks_of(d, n).remove_keys(keys.to_set()) =~= ks_of(d, n));
    } else {
        let pre = keys.drop_last();
        lemma_remove_keys(d, n, pre);
        assert(ops.drop_last() =~= pre.map_values(|k: Seq<u8>| BatchOpView::Remove(TargetView::Keyspace(n), k)));
        assert(ops.last() == BatchOpView::Remove(TargetView::Keyspace(n), keys.last()));
        assert(keys.to_set() =~= pre.to_set().insert(keys.last())) by {
            assert forall|x: Seq<u8>| keys.to_set().contains(x) <==> pre.to_set().insert(keys.last()).contains(x) by {
                if keys.contains(x) {
                    let j = choose|j: int| 0 <= j < keys.len() && keys[j] == x;
                    if j < pre.len() {
                        assert(pre[j] == x);
                    }
                }
                if pre.contains(x) {
                    let j = choose|j: int| 0 <= j < pre.len() && pre[j] == x;
                    assert(keys[j] == x);
                }
                if x == keys.last() {
                    assert(keys[keys.len() - 1] == x);
                }
            }
        }
        let r = apply_keyspace_ops(d, ops);
        let d1 = apply_keyspace_ops(d, ops.drop_last());
        assert(r == d1.insert(n, ks_of(d1, n).remove(keys.last())));
        assert(ks_of(r, n) =~= ks_of(d, n).remove_keys(keys.to_set()));
        assert forall|m: Seq<char>| m != n implies #[trigger] ks_of(r, m) == ks_of(d, m) by {
            assert(ks_of(r, m) == ks_of(d1, m));
        }
    }
}

/// Emptying every touched keyspace leaves the others as they were.
proof fn lemma_removal_phase(db: DbView, t: Seq<(Seq<char>, Seq<Seq<u8>>)>)
    requires
        forall|i: int| 0 <= i < t.len() ==> t[i].1.to_set() == #[trigger] ks_of(db, t[i].0).dom(),
        forall|i: int, j: int| 0 <= i < j < t.len() ==> t[i].0 != t[j].0,
    ensures
        forall|i: int| 0 <= i < t.len() ==> #[trigger] ks_of(apply_keyspace_ops(db, removal_ops(t)), t[i].0)
            == Map::<Seq<u8>, Seq<u8>>::empty(),
        forall|m: Seq<char>|
            (forall|i: int| 0 <= i < t.len() ==> t[i].0 != m) ==> #[trigger] ks_of(
                apply_keyspace_ops(db, removal_ops(t)),
                m,
            ) == ks_of(db, m),
    decreases t.len(),
{
    if t.len() > 0 {
        let pre = t.drop_last();
        let (n, keys) = t.last();
        assert forall|i: int| 0 <= i < pre.len() implies pre[i].1.to_set() == #[trigger] ks_of(db, pre[i].0).dom() by {
            assert(pre[i] == t[i]);
        }
        lemma_removal_phase(db, pre);
        let d1 = apply_keyspace_ops(db, removal_ops(pre));
        let rm = keys.map_values(|k: Seq<u8>| BatchOpView::Remove(TargetView::Keyspace(n), k));
        lemma_apply_concat(db, removal_ops(pre), rm);
        lemma_remove_keys(d1, n, keys);
        assert forall|i: int| 0 <= i < pre.len() implies pre[i].0 != n by {
            assert(pre[i] == t[i]);
        }
        assert(ks_of(d1, n) == ks_of(db, n));
        assert(ks_of(db, n).remove_keys(keys.to_set()) =~= Map::<Seq<u8>, Seq<u8>>::empty());
        let d2 = apply_keyspace_ops(db, removal_ops(t));
        assert forall|i: int| 0 <= i < t.len() implies #[trigger] ks_of(d2, t[i].0) == Map::<Seq<u8>, Seq<u8>>::empty() by {
            if i < pre.len() {
                assert(pre[i] == t[i]);
                assert(t[i].0 != n);
            }
        }
        assert forall|m: Seq<char>| (forall|i: int| 0 <= i < t.len() ==> t[i].0 != m) implies #[trigger] ks_of(d2, m)
            == ks_of(db, m) by {
            assert(t[t.len() - 1].0 != m);
            assert forall|i: int| 0 <= i < pre.len() implies pre[i].0 != m by {
                assert(pre[i] == t[i]);
            }
        }
    }
}

proof fn lemma_insert_entries(d: DbView, n: Seq<char>, e: Seq<(Seq<u8>, Seq<u8>)>)
    ensures
        ({
            let r = apply_keyspace_ops(
                d,
                e.map_values(|x: (Seq<u8>, Seq<u8>)| BatchOpView::Insert(TargetView::Keyspace(n), x.0, x.1)),
            );
            &&& ks_of(r, n) == insert_all(ks_of(d, n), e)
            &&& forall|m: Seq<char>| m != n ==> #[trigger] ks_of(r, m) == ks_of(d, m)
        }),
    decreases e.len(),
{
    let ops = e.map_values(|x: (Seq<u8>, Seq<u8>)| BatchOpView::Insert(TargetView::Keyspace(n), x.0, x.1));
    if e.len() > 0 {
        let pre = e.drop_last();
        lemma_insert_entries(d, n, pre);
        assert(ops.drop_last() =~= pre.map_values(
            |x: (Seq<u8>, Seq<u8>)| BatchOpView::Insert(TargetView::Keyspace(n), x.0, x.1),
        ));
        assert(ops.last() == BatchOpView::Insert(TargetView::Keyspace(n), e.last().0, e.last().1));
        let r = apply_keyspace_ops(d, ops);
        let d1 = apply_keyspace_ops(d, ops.drop_last());
        assert(r == d1.insert(n, ks_of(d1, n).insert(e.last().0, e.last().1)));
        assert forall|m: Seq<char>| m != n implies #[trigger] ks_of(r, m) == ks_of(d, m) by {
            assert(ks_of(r, m) == ks_of(d1, m));
        }
    } else {
        assert(ops.len() == 0);
    }
}

/// Writing the payload's entries adds, to each keyspace, exactly what the
/// payload carries for it.
proof fn lemma_insertion_phase(d: DbView, p: Seq<(Seq<char>, Seq<(Seq<u8>, Seq<u8>)>)>, n: Seq<char>)
    ensures
        ks_of(apply_keyspace_ops(d, insertion_ops(p)), n) == payload_fold(ks_of(d, n), p, n),
    decreases p.len(),
{
    if p.len() > 0 {
        let pre = p.drop_last();
        lemma_insertion_phase(d, pre, n);
        let (m, e) = p.last();
        if !node_local(m) {
            let ins = e.map_values(|x: (Seq<u8>, Seq<u8>)| BatchOpView::Insert(TargetView::Keyspace(m), x.0, x.1));
            lemma_apply_concat(d, insertion_ops(pre), ins);
            lemma_insert_entries(apply_keyspace_ops(d, insertion_ops(pre)), m, e);
        }
    }
}

proof fn lemma_payload_fold_absent(start: Map<Seq<u8>, Seq<u8>>, p: Seq<(Seq<char>, Seq<(Seq<u8>, Seq<u8>)>)>, n: Seq<char>)
    requires
        node_local(n) || forall|j: int| 0 <= j < p.len() ==> p[j].0 != n,
    ensures
        payload_fold(start, p, n) == start,
    decreases p.len(),
{
    if p.len() > 0 {
        assert forall|j: int| 0 <= j < p.drop_last().len() implies p.drop_last()[j].0 != n || node_local(n) by {
            assert(p.drop_last()[j] == p[j]);
        }
        if !node_local(n) {
            assert(p[p.len() - 1].0 != n);
        }
        lemma_payload_fold_absent(start, p.drop_last(), n);
    }
}

/// Installing a snapshot replaces every replicated keyspace: given the
/// touched keyspaces each listed once with exactly its current keys, and
/// every keyspace the payload carries among them, each touched keyspace
/// ends up holding exactly what the payload carries for it (nothing, for a
/// keyspace the payload no longer carries), and every other keyspace is
/// left as it was.
pub proof fn law_install_replaces_keyspaces(
    db: DbView,
    t: Seq<(Seq<char>, Seq<Seq<u8>>)>,
    p: Seq<(Seq<char>, Seq<(Seq<u8>, Seq<u8>)>)>,
)
    requires
        forall|i: int| 0 <= i < t.len() ==> t[i].1.to_set() == #[trigger] ks_of(db, t[i].0).dom(),
        forall|i: int, j: int| 0 <= i < j < t.len() ==> t[i].0 != t[j].0,
        forall|j: int|
            0 <= j < p.len() && !node_local(#[trigger] p[j].0) ==> exists|i: int| 0 <= i < t.len() && t[i].0 == p[j].0,
    ensures
        forall|i: int|
            0 <= i < t.len() ==> #[trigger] ks_of(apply_keyspace_ops(db, removal_ops(t) + insertion_ops(p)), t[i].0)
                == payload_contents(p, t[i].0),
        forall|m: Seq<char>|
            (forall|i: int| 0 <= i < t.len() ==> t[i].0 != m) ==> #[trigger] ks_of(
                apply_keyspace_ops(db, removal_ops(t) + insertion_ops(p)),
                m,
            ) == ks_of(db, m),
{
    lemma_removal_phase(db, t);
    let d1 = apply_keyspace_ops(db, removal_ops(t));
    lemma_apply_concat(db, removal_ops(t), insertion_ops(p));
    assert forall|i: int| 0 <= i < t.len() implies #[trigger] ks_of(
        apply_keyspace_ops(db, removal_ops(t) + insertion_ops(p)),
        t[i].0,
    ) == payload_contents(p, t[i].0) by {
        lemma_insertion_phase(d1, p, t[i].0);
    }
    assert forall|m: Seq<char>| (forall|i: int| 0 <= i < t.len() ==> t[i].0 != m) implies #[trigger] ks_of(
        apply_keyspace_ops(db, removal_ops(t) + insertion_ops(p)),
        m,
    ) == ks_of(db, m) by {
        lemma_insertion_phase(d1, p, m);
        if !node_local(m) {
            assert forall|j: int| 0 <= j < p.len() implies p[j].0 != m by {
                if p[j].0 == m {
                    let i = choose|i: int| 0 <= i < t.len() && t[i].0 == p[j].0;
                }
            }
        }
        lemma_payload_fold_absent(ks_of(d1, m), p, m);
    }
}

/// A snapshot built from a dump of the database carries each replicated
/// keyspace's contents: when the dump lists each keyspace once with entries
/// that read back as its contents, the payload reads back the same for
/// every replicated keyspace it names.
pub proof fn law_built_payload_carries_contents(db: DbView, dump: Seq<(Seq<char>, Seq<(Seq<u8>, Seq<u8>)>)>, i: int)
    requires
        0 <= i < dump.len(),
        !node_local(dump[i].0),
        forall|a: int, b: int| 0 <= a < b < dump.len() ==> dump[a].0 != dump[b].0,
        insert_all(Map::empty(), dump[i].1) == ks_of(db, dump[i].0),
    ensures
        payload_contents(replicated(dump), dump[i].0) == ks_of(db, dump[i].0),
    decreases dump.len(),
{
    let n = dump[i].0;
    lemma_payload_replicated(dump, n);
    if i == dump.len() - 1 {
        assert forall|j: int| 0 <= j < dump.drop_last().len() implies dump.drop_last()[j].0 != n by {
            assert(dump.drop_last()[j] == dump[j]);
        }
        lemma_payload_fold_absent(Map::empty(), dump.drop_last(), n);
    } else {
        let pre = dump.drop_last();
        assert(pre[i] == dump[i]);
        assert forall|a: int, b: int| 0 <= a < b < pre.len() implies pre[a].0 != pre[b].0 by {
            assert(pre[a] == dump[a] && pre[b] == dump[b]);
        }
        law_built_payload_carries_contents(db, pre, i);
        lemma_payload_replicated(pre, n);
        assert(dump.last().0 != n);
    }
}

/// Reading a keyspace back from the replicated part of a listing is the same
/// as reading it from the whole listing.
proof fn lemma_payload_replicated(k: Seq<(Seq<char>, Seq<(Seq<u8>, Seq<u8>)>)>, n: Seq<char>)
    ensures
        payload_contents(replicated(k), n) == payload_contents(k, n),
    decreases k.len(),
{
    if k.len() > 0 {
        lemma_payload_replicated(k.drop_last(), n);
        if !node_local(k.last().0) {
            assert(replicated(k).drop_last() =~= replicated(k.drop_last()));
            assert(replicated(k).last() == k.last());
        }
    }
}


proof fn lemma_replicated_has(k: Seq<(Seq<char>, Seq<(Seq<u8>, Seq<u8>)>)>, a: int)
    requires
        0 <= a < k.len(),
        !node_local(k[a].0),
    ensures
        exists|j: int| 0 <= j < replicated(k).len() && #[trigger] replicated(k)[j].0 == k[a].0,
    decreases k.len(),
{
    if a == k.len() - 1 {
        let j = replicated(k).len() - 1;
        assert(replicated(k)[j] == k.last());
    } else {
        let pre = k.drop_last();
        assert(pre[a] == k[a]);
        lemma_replicated_has(pre, a);
        let j = choose|j: int| 0 <= j < replicated(pre).len() && #[trigger] replicated(pre)[j].0 == pre[a].0;
        if node_local(k.last().0) {
            assert(replicated(k) == replicated(pre));
        } else {
            assert(replicated(k) == replicated(pre).push(k.last()));
            assert(replicated(k)[j] == replicated(pre)[j]);
        }
    }
}

/// Snapshot round trip, over every keyspace: a follower in any state that
/// installs the payload a leader built from a dump of its database ends up
/// with each replicated keyspace holding exactly what the leader's holds
/// (nothing, for one the leader does not have, however much the follower
/// held), and its node-local keyspaces untouched.
///
/// The premises are what the install is handed: the leader's dump lists
/// each of its keyspaces once with its contents (what a point-in-time read
/// of the database gives), `existing` lists the follower's keyspaces, `t`
/// lists the keyspaces `touched_keyspaces` returns, each with the keys the
/// follower holds in it, and the writes are those `install_batch` returns.
pub proof fn law_snapshot_round_trip(
    leader: DbView,
    dump: Seq<(Seq<char>, Seq<(Seq<u8>, Seq<u8>)>)>,
    follower: DbView,
    existing: Seq<Seq<char>>,
    t: Seq<(Seq<char>, Seq<Seq<u8>>)>,
)
    requires
        forall|a: int, b: int| 0 <= a < b < dump.len() ==> dump[a].0 != dump[b].0,
        forall|a: int| 0 <= a < dump.len() ==> insert_all(Map::empty(), #[trigger] dump[a].1) == ks_of(leader, dump[a].0),
        forall|n: Seq<char>| #[trigger] leader.contains_key(n) ==> exists|a: int| 0 <= a < dump.len() && dump[a].0 == n,
        existing.to_set() == follower.dom(),
        t.map_values(|x: (Seq<char>, Seq<Seq<u8>>)| x.0).to_set() == touched_set(existing, replicated(dump)),
        forall|a: int, b: int| 0 <= a < b < t.len() ==> t[a].0 != t[b].0,
        forall|a: int| 0 <= a < t.len() ==> t[a].1.to_set() == #[trigger] ks_of(follower, t[a].0).dom(),
    ensures
        forall|n: Seq<char>|
            !node_local(n) ==> #[trigger] ks_of(
                apply_keyspace_ops(follower, removal_ops(t) + insertion_ops(replicated(dump))),
                n,
            ) == ks_of(leader, n),
        forall|n: Seq<char>|
            node_local(n) ==> #[trigger] ks_of(
                apply_keyspace_ops(follower, removal_ops(t) + insertion_ops(replicated(dump))),
                n,
            ) == ks_of(follower, n),
{
    let p = replicated(dump);
    let names = t.map_values(|x: (Seq<char>, Seq<Seq<u8>>)| x.0);
    let result = apply_keyspace_ops(follower, removal_ops(t) + insertion_ops(p));
    assert forall|j: int| 0 <= j < p.len() && !node_local(#[trigger] p[j].0) implies exists|a: int|
        0 <= a < t.len() && t[a].0 == p[j].0 by {
        assert(touched_set(existing, p).contains(p[j].0));
        assert(names.to_set().contains(p[j].0));
        assert(names.contains(p[j].0));
        let a = choose|a: int| 0 <= a < names.len() && names[a] == p[j].0;
        assert(t[a].0 == names[a]);
    }
    law_install_replaces_keyspaces(follower, t, p);
    assert forall|n: Seq<char>| !node_local(n) implies #[trigger] ks_of(result, n) == ks_of(leader, n) by {
        let in_dump = exists|a: int| 0 <= a < dump.len() && dump[a].0 == n;
        if in_dump {
            let k = choose|a: int| 0 <= a < dump.len() && dump[a].0 == n;
            law_built_payload_carries_contents(leader, dump, k);
            lemma_replicated_has(dump, k);
            let j = choose|j: int| 0 <= j < p.len() && #[trigger] p[j].0 == dump[k].0;
            let a = choose|a: int| 0 <= a < t.len() && t[a].0 == p[j].0;
            assert(ks_of(result, t[a].0) == payload_contents(p, t[a].0));
        } else {
            assert(!leader.contains_key(n));
            assert(ks_of(leader, n) == Map::<Seq<u8>, Seq<u8>>::empty());
            lemma_payload_replicated(dump, n);
            lemma_payload_fold_absent(Map::empty(), dump, n);
            if exists|a: int| 0 <= a < t.len() && t[a].0 == n {
                let a = choose|a: int| 0 <= a < t.len() && t[a].0 == n;
                assert(ks_of(result, t[a].0) == payload_contents(p, t[a].0));
            } else {
                assert(ks_of(result, n) == ks_of(follower, n));
                if follower.contains_key(n) {
                    assert(existing.to_set().contains(n));
                    assert(touched_set(existing, p).contains(n));
                    assert(names.to_set().contains(n));
                    assert(names.contains(n));
                    let a = choose|a: int| 0 <= a < names.len() && names[a] == n;
                    assert(t[a].0 == names[a]);
                }
                assert(ks_of(follower, n) =~= Map::<Seq<u8>, Seq<u8>>::empty());
            }
        }
    }
    assert forall|n: Seq<char>| node_local(n) implies #[trigger] ks_of(result, n) == ks_of(follower, n) by {
        assert forall|a: int| 0 <= a < t.len() implies t[a].0 != n by {
            assert(names[a] == t[a].0);
            assert(names.contains(names[a]));
            assert(names.to_set().contains(names[a]));
        }
    }
}

} // verus!
