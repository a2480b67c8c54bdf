//! Per-partition tracking of GCM tag-verification failures with automatic
//! quarantine.
//!
//! A partition accumulates failure timestamps in a sliding window; when
//! the window holds three failures the partition is quarantined and stays
//! so until an operator clears it. Only markers reported by this node
//! block its reads; markers from other nodes are informational.
use crate::codec::{bytes_eq, copy_bytes};
use crate::keys::{
    classify_marker, lemma_quarantine_key_classifies, parse_quarantine_marker, quarantine_key,
    quarantine_meta_key_bytes, quarantine_prefix, MarkerKey, MarkerView,
};
use crate::text::{is_ascii_bytes, lemma_valid_utf8_drop_ascii};
use vstd::prelude::*;
use vstd::string::StringSliceAdditionalSpecFns;
use vstd::utf8::valid_utf8;

verus! {

/// Length of the sliding failure window, in nanoseconds (60 s).
pub const QUARANTINE_WINDOW_NANOS: u64 = 60_000_000_000;

/// Number of failures within the window that quarantines a partition.
pub const QUARANTINE_THRESHOLD: usize = 3;

/// The value stored under a quarantine marker key written by a load-time
/// migration: the single byte `1`.
pub const MARKER_FLAG: u8 = 49;

/// A write to the `meta` keyspace that the caller must carry out.
#[derive(Debug, Clone, PartialEq, Eq)]
pub enum MetaWrite {
    Insert { key: Vec<u8>, value: Vec<u8> },
    Remove { key: Vec<u8> },
}

pub ghost enum MetaWriteView {
    Insert(Seq<u8>, Seq<u8>),
    Remove(Seq<u8>),
}

impl MetaWrite {
    pub open spec fn view(&self) -> MetaWriteView {
        match self {
            MetaWrite::Insert { key, value } => MetaWriteView::Insert(key@, value@),
            MetaWrite::Remove { key } => MetaWriteView::Remove(key@),
        }
    }
}

pub open spec fn writes_view(w: Seq<MetaWrite>) -> Seq<MetaWriteView> {
    w.map_values(|x: MetaWrite| x.view())
}

/// Abstract state of a tracker: the failure window of each partition and
/// the set of quarantined partitions (partitions as UTF-8 bytes).
pub ghost struct TrackerView {
    pub failures: Map<Seq<u8>, Seq<u64>>,
    pub quarantined: Set<Seq<u8>>,
}

/// Per-partition failure tracker. Partitions are kept by their UTF-8 bytes
/// and failure times as nanosecond readings of a monotonic clock, in
/// vectors whose invariant (`wf`: each partition at most once) makes them a
/// map from partition to its window and a set of quarantined partitions;
/// each window keeps its failures oldest first.
pub struct QuarantineTracker {
    failures: Vec<(Vec<u8>, Vec<u64>)>,
    quarantined: Vec<Vec<u8>>,
}

pub open spec fn failures_map(s: Seq<(Vec<u8>, Vec<u64>)>) -> Map<Seq<u8>, Seq<u64>>
    decreases s.len(),
{
    if s.len() == 0 {
        Map::empty()
    } else {
        failures_map(s.drop_last()).insert(s.last().0@, s.last().1@)
    }
}

pub open spec fn names_set(s: Seq<Vec<u8>>) -> Set<Seq<u8>>
    decreases s.len(),
{
    if s.len() == 0 {
        Set::empty()
    } else {
        names_set(s.drop_last()).insert(s.last()@)
    }
}

pub open spec fn distinct_keys(s: Seq<(Vec<u8>, Vec<u64>)>) -> bool {
    forall|i: int, j: int| 0 <= i < j < s.len() ==> s[i].0@ != s[j].0@
}

pub open spec fn distinct_names(s: Seq<Vec<u8>>) -> bool {
    forall|i: int, j: int| 0 <= i < j < s.len() ==> s[i]@ != s[j]@
}

/// How long ago `t` is at `now`, saturating at zero for a timestamp that
/// lies ahead of `now`.
pub open spec fn age(now: u64, t: u64) -> int {
    if now >= t {
        now - t
    } else {
        0
    }
}

/// The timestamps of `w` still inside the window at `now`, in order.
pub open spec fn recent(w: Seq<u64>, now: u64) -> Seq<u64>
    decreases w.len(),
{
    if w.len() == 0 {
        Seq::empty()
    } else if age(now, w.last()) < QUARANTINE_WINDOW_NANOS {
        recent(w.drop_last(), now).push(w.last())
    } else {
        recent(w.drop_last(), now)
    }
}

/// The failure window of `p` after one more failure at `now`.
pub open spec fn window_after_failure(v: TrackerView, p: Seq<u8>, now: u64) -> Seq<u64> {
    let w = if v.failures.contains_key(p) {
        v.failures[p]
    } else {
        Seq::empty()
    };
    recent(w, now).push(now)
}

/// Whether recording one more failure for `p` at `now` quarantines it.
pub open spec fn failure_quarantines(v: TrackerView, p: Seq<u8>, now: u64) -> bool {
    !v.quarantined.contains(p) && window_after_failure(v, p, now).len() >= QUARANTINE_THRESHOLD
}

/// The tracker after one more failure for `p` at `now`.
pub open spec fn after_failure(v: TrackerView, p: Seq<u8>, now: u64) -> TrackerView {
    if v.quarantined.contains(p) {
        v
    } else {
        TrackerView {
            failures: v.failures.insert(p, window_after_failure(v, p, now)),
            quarantined: if failure_quarantines(v, p, now) {
                v.quarantined.insert(p)
            } else {
                v.quarantined
            },
        }
    }
}

/// The partition that a marker key makes this node block, if any: its own
/// node-scoped markers and legacy markers (which always belonged to the
/// node that wrote them).
pub open spec fn marker_blocks(key: Seq<u8>, node_id: u64) -> Option<Seq<u8>> {
    match classify_marker(key) {
        MarkerView::Scoped(p, n) => if n == node_id {
            Some(p)
        } else {
            None
        },
        MarkerView::Legacy(p) => Some(p),
        MarkerView::Invalid => None,
    }
}

/// The partitions that the marker keys `keys` quarantine on `node_id`.
pub open spec fn blocked_partitions(keys: Set<Seq<u8>>, node_id: u64) -> Set<Seq<u8>> {
    Set::new(|p: Seq<u8>| exists|k: Seq<u8>| keys.contains(k) && marker_blocks(k, node_id) == Some(p))
}

/// The writes that rewrite each legacy marker in `keys` (in order) to this
/// node's scoped key: insert the scoped key, then remove the legacy one.
pub open spec fn migration_writes(keys: Seq<Seq<u8>>, node_id: u64) -> Seq<MetaWriteView>
    decreases keys.len(),
{
    if keys.len() == 0 {
        Seq::empty()
    } else {
        let rest = migration_writes(keys.drop_last(), node_id);
        let k = keys.last();
        match classify_marker(k) {
            MarkerView::Legacy(p) => rest.push(
                MetaWriteView::Insert(quarantine_key(p, node_id), seq![MARKER_FLAG]),
            ).push(MetaWriteView::Remove(k)),
            _ => rest,
        }
    }
}

/// The set of keys after carrying out `writes` in order.
pub open spec fn apply_meta_writes(keys: Set<Seq<u8>>, writes: Seq<MetaWriteView>) -> Set<Seq<u8>>
    decreases writes.len(),
{
    if writes.len() == 0 {
        keys
    } else {
        let before = apply_meta_writes(keys, writes.drop_last());
        match writes.last() {
            MetaWriteView::Insert(k, _) => before.insert(k),
            MetaWriteView::Remove(k) => before.remove(k),
        }
    }
}

impl QuarantineTracker {
    pub closed spec fn view(&self) -> TrackerView {
        TrackerView { failures: failures_map(self.failures@), quarantined: names_set(self.quarantined@) }
    }

    pub closed spec fn wf(&self) -> bool {
        distinct_keys(self.failures@) && distinct_names(self.quarantined@)
    }

    /// A tracker with no failures and nothing quarantined.
    pub fn new() -> (r: Self)
        ensures
            r.wf(),
            r.view().failures == Map::<Seq<u8>, Seq<u64>>::empty(),
            r.view().quarantined == Set::<Seq<u8>>::empty(),
    {
        QuarantineTracker { failures: Vec::new(), quarantined: Vec::new() }
    }

    fn find_quarantined(&self, p: &[u8]) -> (r: Option<usize>)
        requires
            self.wf(),
        ensures
            r matches Some(i) ==> i < self.quarantined@.len() && self.quarantined@[i as int]@ == p@,
            r is None ==> forall|i: int| 0 <= i < self.quarantined@.len() ==> self.quarantined@[i]@ != p@,
            r is Some <==> self.view().quarantined.contains(p@),
    {
        let mut i: usize = 0;
        while i < self.quarantined.len()
            invariant
                i <= self.quarantined@.len(),
                forall|j: int| 0 <= j < i ==> self.quarantined@[j]@ != p@,
            decreases self.quarantined.len() - i,
        {
            if bytes_eq(self.quarantined[i].as_slice(), p) {
                proof {
                    lemma_names_set_contains(self.quarantined@, p@);
                }
                return Some(i);
            }
            i = i + 1;
        }
        proof {
            lemma_names_set_contains(self.quarantined@, p@);
        }
        None
    }

    fn find_failures(&self, p: &[u8]) -> (r: Option<usize>)
        requires
            self.wf(),
        ensures
            r matches Some(i) ==> i < self.failures@.len() && self.failures@[i as int].0@ == p@,
            r is None ==> !self.view().failures.contains_key(p@),
    {
        let mut i: usize = 0;
        while i < self.failures.len()
            invariant
                i <= self.failures@.len(),
                forall|j: int| 0 <= j < i ==> self.failures@[j].0@ != p@,
            decreases self.failures.len() - i,
        {
            if bytes_eq(self.failures[i].0.as_slice(), p) {
                return Some(i);
            }
            i = i + 1;
        }
        proof {
            lemma_failures_map_absent(self.failures@, p@);
        }
        None
    }

    /// Whether `partition` is quarantined.
    pub fn is_quarantined(&self, partition: &str) -> (r: bool)
        requires
            self.wf(),
        ensures
            r == self.view().quarantined.contains(partition.spec_bytes()),
    {
        self.find_quarantined(partition.as_bytes()).is_some()
    }

    fn insert_quarantined(&mut self, p: &[u8])
        requires
            old(self).wf(),
        ensures
            final(self).wf(),
            final(self).view().quarantined == old(self).view().quarantined.insert(p@),
            final(self).view().failures == old(self).view().failures,
    {
        match self.find_quarantined(p) {
            Some(_) => {
                assert(self.view().quarantined.insert(p@) =~= self.view().quarantined);
            },
            None => {
                let ghost before = self.quarantined@;
                let c = copy_bytes(p);
                self.quarantined.push(c);
                assert(self.quarantined@.drop_last() =~= before);
                assert(self.quarantined@.last()@ == p@);
                assert(names_set(self.quarantined@) =~= names_set(before).insert(p@));
                assert forall|a: int, b: int| 0 <= a < b < self.quarantined@.len() implies self.quarantined@[a]@
                    != self.quarantined@[b]@ by {
                    if b == before.len() {
                        assert(self.quarantined@[a] == before[a]);
                    } else {
                        assert(self.quarantined@[a] == before[a]);
                        assert(self.quarantined@[b] == before[b]);
                    }
                }
            },
        }
    }

    /// Marks `partition` quarantined directly, with no failure bookkeeping
    /// (used when a quarantine reported by this node itself is committed).
    pub fn force_quarantine(&mut self, partition: &str)
        requires
            old(self).wf(),
        ensures
            final(self).wf(),
            final(self).view().quarantined == old(self).view().quarantined.insert(partition.spec_bytes()),
            final(self).view().failures == old(self).view().failures,
    {
        self.insert_quarantined(partition.as_bytes());
    }

    /// Clears the quarantine and the failure window of `partition`
    /// (operator-initiated recovery).
    pub fn clear(&mut self, partition: &str)
        requires
            old(self).wf(),
        ensures
            final(self).wf(),
            final(self).view().quarantined == old(self).view().quarantined.remove(partition.spec_bytes()),
            final(self).view().failures == old(self).view().failures.remove(partition.spec_bytes()),
    {
        let p = partition.as_bytes();
        match self.find_quarantined(p) {
            Some(i) => {
                proof {
                    lemma_names_set_remove(self.quarantined@, i as int);
                }
                self.quarantined.remove(i);
            },
            None => {
                assert(self.view().quarantined.remove(p@) =~= self.view().quarantined);
            },
        }
        match self.find_failures(p) {
            Some(i) => {
                proof {
                    lemma_failures_map_remove(self.failures@, i as int);
                }
                self.failures.remove(i);
            },
            None => {
                assert(self.view().failures.remove(p@) =~= self.view().failures);
            },
        }
    }

    /// Records a tag-verification failure for `partition` at `now` (in
    /// nanoseconds on a monotonic clock); returns `true` exactly when this
    /// failure quarantines the partition. A partition already quarantined
    /// is left as it is and `false` is returned.
    pub fn record_failure(&mut self, partition: &str, now: u64) -> (r: bool)
        requires
            old(self).wf(),
        ensures
            final(self).wf(),
            r == failure_quarantines(old(self).view(), partition.spec_bytes(), now),
            final(self).view() == after_failure(old(self).view(), partition.spec_bytes(), now),
    {
        let p = partition.as_bytes();
        if self.find_quarantined(p).is_some() {
            return false;
        }
        let ghost v0 = self.view();
        let idx = self.find_failures(p);
        let mut window: Vec<u64> = Vec::new();
        match idx {
            Some(i) => {
                proof {
                    lemma_failures_map_lookup(self.failures@, i as int);
                }
                let old_window = &self.failures[i].1;
                let mut j: usize = 0;
                while j < old_window.len()
                    invariant
                        j <= old_window@.len(),
                        window@ == recent(old_window@.subrange(0, j as int), now),
                    decreases old_window.len() - j,
                {
                    let t = old_window[j];
                    let ghost pre = old_window@.subrange(0, j as int);
                    assert(old_window@.subrange(0, j + 1).drop_last() =~= pre);
                    let a: u64 = if now >= t {
                        now - t
                    } else {
                        0
                    };
                    if a < QUARANTINE_WINDOW_NANOS {
                        window.push(t);
                    }
                    j = j + 1;
                }
                assert(old_window@.subrange(0, j as int) =~= old_window@);
            },
            None => {},
        }
        window.push(now);
        assert(window@ == window_after_failure(v0, p@, now));
        let ghost w = window@;
        let count = window.len();
        match idx {
            Some(i) => {
                let key = copy_bytes(self.failures[i].0.as_slice());
                proof {
                    lemma_failures_map_update(self.failures@, i as int, (key, window));
                }
                self.failures.set(i, (key, window));
                assert(self.view().failures == v0.failures.insert(p@, w));
            },
            None => {
                let ghost before = self.failures@;
                let c = copy_bytes(p);
                self.failures.push((c, window));
                proof {
                    assert(self.failures@.drop_last() =~= before);
                    assert(self.failures@.last().0@ == p@);
                    assert(self.view().failures == v0.failures.insert(p@, w));
                    assert forall|a: int, b: int| 0 <= a < b < self.failures@.len() implies self.failures@[a].0@
                        != self.failures@[b].0@ by {
                        if b == before.len() {
                            lemma_failures_map_index(before, a);
                            assert(self.failures@[a] == before[a]);
                        } else {
                            assert(self.failures@[a] == before[a]);
                            assert(self.failures@[b] == before[b]);
                        }
                    }
                }
            },
        }
        if count >= QUARANTINE_THRESHOLD {
            self.insert_quarantined(p);
            true
        } else {
            false
        }
    }

    /// Loads the tracker from the quarantine marker keys found in `meta` on
    /// startup (`marker_keys`, as listed by a scan of the marker prefix).
    ///
    /// Only markers reported by `node_id` and legacy markers quarantine a
    /// partition. Each legacy marker is to be rewritten to this node's
    /// scoped key: the returned writes insert the scoped key and remove the
    /// legacy one, so the quarantine survives later restarts.
    pub fn from_meta(marker_keys: &Vec<Vec<u8>>, node_id: u64) -> (r: (QuarantineTracker, Vec<MetaWrite>))
        ensures
            r.0.wf(),
            r.0.view().failures == Map::<Seq<u8>, Seq<u64>>::empty(),
            r.0.view().quarantined == blocked_partitions(keys_set(marker_keys@), node_id),
            writes_view(r.1@) == migration_writes(keys_seq(marker_keys@), node_id),
    {
        let mut tracker = QuarantineTracker::new();
        let mut writes: Vec<MetaWrite> = Vec::new();
        let mut i: usize = 0;
        while i < marker_keys.len()
            invariant
                i <= marker_keys@.len(),
                tracker.wf(),
                tracker.view().failures == Map::<Seq<u8>, Seq<u64>>::empty(),
                tracker.view().quarantined == blocked_partitions(
                    keys_set(marker_keys@.subrange(0, i as int)),
                    node_id,
                ),
                writes_view(writes@) == migration_writes(
                    keys_seq(marker_keys@.subrange(0, i as int)),
                    node_id,
                ),
            decreases marker_keys.len() - i,
        {
            let key = &marker_keys[i];
            let ghost pre = marker_keys@.subrange(0, i as int);
            let ghost next = marker_keys@.subrange(0, i + 1);
            assert(next.drop_last() =~= pre);
            assert(keys_seq(next).drop_last() =~= keys_seq(pre));
            assert(keys_seq(next).last() == key@);
            assert(next =~= pre.push(*key));
            proof {
                lemma_keys_set_push(pre, *key);
            }
            assert(keys_set(next) == keys_set(pre).insert(key@));
            let parsed = parse_quarantine_marker(key.as_slice());
            let ghost blocked_before = tracker.view().quarantined;
            match parsed {
                MarkerKey::Invalid => {
                    proof {
                        lemma_blocked_insert(keys_set(pre), key@, node_id);
                    }
                },
                MarkerKey::Legacy { partition } => {
                    let new_key = quarantine_meta_key_bytes(partition.as_slice(), node_id);
                    let ghost wb = writes@;
                    let flag = vec![MARKER_FLAG];
                    assert(flag@ =~= seq![MARKER_FLAG]);
                    let w1 = MetaWrite::Insert { key: new_key, value: flag };
                    let w2 = MetaWrite::Remove { key: copy_bytes(key.as_slice()) };
                    writes.push(w1);
                    writes.push(w2);
                    proof {
                        assert(writes@ =~= wb.push(w1).push(w2));
                        assert(writes_view(writes@) =~= writes_view(wb).push(
                            MetaWriteView::Insert(quarantine_key(partition@, node_id), seq![MARKER_FLAG]),
                        ).push(MetaWriteView::Remove(key@)));
                        lemma_blocked_insert(keys_set(pre), key@, node_id);
                    }
                    tracker.insert_quarantined(partition.as_slice());
                },
                MarkerKey::Scoped { partition, node_id: reporter } => {
                    proof {
                        lemma_blocked_insert(keys_set(pre), key@, node_id);
                    }
                    if reporter == node_id {
                        tracker.insert_quarantined(partition.as_slice());
                    }
                },
            }
            i = i + 1;
        }
        assert(marker_keys@.subrange(0, i as int) =~= marker_keys@);
        (tracker, writes)
    }
}

pub open spec fn keys_seq(keys: Seq<Vec<u8>>) -> Seq<Seq<u8>> {
    keys.map_values(|k: Vec<u8>| k@)
}

pub open spec fn keys_set(keys: Seq<Vec<u8>>) -> Set<Seq<u8>> {
    keys_seq(keys).to_set()
}

proof fn lemma_keys_set_push(keys: Seq<Vec<u8>>, k: Vec<u8>)
    ensures
        keys_set(keys.push(k)) == keys_set(keys).insert(k@),
{
    assert(keys_seq(keys.push(k)) =~= keys_seq(keys).push(k@));
    assert(keys_seq(keys).push(k@).to_set() =~= keys_seq(keys).to_set().insert(k@)) by {
        assert forall|x: Seq<u8>| keys_seq(keys).push(k@).to_set().contains(x) <==> keys_seq(
            keys,
        ).to_set().insert(k@).contains(x) by {
            let s = keys_seq(keys);
            if s.push(k@).contains(x) {
                let j = choose|j: int| 0 <= j < s.push(k@).len() && s.push(k@)[j] == x;
                if j < s.len() {
                    assert(s[j] == x);
                }
            }
            if s.contains(x) {
                let j = choose|j: int| 0 <= j < s.len() && s[j] == x;
                assert(s.push(k@)[j] == x);
            }
            if x == k@ {
                assert(s.push(k@)[s.len() as int] == x);
            }
        }
    }
}

proof fn lemma_blocked_insert(keys: Set<Seq<u8>>, k: Seq<u8>, node_id: u64)
    ensures
        blocked_partitions(keys.insert(k), node_id) == match marker_blocks(k, node_id) {
            Some(p) => blocked_partitions(keys, node_id).insert(p),
            None => blocked_partitions(keys, node_id),
        },
{
    let a = blocked_partitions(keys.insert(k), node_id);
    let b = match marker_blocks(k, node_id) {
        Some(p) => blocked_partitions(keys, node_id).insert(p),
        None => blocked_partitions(keys, node_id),
    };
    assert forall|p: Seq<u8>| a.contains(p) <==> b.contains(p) by {
        if a.contains(p) {
            let w = choose|w: Seq<u8>| keys.insert(k).contains(w) && marker_blocks(w, node_id) == Some(p);
            if w != k {
                assert(blocked_partitions(keys, node_id).contains(p));
            }
        }
        if blocked_partitions(keys, node_id).contains(p) {
            let w = choose|w: Seq<u8>| keys.contains(w) && marker_blocks(w, node_id) == Some(p);
            assert(keys.insert(k).contains(w));
        }
        if marker_blocks(k, node_id) == Some(p) {
            assert(keys.insert(k).contains(k));
        }
    }
    assert(a =~= b);
}

/// The tracker after `force_quarantine(p)`.
pub open spec fn after_force(v: TrackerView, p: Seq<u8>) -> TrackerView {
    TrackerView { failures: v.failures, quarantined: v.quarantined.insert(p) }
}

/// The tracker after `clear(p)`.
pub open spec fn after_clear(v: TrackerView, p: Seq<u8>) -> TrackerView {
    TrackerView { failures: v.failures.remove(p), quarantined: v.quarantined.remove(p) }
}

/// Three failures within one window quarantine a partition that had no
/// failures: the first two do not, the third does.
pub proof fn law_three_failures_within_window_quarantine(
    v: TrackerView,
    p: Seq<u8>,
    t1: u64,
    t2: u64,
    t3: u64,
)
    requires
        !v.failures.contains_key(p),
        !v.quarantined.contains(p),
        t1 <= t2 <= t3,
        t3 - t1 < QUARANTINE_WINDOW_NANOS,
    ensures
        !failure_quarantines(v, p, t1),
        !failure_quarantines(after_failure(v, p, t1), p, t2),
        failure_quarantines(after_failure(after_failure(v, p, t1), p, t2), p, t3),
        after_failure(after_failure(after_failure(v, p, t1), p, t2), p, t3).quarantined.contains(p),
{
    let v1 = after_failure(v, p, t1);
    assert(recent(Seq::<u64>::empty(), t1) =~= Seq::<u64>::empty());
    assert(window_after_failure(v, p, t1) =~= seq![t1]);
    let w1 = seq![t1];
    assert(w1.drop_last() =~= Seq::<u64>::empty());
    assert(w1.last() == t1);
    assert(recent(Seq::<u64>::empty(), t2) =~= Seq::<u64>::empty());
    assert(recent(Seq::<u64>::empty(), t3) =~= Seq::<u64>::empty());
    assert(recent(w1, t2) =~= seq![t1]);
    assert(window_after_failure(v1, p, t2) =~= seq![t1, t2]);
    let v2 = after_failure(v1, p, t2);
    let w2 = seq![t1, t2];
    assert(w2.drop_last() =~= w1);
    assert(recent(w1, t3) == recent(Seq::<u64>::empty(), t3).push(t1));
    assert(recent(w1, t3) =~= seq![t1]);
    assert(w2.last() == t2);
    assert(recent(w2, t3) =~= seq![t1, t2]);
    assert(window_after_failure(v2, p, t3) =~= seq![t1, t2, t3]);
}

/// Failures spaced a full window apart never quarantine: each finds the
/// earlier ones expired.
pub proof fn law_spaced_failures_do_not_quarantine(v: TrackerView, p: Seq<u8>, t1: u64, t2: u64, t3: u64)
    requires
        !v.failures.contains_key(p),
        !v.quarantined.contains(p),
        t1 + QUARANTINE_WINDOW_NANOS <= t2,
        t2 + QUARANTINE_WINDOW_NANOS <= t3,
    ensures
        !after_failure(after_failure(after_failure(v, p, t1), p, t2), p, t3).quarantined.contains(p),
{
    let v1 = after_failure(v, p, t1);
    assert(recent(Seq::<u64>::empty(), t1) =~= Seq::<u64>::empty());
    assert(window_after_failure(v, p, t1) =~= seq![t1]);
    let w1 = seq![t1];
    assert(w1.drop_last() =~= Seq::<u64>::empty());
    assert(w1.last() == t1);
    assert(recent(Seq::<u64>::empty(), t2) =~= Seq::<u64>::empty());
    assert(recent(Seq::<u64>::empty(), t3) =~= Seq::<u64>::empty());
    assert(recent(w1, t2) =~= Seq::<u64>::empty());
    assert(window_after_failure(v1, p, t2) =~= seq![t2]);
    let v2 = after_failure(v1, p, t2);
    let w2 = seq![t2];
    assert(w2.drop_last() =~= Seq::<u64>::empty());
    assert(w2.last() == t2);
    assert(recent(w2, t3) =~= Seq::<u64>::empty());
    assert(window_after_failure(v2, p, t3) =~= seq![t3]);
}

/// A quarantined partition ignores further failures, and a failure that
/// quarantines a partition reports it exactly once.
pub proof fn law_quarantined_partition_ignores_failures(v: TrackerView, p: Seq<u8>, now: u64)
    requires
        v.quarantined.contains(p),
    ensures
        after_failure(v, p, now) == v,
        !failure_quarantines(v, p, now),
{
}

/// `force_quarantine` agrees with a failure that quarantined: applied after
/// it, or twice, it changes nothing.
pub proof fn law_force_quarantine_idempotent(v: TrackerView, p: Seq<u8>, now: u64)
    ensures
        after_force(after_force(v, p), p) == after_force(v, p),
        failure_quarantines(v, p, now) ==> after_force(after_failure(v, p, now), p) == after_failure(
            v,
            p,
            now,
        ),
        after_force(v, p).quarantined.contains(p),
{
    assert(after_force(v, p).quarantined.insert(p) =~= after_force(v, p).quarantined);
    if failure_quarantines(v, p, now) {
        let v1 = after_failure(v, p, now);
        assert(v1.quarantined.insert(p) =~= v1.quarantined);
    }
}

/// `clear` lifts a quarantine and forgets the failure window: the next
/// failure starts a fresh window of one and does not re-quarantine.
pub proof fn law_clear_lifts_quarantine(v: TrackerView, p: Seq<u8>, now: u64)
    ensures
        !after_clear(v, p).quarantined.contains(p),
        !after_clear(v, p).failures.contains_key(p),
        window_after_failure(after_clear(v, p), p, now) == seq![now],
        !failure_quarantines(after_clear(v, p), p, now),
{
    assert(recent(Seq::<u64>::empty(), now) =~= Seq::<u64>::empty());
    assert(window_after_failure(after_clear(v, p), p, now) =~= seq![now]);
}

/// The legacy marker keys among `keys`.
pub open spec fn legacy_keys(keys: Seq<Seq<u8>>) -> Set<Seq<u8>> {
    Set::new(|k: Seq<u8>| keys.contains(k) && classify_marker(k) is Legacy)
}

/// The scoped keys that the legacy markers among `keys` are rewritten to.
pub open spec fn migrated_keys(keys: Seq<Seq<u8>>, node_id: u64) -> Set<Seq<u8>> {
    Set::new(
        |k: Seq<u8>|
            exists|j: int|
                0 <= j < keys.len() && #[trigger] classify_marker(keys[j]) is Legacy && k
                    == quarantine_key(classify_marker(keys[j])->Legacy_0, node_id),
    )
}

proof fn lemma_legacy_partition_utf8(k: Seq<u8>)
    requires
        classify_marker(k) is Legacy,
    ensures
        valid_utf8(classify_marker(k)->Legacy_0),
{
    let plen = quarantine_prefix().len() as int;
    let rest = k.subrange(plen, k.len() as int);
    assert(k =~= quarantine_prefix() + rest);
    assert(is_ascii_bytes(quarantine_prefix()));
    lemma_valid_utf8_drop_ascii(quarantine_prefix(), rest);
}

proof fn lemma_apply_migration(base: Set<Seq<u8>>, keys: Seq<Seq<u8>>, node_id: u64)
    ensures
        apply_meta_writes(base, migration_writes(keys, node_id)) == base.difference(
            legacy_keys(keys),
        ).union(migrated_keys(keys, node_id)),
    decreases keys.len(),
{
    if keys.len() == 0 {
        assert(legacy_keys(keys) =~= Set::<Seq<u8>>::empty());
        assert(migrated_keys(keys, node_id) =~= Set::<Seq<u8>>::empty());
        assert(base.difference(legacy_keys(keys)).union(migrated_keys(keys, node_id)) =~= base);
    } else {
        let pre = keys.drop_last();
        let k = keys.last();
        lemma_apply_migration(base, pre, node_id);
        let mid = base.difference(legacy_keys(pre)).union(migrated_keys(pre, node_id));
        let target = base.difference(legacy_keys(keys)).union(migrated_keys(keys, node_id));
        match classify_marker(k) {
            MarkerView::Legacy(p) => {
                let qk = quarantine_key(p, node_id);
                let w = migration_writes(keys, node_id);
                let a = MetaWriteView::Insert(qk, seq![MARKER_FLAG]);
                let b = MetaWriteView::Remove(k);
                assert(w == migration_writes(pre, node_id).push(a).push(b));
                assert(w.drop_last() =~= migration_writes(pre, node_id).push(a));
                assert(w.drop_last().drop_last() =~= migration_writes(pre, node_id));
                assert(w.last() == b);
                assert(w.drop_last().last() == a);
                assert(apply_meta_writes(base, w) == apply_meta_writes(base, w.drop_last()).remove(k));
                assert(apply_meta_writes(base, w.drop_last()) == apply_meta_writes(
                    base,
                    w.drop_last().drop_last(),
                ).insert(qk));
                lemma_legacy_partition_utf8(k);
                lemma_quarantine_key_classifies(p, node_id);
                assert forall|x: Seq<u8>| mid.insert(qk).remove(k).contains(x) <==> target.contains(x) by {
                    if migrated_keys(pre, node_id).contains(x) {
                        let j = choose|j: int|
                            0 <= j < pre.len() && #[trigger] classify_marker(pre[j]) is Legacy && x
                                == quarantine_key(classify_marker(pre[j])->Legacy_0, node_id);
                        assert(keys[j] == pre[j]);
                        lemma_legacy_partition_utf8(pre[j]);
                        lemma_quarantine_key_classifies(classify_marker(pre[j])->Legacy_0, node_id);
                    }
                    if migrated_keys(keys, node_id).contains(x) {
                        let j = choose|j: int|
                            0 <= j < keys.len() && #[trigger] classify_marker(keys[j]) is Legacy && x
                                == quarantine_key(classify_marker(keys[j])->Legacy_0, node_id);
                        lemma_legacy_partition_utf8(keys[j]);
                        lemma_quarantine_key_classifies(classify_marker(keys[j])->Legacy_0, node_id);
                        if j < pre.len() {
                            assert(pre[j] == keys[j]);
                        }
                    }
                    if x == qk {
                        assert(keys[keys.len() - 1] == k);
                    }
                    if keys.contains(x) {
                        let j = choose|j: int| 0 <= j < keys.len() && keys[j] == x;
                        if j < pre.len() {
                            assert(pre[j] == x);
                        }
                    }
                    if pre.contains(x) {
                        let j = choose|j: int| 0 <= j < pre.len() && pre[j] == x;
                        assert(keys[j] == x);
                    }
                }
                assert(mid.insert(qk).remove(k) =~= target);
            },
            _ => {
                assert(migration_writes(keys, node_id) == migration_writes(pre, node_id));
                assert forall|x: Seq<u8>| mid.contains(x) <==> target.contains(x) by {
                    if migrated_keys(pre, node_id).contains(x) {
                        let j = choose|j: int|
                            0 <= j < pre.len() && #[trigger] classify_marker(pre[j]) is Legacy && x
                                == quarantine_key(classify_marker(pre[j])->Legacy_0, node_id);
                        assert(keys[j] == pre[j]);
                    }
                    if migrated_keys(keys, node_id).contains(x) {
                        let j = choose|j: int|
                            0 <= j < keys.len() && #[trigger] classify_marker(keys[j]) is Legacy && x
                                == quarantine_key(classify_marker(keys[j])->Legacy_0, node_id);
                        if j < pre.len() {
                            assert(pre[j] == keys[j]);
                        }
                    }
                    if keys.contains(x) {
                        let j = choose|j: int| 0 <= j < keys.len() && keys[j] == x;
                        if j < pre.len() {
                            assert(pre[j] == x);
                        }
                    }
                    if pre.contains(x) {
                        let j = choose|j: int| 0 <= j < pre.len() && pre[j] == x;
                        assert(keys[j] == x);
                    }
                }
                assert(mid =~= target);
            },
        }
    }
}

/// Quarantine survives restarts: loading the markers, carrying out the
/// writes the load returns, and loading again quarantines the same
/// partitions, and the second load finds no legacy marker left to migrate.
pub proof fn law_migrated_markers_survive_reload(keys: Seq<Seq<u8>>, node_id: u64)
    ensures
        blocked_partitions(
            apply_meta_writes(keys.to_set(), migration_writes(keys, node_id)),
            node_id,
        ) == blocked_partitions(keys.to_set(), node_id),
        forall|k: Seq<u8>|
            #[trigger] apply_meta_writes(keys.to_set(), migration_writes(keys, node_id)).contains(k)
                ==> !(classify_marker(k) is Legacy),
{
    let base = keys.to_set();
    lemma_apply_migration(base, keys, node_id);
    let after = apply_meta_writes(base, migration_writes(keys, node_id));
    assert forall|k: Seq<u8>| #[trigger] after.contains(k) implies !(classify_marker(k) is Legacy) by {
        if migrated_keys(keys, node_id).contains(k) {
            let j = choose|j: int|
                0 <= j < keys.len() && #[trigger] classify_marker(keys[j]) is Legacy && k
                    == quarantine_key(classify_marker(keys[j])->Legacy_0, node_id);
            lemma_legacy_partition_utf8(keys[j]);
            lemma_quarantine_key_classifies(classify_marker(keys[j])->Legacy_0, node_id);
        }
    }
    let a = blocked_partitions(after, node_id);
    let b = blocked_partitions(base, node_id);
    assert forall|p: Seq<u8>| a.contains(p) <==> b.contains(p) by {
        if a.contains(p) {
            let k = choose|k: Seq<u8>| after.contains(k) && marker_blocks(k, node_id) == Some(p);
            if migrated_keys(keys, node_id).contains(k) {
                let j = choose|j: int|
                    0 <= j < keys.len() && #[trigger] classify_marker(keys[j]) is Legacy && k
                        == quarantine_key(classify_marker(keys[j])->Legacy_0, node_id);
                lemma_legacy_partition_utf8(keys[j]);
                lemma_quarantine_key_classifies(classify_marker(keys[j])->Legacy_0, node_id);
                assert(base.contains(keys[j]));
                assert(marker_blocks(keys[j], node_id) == Some(p));
            } else {
                assert(base.contains(k));
            }
        }
        if b.contains(p) {
            let k = choose|k: Seq<u8>| base.contains(k) && marker_blocks(k, node_id) == Some(p);
            if classify_marker(k) is Legacy {
                let j = choose|j: int| 0 <= j < keys.len() && keys[j] == k;
                let qk = quarantine_key(p, node_id);
                assert(migrated_keys(keys, node_id).contains(qk));
                lemma_legacy_partition_utf8(k);
                lemma_quarantine_key_classifies(p, node_id);
                assert(after.contains(qk));
            } else {
                assert(!legacy_keys(keys).contains(k));
                assert(after.contains(k));
            }
        }
    }
    assert(a =~= b);
}

proof fn lemma_names_set_contains(s: Seq<Vec<u8>>, p: Seq<u8>)
    ensures
        names_set(s).contains(p) <==> exists|i: int| 0 <= i < s.len() && s[i]@ == p,
    decreases s.len(),
{
    if s.len() > 0 {
        lemma_names_set_contains(s.drop_last(), p);
        if names_set(s).contains(p) && p != s.last()@ {
            let i = choose|i: int| 0 <= i < s.drop_last().len() && s.drop_last()[i]@ == p;
            assert(s[i]@ == p);
        }
        if exists|i: int| 0 <= i < s.len() && s[i]@ == p {
            let i = choose|i: int| 0 <= i < s.len() && s[i]@ == p;
            if i < s.len() - 1 {
                assert(s.drop_last()[i]@ == p);
            }
        }
    }
}

proof fn lemma_names_set_remove(s: Seq<Vec<u8>>, i: int)
    requires
        distinct_names(s),
        0 <= i < s.len(),
    ensures
        names_set(s.remove(i)) == names_set(s).remove(s[i]@),
        distinct_names(s.remove(i)),
{
    let t = s.remove(i);
    assert forall|p: Seq<u8>| names_set(t).contains(p) <==> names_set(s).remove(s[i]@).contains(p) by {
        lemma_names_set_contains(t, p);
        lemma_names_set_contains(s, p);
        if exists|j: int| 0 <= j < t.len() && t[j]@ == p {
            let j = choose|j: int| 0 <= j < t.len() && t[j]@ == p;
            if j < i {
                assert(t[j] == s[j]);
            } else {
                assert(t[j] == s[j + 1]);
            }
        }
        if names_set(s).contains(p) && p != s[i]@ {
            let j = choose|j: int| 0 <= j < s.len() && s[j]@ == p;
            if j < i {
                assert(t[j] == s[j]);
            } else {
                assert(j != i);
                assert(t[j - 1] == s[j]);
            }
        }
    }
    assert(names_set(t) =~= names_set(s).remove(s[i]@));
    assert forall|a: int, b: int| 0 <= a < b < t.len() implies t[a]@ != t[b]@ by {
        let sa = if a < i {
            a
        } else {
            a + 1
        };
        let sb = if b < i {
            b
        } else {
            b + 1
        };
        assert(t[a] == s[sa]);
        assert(t[b] == s[sb]);
    }
}

proof fn lemma_failures_map_absent(s: Seq<(Vec<u8>, Vec<u64>)>, p: Seq<u8>)
    requires
        forall|j: int| 0 <= j < s.len() ==> s[j].0@ != p,
    ensures
        !failures_map(s).contains_key(p),
    decreases s.len(),
{
    if s.len() > 0 {
        lemma_failures_map_absent(s.drop_last(), p);
    }
}

proof fn lemma_failures_map_index(s: Seq<(Vec<u8>, Vec<u64>)>, i: int)
    requires
        0 <= i < s.len(),
    ensures
        failures_map(s).contains_key(s[i].0@),
    decreases s.len(),
{
    if i < s.len() - 1 {
        lemma_failures_map_index(s.drop_last(), i);
    }
}

proof fn lemma_failures_map_lookup(s: Seq<(Vec<u8>, Vec<u64>)>, i: int)
    requires
        distinct_keys(s),
        0 <= i < s.len(),
    ensures
        failures_map(s).contains_key(s[i].0@),
        failures_map(s)[s[i].0@] == s[i].1@,
    decreases s.len(),
{
    if i < s.len() - 1 {
        lemma_failures_map_lookup(s.drop_last(), i);
    }
}

proof fn lemma_failures_map_update(s: Seq<(Vec<u8>, Vec<u64>)>, i: int, e: (Vec<u8>, Vec<u64>))
    requires
        distinct_keys(s),
        0 <= i < s.len(),
        e.0@ == s[i].0@,
    ensures
        failures_map(s.update(i, e)) == failures_map(s).insert(e.0@, e.1@),
        distinct_keys(s.update(i, e)),
    decreases s.len(),
{
    let t = s.update(i, e);
    if i == s.len() - 1 {
        assert(t.drop_last() =~= s.drop_last());
        if failures_map(s.drop_last()).contains_key(e.0@) {
            lemma_failures_map_absent(s.drop_last(), e.0@);
        }
        assert(failures_map(t) =~= failures_map(s).insert(e.0@, e.1@));
    } else {
        assert(t.drop_last() =~= s.drop_last().update(i, e));
        lemma_failures_map_update(s.drop_last(), i, e);
        assert(failures_map(t) =~= failures_map(s).insert(e.0@, e.1@));
    }
    assert forall|a: int, b: int| 0 <= a < b < t.len() implies t[a].0@ != t[b].0@ by {
        assert(t[a].0@ == s[a].0@);
        assert(t[b].0@ == s[b].0@);
    }
}

proof fn lemma_failures_map_remove(s: Seq<(Vec<u8>, Vec<u64>)>, i: int)
    requires
        distinct_keys(s),
        0 <= i < s.len(),
    ensures
        failures_map(s.remove(i)) == failures_map(s).remove(s[i].0@),
        distinct_keys(s.remove(i)),
    decreases s.len(),
{
    let t = s.remove(i);
    if i == s.len() - 1 {
        assert(t =~= s.drop_last());
        assert forall|j: int| 0 <= j < t.len() implies t[j].0@ != s[i].0@ by {}
        lemma_failures_map_absent(t, s[i].0@);
        assert(failures_map(t) =~= failures_map(s).remove(s[i].0@));
    } else {
        assert(t.drop_last() =~= s.drop_last().remove(i));
        lemma_failures_map_remove(s.drop_last(), i);
        assert(t.last() == s.last());
        assert(failures_map(t) =~= failures_map(s).remove(s[i].0@));
    }
    assert forall|a: int, b: int| 0 <= a < b < t.len() implies t[a].0@ != t[b].0@ by {
        let sa = if a < i {
            a
        } else {
            a + 1
        };
        let sb = if b < i {
            b
        } else {
            b + 1
        };
        assert(t[a] == s[sa]);
        assert(t[b] == s[sb]);
    }
}

} // verus!
