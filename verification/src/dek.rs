//! Bookkeeping of DEK epochs by version: the current epoch, the retired
//! epochs that stay readable while their records are re-encrypted, and the
//! revoked epochs of emergency rotations. The key material itself is held
//! by the caller, by version.
use vstd::prelude::*;

verus! {

/// Revoked versions beyond this count are still recorded, but signal that
/// an operator must look into the node.
pub const MAX_REVOKED_DEKS: usize = 1024;

/// Records reaching this per-key write version need a DEK rotation first.
pub const WRITE_RATE_THRESHOLD: u32 = 0x4000_0000;

/// Records reaching this write version (90% of the threshold) call for a
/// rotation soon.
pub const WRITE_RATE_WARN_THRESHOLD: u32 = 966_367_638;

pub ghost struct DekRingView {
    pub current: u32,
    pub retired: Set<u32>,
    pub revoked: Set<u32>,
}

/// The DEK epochs a node knows, by version. The retired versions are kept
/// as a strictly increasing vector: the legacy probe and the re-encryption
/// sweep visit them in increasing order, which the contracts state over the
/// vector's contents (`retired_order`, `sorted_distinct`).
pub struct DekRing {
    current: u32,
    /// Retired versions, strictly increasing.
    retired: Vec<u32>,
    /// Revoked versions, each once.
    revoked: Vec<u32>,
}

/// Which epoch decrypts a record.
#[derive(Debug, Clone, Copy, PartialEq, Eq, Structural)]
pub enum EpochChoice {
    /// The current epoch.
    Current,
    /// The retired epoch of this version.
    Retired(u32),
    /// The record names an epoch this node does not hold: treated as
    /// corrupt, never decrypted with another key.
    Unknown(u32),
    /// A record written before epochs were tracked: try the current epoch,
    /// then each retired one.
    Probe,
}

/// The epoch that decrypts a record whose metadata names `hint`.
pub open spec fn epoch_for(v: DekRingView, hint: Option<u32>) -> EpochChoice {
    match hint {
        None => EpochChoice::Probe,
        Some(h) => if h == v.current {
            EpochChoice::Current
        } else if v.retired.contains(h) {
            EpochChoice::Retired(h)
        } else {
            EpochChoice::Unknown(h)
        },
    }
}

/// How a write's next record version stands against the write threshold.
#[derive(Debug, Clone, Copy, PartialEq, Eq, Structural)]
pub enum WriteRate {
    Normal,
    /// At or past 90% of the threshold: a rotation should be scheduled.
    NearThreshold,
    /// At or past the threshold: the write is refused.
    Exceeded,
}

/// Classifies the next per-record write version.
pub fn check_write_rate(next_version: u32) -> (r: WriteRate)
    ensures
        next_version >= WRITE_RATE_THRESHOLD ==> r == WriteRate::Exceeded,
        WRITE_RATE_WARN_THRESHOLD <= next_version < WRITE_RATE_THRESHOLD ==> r
            == WriteRate::NearThreshold,
        next_version < WRITE_RATE_WARN_THRESHOLD ==> r == WriteRate::Normal,
{
    if next_version >= WRITE_RATE_THRESHOLD {
        WriteRate::Exceeded
    } else if next_version >= WRITE_RATE_WARN_THRESHOLD {
        WriteRate::NearThreshold
    } else {
        WriteRate::Normal
    }
}

/// What a completed rotation did to the previous current epoch.
#[derive(Debug, Clone, Copy, PartialEq, Eq, Structural)]
pub struct RotationEffect {
    /// The version that was current before the rotation.
    pub old_version: u32,
    /// Normal rotation: the old epoch was retired and must be swept by the
    /// background re-encryption.
    pub reencrypt_old: bool,
    /// Emergency rotation: the revoked set had reached `MAX_REVOKED_DEKS`.
    pub revoked_over_capacity: bool,
}

pub open spec fn sorted_distinct(s: Seq<u32>) -> bool {
    forall|i: int, j: int| 0 <= i < j < s.len() ==> s[i] < s[j]
}

pub open spec fn distinct_u32(s: Seq<u32>) -> bool {
    forall|i: int, j: int| 0 <= i < j < s.len() ==> s[i] != s[j]
}

/// The ring after a rotation to `new_version` committed.
pub open spec fn after_rotation(v: DekRingView, new_version: u32, is_emergency: bool) -> DekRingView {
    if is_emergency {
        DekRingView { current: new_version, retired: v.retired, revoked: v.revoked.insert(v.current) }
    } else {
        DekRingView { current: new_version, retired: v.retired.insert(v.current), revoked: v.revoked }
    }
}

impl DekRing {
    pub closed spec fn view(&self) -> DekRingView {
        DekRingView {
            current: self.current,
            retired: self.retired@.to_set(),
            revoked: self.revoked@.to_set(),
        }
    }

    pub closed spec fn wf(&self) -> bool {
        sorted_distinct(self.retired@) && distinct_u32(self.revoked@)
    }

    /// The retired versions in increasing order (the order the legacy
    /// probe and the re-encryption sweep visit them).
    pub closed spec fn retired_order(&self) -> Seq<u32> {
        self.retired@
    }

    /// A ring whose current epoch is `current`, with nothing retired or
    /// revoked.
    pub fn new(current: u32) -> (r: Self)
        ensures
            r.wf(),
            r.view() == (DekRingView { current, retired: Set::empty(), revoked: Set::empty() }),
    {
        let r = DekRing { current, retired: Vec::new(), revoked: Vec::new() };
        assert(r.retired@.to_set() =~= Set::<u32>::empty());
        assert(r.revoked@.to_set() =~= Set::<u32>::empty());
        r
    }

    /// The current version.
    pub fn current(&self) -> (r: u32)
        ensures
            r == self.view().current,
    {
        self.current
    }

    /// The retired versions, in increasing order.
    pub fn retired_versions(&self) -> (r: Vec<u32>)
        requires
            self.wf(),
        ensures
            r@ == self.retired_order(),
            r@.to_set() == self.view().retired,
            sorted_distinct(r@),
    {
        self.retired.clone()
    }

    /// Whether `version` is retired (and so still readable).
    pub fn is_retired(&self, version: u32) -> (r: bool)
        ensures
            r == self.view().retired.contains(version),
    {
        let mut i: usize = 0;
        while i < self.retired.len()
            invariant
                i <= self.retired@.len(),
                forall|j: int| 0 <= j < i ==> self.retired@[j] != version,
            decreases self.retired.len() - i,
        {
            if self.retired[i] == version {
                assert(self.retired@.to_set().contains(version)) by {
                    assert(self.retired@.contains(version));
                }
                return true;
            }
            i = i + 1;
        }
        assert(!self.retired@.contains(version));
        false
    }

    /// Whether `version` was revoked by an emergency rotation.
    pub fn is_revoked(&self, version: u32) -> (r: bool)
        ensures
            r == self.view().revoked.contains(version),
    {
        let mut i: usize = 0;
        while i < self.revoked.len()
            invariant
                i <= self.revoked@.len(),
                forall|j: int| 0 <= j < i ==> self.revoked@[j] != version,
            decreases self.revoked.len() - i,
        {
            if self.revoked[i] == version {
                assert(self.revoked@.contains(version));
                return true;
            }
            i = i + 1;
        }
        assert(!self.revoked@.contains(version));
        false
    }

    /// The epoch that decrypts a record whose metadata names `hint`: the
    /// exact epoch named, never another one; a legacy record (`None`) is
    /// probed.
    pub fn choose_epoch(&self, hint: Option<u32>) -> (r: EpochChoice)
        ensures
            r == epoch_for(self.view(), hint),
    {
        match hint {
            None => EpochChoice::Probe,
            Some(h) => {
                if h == self.current {
                    EpochChoice::Current
                } else if self.is_retired(h) {
                    EpochChoice::Retired(h)
                } else {
                    EpochChoice::Unknown(h)
                }
            },
        }
    }

    /// Adds `version` to the retired epochs (replacing an equal one).
    pub fn retire(&mut self, version: u32)
        requires
            old(self).wf(),
        ensures
            final(self).wf(),
            final(self).view() == (DekRingView {
                retired: old(self).view().retired.insert(version),
                ..old(self).view()
            }),
    {
        let mut i: usize = 0;
        while i < self.retired.len() && self.retired[i] < version
            invariant
                i <= self.retired@.len(),
                forall|j: int| 0 <= j < i ==> self.retired@[j] < version,
            decreases self.retired.len() - i,
        {
            i = i + 1;
        }
        let ghost before = self.retired@;
        if i < self.retired.len() && self.retired[i] == version {
            assert(before.to_set().insert(version) =~= before.to_set());
            return;
        }
        self.retired.insert(i, version);
        proof {
            let after = self.retired@;
            assert(after =~= before.subrange(0, i as int).push(version) + before.subrange(
                i as int,
                before.len() as int,
            ));
            assert forall|a: int, b: int| 0 <= a < b < after.len() implies after[a] < after[b] by {
                if b < i {
                    assert(after[a] == before[a] && after[b] == before[b]);
                } else if b == i {
                    assert(after[a] == before[a]);
                } else if a < i {
                    assert(after[a] == before[a] && after[b] == before[b - 1]);
                    assert(before[b - 1] >= before[i as int]);
                    assert(before[i as int] > version);
                } else if a == i {
                    assert(after[b] == before[b - 1]);
                    assert(before[b - 1] >= before[i as int]);
                } else {
                    assert(after[a] == before[a - 1] && after[b] == before[b - 1]);
                }
            }
            assert forall|x: u32| after.to_set().contains(x) <==> before.to_set().insert(version).contains(x) by {
                if after.contains(x) {
                    let j = choose|j: int| 0 <= j < after.len() && after[j] == x;
                    if j < i {
                        assert(before[j] == x);
                    } else if j > i {
                        assert(before[j - 1] == x);
                    }
                }
                if before.contains(x) {
                    let j = choose|j: int| 0 <= j < before.len() && before[j] == x;
                    if j < i {
                        assert(after[j] == x);
                    } else {
                        assert(after[j + 1] == x);
                    }
                }
                if x == version {
                    assert(after[i as int] == x);
                }
            }
            assert(after.to_set() =~= before.to_set().insert(version));
        }
    }

    fn revoke(&mut self, version: u32)
        requires
            old(self).wf(),
        ensures
            final(self).wf(),
            final(self).view() == (DekRingView {
                revoked: old(self).view().revoked.insert(version),
                ..old(self).view()
            }),
            final(self).retired_order() == old(self).retired_order(),
    {
        if self.is_revoked(version) {
            assert(self.revoked@.to_set().insert(version) =~= self.revoked@.to_set());
            return;
        }
        let ghost before = self.revoked@;
        self.revoked.push(version);
        proof {
            assert forall|a: int, b: int| 0 <= a < b < self.revoked@.len() implies self.revoked@[a]
                != self.revoked@[b] by {
                assert(self.revoked@[a] == before[a]);
                if b < before.len() {
                    assert(self.revoked@[b] == before[b]);
                } else {
                    assert(!before.contains(version));
                }
            }
            assert(self.revoked@.to_set() =~= before.to_set().insert(version)) by {
                assert forall|x: u32|
                    self.revoked@.to_set().contains(x) <==> before.to_set().insert(version).contains(x) by {
                    if self.revoked@.contains(x) {
                        let j = choose|j: int| 0 <= j < self.revoked@.len() && self.revoked@[j] == x;
                        if j < before.len() {
                            assert(before[j] == x);
                        }
                    }
                    if before.contains(x) {
                        let j = choose|j: int| 0 <= j < before.len() && before[j] == x;
                        assert(self.revoked@[j] == x);
                    }
                    if x == version {
                        assert(self.revoked@[before.len() as int] == x);
                    }
                }
            }
        }
    }

    /// Makes `version` current, as when a node adopts the cluster's DEK
    /// before it joins.
    pub fn set_current(&mut self, version: u32)
        requires
            old(self).wf(),
        ensures
            final(self).wf(),
            final(self).view() == (DekRingView { current: version, ..old(self).view() }),
    {
        self.current = version;
    }

    /// Swaps in `new_version` after a committed rotation: a normal rotation
    /// retires the old epoch (to be re-encrypted away), an emergency one
    /// revokes it (never used again, not even for re-encryption).
    pub fn complete_rotation(&mut self, new_version: u32, is_emergency: bool) -> (r: RotationEffect)
        requires
            old(self).wf(),
        ensures
            final(self).wf(),
            final(self).view() == after_rotation(old(self).view(), new_version, is_emergency),
            r.old_version == old(self).view().current,
            r.reencrypt_old == !is_emergency,
            r.revoked_over_capacity == (is_emergency && old(self).view().revoked.len() >= MAX_REVOKED_DEKS),
    {
        let old_version = self.current;
        self.current = new_version;
        if is_emergency {
            let over = self.revoked.len() >= MAX_REVOKED_DEKS;
            proof {
                assert(self.revoked@.no_duplicates()) by {
                    assert forall|a: int, b: int|
                        0 <= a < self.revoked@.len() && 0 <= b < self.revoked@.len() && a != b implies self.revoked@[a]
                        != self.revoked@[b] by {
                        if a < b {
                        } else {
                        }
                    }
                }
                self.revoked@.unique_seq_to_set();
            }
            self.revoke(old_version);
            RotationEffect { old_version, reencrypt_old: false, revoked_over_capacity: over }
        } else {
            self.retire(old_version);
            RotationEffect { old_version, reencrypt_old: true, revoked_over_capacity: false }
        }
    }
}

/// After a normal rotation, a record written under the old epoch is still
/// decrypted with exactly that epoch; after an emergency rotation the old
/// epoch is revoked and the new one decrypts records that name it.
pub proof fn law_rotation_keeps_old_records_readable(v: DekRingView, new_version: u32)
    requires
        new_version != v.current,
    ensures
        epoch_for(after_rotation(v, new_version, false), Some(v.current)) == EpochChoice::Retired(
            v.current,
        ),
        epoch_for(after_rotation(v, new_version, false), Some(new_version)) == EpochChoice::Current,
        epoch_for(after_rotation(v, new_version, true), Some(new_version)) == EpochChoice::Current,
        after_rotation(v, new_version, true).revoked.contains(v.current),
{
}

/// A hint never selects an epoch other than the one it names.
pub proof fn law_hint_never_probes(v: DekRingView, h: u32)
    ensures
        epoch_for(v, Some(h)) != EpochChoice::Probe,
        epoch_for(v, Some(h)) matches EpochChoice::Retired(x) ==> x == h,
        epoch_for(v, Some(h)) matches EpochChoice::Unknown(x) ==> x == h,
        epoch_for(v, Some(h)) == EpochChoice::Current ==> h == v.current,
{
}

} // verus!
