//! Background re-encryption of records still under a retired DEK epoch:
//! which keyspaces and epochs a sweep visits, how one optimistic (CAS)
//! attempt on a record is decided, and the tally of a pass.
use crate::keys::{check_unencrypted_keyspace, is_unencrypted_keyspace};
use crate::types::Metadata;
use vstd::prelude::*;
use vstd::string::StringSliceAdditionalSpecFns;

verus! {

/// Attempts per record before it is left for the next rotation cycle.
pub const REENCRYPT_MAX_CAS_ATTEMPTS: usize = 3;

/// How migrating one record went.
#[derive(Debug, Clone, Copy, PartialEq, Eq, Structural)]
pub enum ReencryptOutcome {
    /// Re-encrypted under the current epoch.
    Migrated,
    /// Not eligible: under another epoch already, or gone.
    AlreadyCurrent,
    /// Could not be migrated this pass.
    Skipped,
}

/// Summary of one re-encryption pass over a retired epoch.
#[derive(Debug, Clone, Copy, PartialEq, Eq, Structural)]
pub struct ReencryptReport {
    /// Records re-encrypted under the current epoch.
    pub migrated: u64,
    /// Records already under another epoch when visited.
    pub already_current: u64,
    /// Records that could not be migrated this pass.
    pub skipped: u64,
}

impl Default for ReencryptReport {
    fn default() -> (r: Self)
        ensures
            r == (ReencryptReport { migrated: 0, already_current: 0, skipped: 0 }),
    {
        ReencryptReport { migrated: 0, already_current: 0, skipped: 0 }
    }
}

pub open spec fn count_of(s: Seq<ReencryptOutcome>, o: ReencryptOutcome) -> nat
    decreases s.len(),
{
    if s.len() == 0 {
        0
    } else {
        count_of(s.drop_last(), o) + if s.last() == o {
            1nat
        } else {
            0nat
        }
    }
}

proof fn lemma_count_le(s: Seq<ReencryptOutcome>, o: ReencryptOutcome)
    ensures
        count_of(s, o) <= s.len(),
    decreases s.len(),
{
    if s.len() > 0 {
        lemma_count_le(s.drop_last(), o);
    }
}

impl ReencryptReport {
    /// A report with nothing counted.
    pub fn new() -> (r: Self)
        ensures
            r == (ReencryptReport { migrated: 0, already_current: 0, skipped: 0 }),
    {
        ReencryptReport { migrated: 0, already_current: 0, skipped: 0 }
    }

    /// Counts one record's outcome.
    pub fn record(&mut self, o: ReencryptOutcome)
        requires
            old(self).migrated < u64::MAX,
            old(self).already_current < u64::MAX,
            old(self).skipped < u64::MAX,
        ensures
            final(self).migrated == old(self).migrated + if o == ReencryptOutcome::Migrated {
                1int
            } else {
                0int
            },
            final(self).already_current == old(self).already_current + if o == ReencryptOutcome::AlreadyCurrent {
                1int
            } else {
                0int
            },
            final(self).skipped == old(self).skipped + if o == ReencryptOutcome::Skipped {
                1int
            } else {
                0int
            },
    {
        match o {
            ReencryptOutcome::Migrated => self.migrated = self.migrated + 1,
            ReencryptOutcome::AlreadyCurrent => self.already_current = self.already_current + 1,
            ReencryptOutcome::Skipped => self.skipped = self.skipped + 1,
        }
    }

    /// Whether the pass left nothing to retry, so the epoch can be marked
    /// fully migrated (no write ever puts a record back under a retired
    /// epoch).
    pub fn is_clean(&self) -> (r: bool)
        ensures
            r == (self.skipped == 0),
    {
        self.skipped == 0
    }

    /// The report of a pass whose records came out as `outcomes`.
    pub fn tally(outcomes: &Vec<ReencryptOutcome>) -> (r: Self)
        requires
            outcomes@.len() < u64::MAX,
        ensures
            r.migrated == count_of(outcomes@, ReencryptOutcome::Migrated),
            r.already_current == count_of(outcomes@, ReencryptOutcome::AlreadyCurrent),
            r.skipped == count_of(outcomes@, ReencryptOutcome::Skipped),
    {
        let mut r = ReencryptReport::new();
        let mut i: usize = 0;
        while i < outcomes.len()
            invariant
                i <= outcomes@.len(),
                outcomes@.len() < u64::MAX,
                r.migrated == count_of(outcomes@.subrange(0, i as int), ReencryptOutcome::Migrated),
                r.already_current == count_of(outcomes@.subrange(0, i as int), ReencryptOutcome::AlreadyCurrent),
                r.skipped == count_of(outcomes@.subrange(0, i as int), ReencryptOutcome::Skipped),
            decreases outcomes.len() - i,
        {
            let ghost pre = outcomes@.subrange(0, i as int);
            proof {
                lemma_count_le(pre, ReencryptOutcome::Migrated);
                lemma_count_le(pre, ReencryptOutcome::AlreadyCurrent);
                lemma_count_le(pre, ReencryptOutcome::Skipped);
            }
            assert(outcomes@.subrange(0, i + 1).drop_last() =~= pre);
            r.record(outcomes[i]);
            i = i + 1;
        }
        assert(outcomes@.subrange(0, i as int) =~= outcomes@);
        r
    }
}

/// Whether the sweep visits keyspace `name`: not `meta`, `logs` or
/// `index`, which never hold state-encrypted records.
pub fn is_reencrypt_keyspace(name: &str) -> (r: bool)
    ensures
        r == !is_unencrypted_keyspace(name.spec_bytes()),
{
    !check_unencrypted_keyspace(name.as_bytes())
}

/// The entries of `retired` whose `done` flag is unset, in order.
pub open spec fn not_done(retired: Seq<u32>, done: Seq<bool>) -> Seq<u32>
    decreases retired.len(),
{
    if retired.len() == 0 {
        Seq::empty()
    } else if done[retired.len() - 1] {
        not_done(retired.drop_last(), done)
    } else {
        not_done(retired.drop_last(), done).push(retired.last())
    }
}

/// The retired epochs a sweep visits, in order: those not yet marked fully
/// migrated (`done[i]` tells whether `retired[i]` is).
pub fn sweep_targets(retired: &Vec<u32>, done: &Vec<bool>) -> (r: Vec<u32>)
    requires
        done@.len() == retired@.len(),
    ensures
        r@ == not_done(retired@, done@),
{
    let mut out: Vec<u32> = Vec::new();
    let mut i: usize = 0;
    while i < retired.len()
        invariant
            i <= retired@.len(),
            done@.len() == retired@.len(),
            out@ == not_done(retired@.subrange(0, i as int), done@),
        decreases retired.len() - i,
    {
        let ghost sub = retired@.subrange(0, i + 1);
        assert(sub.drop_last() =~= retired@.subrange(0, i as int));
        assert(sub.last() == retired@[i as int]);
        if !done[i] {
            out.push(retired[i]);
        }
        i = i + 1;
    }
    assert(retired@.subrange(0, i as int) =~= retired@);
    out
}

/// The sweep visits exactly the retired versions whose own done flag is
/// unset, in their order: the targets are `retired` at the strictly
/// increasing positions `idx`, every one of them not done, and every
/// position that is not done is among them. Marking one epoch done never
/// drops another.
pub proof fn law_sweep_targets_are_the_not_done_epochs(retired: Seq<u32>, done: Seq<bool>) -> (idx: Seq<int>)
    requires
        done.len() == retired.len(),
    ensures
        idx.len() == not_done(retired, done).len(),
        forall|k: int| 0 <= k < idx.len() ==> 0 <= #[trigger] idx[k] < retired.len() && !done[idx[k]]
            && not_done(retired, done)[k] == retired[idx[k]],
        forall|a: int, b: int| 0 <= a < b < idx.len() ==> idx[a] < idx[b],
        forall|i: int| 0 <= i < retired.len() && !done[i] ==> exists|k: int| 0 <= k < idx.len() && idx[k] == i,
    decreases retired.len(),
{
    if retired.len() == 0 {
        Seq::empty()
    } else {
        let n = retired.len() - 1;
        let rp = retired.drop_last();
        let dp = done.drop_last();
        let prev = law_sweep_targets_are_the_not_done_epochs(rp, dp);
        assert forall|j: int| 0 <= j < dp.len() implies dp[j] == done[j] && rp[j] == retired[j] by {}
        lemma_not_done_prefix_flags(rp, done, dp);
        if done[n] {
            assert forall|i: int| 0 <= i < retired.len() && !done[i] implies exists|k: int|
                0 <= k < prev.len() && prev[k] == i by {
                assert(i < n);
                assert(!dp[i]);
            }
            prev
        } else {
            let idx = prev.push(n);
            assert forall|i: int| 0 <= i < retired.len() && !done[i] implies exists|k: int|
                0 <= k < idx.len() && idx[k] == i by {
                if i < n {
                    assert(!dp[i]);
                    let k = choose|k: int| 0 <= k < prev.len() && prev[k] == i;
                    assert(idx[k] == i);
                } else {
                    assert(idx[prev.len() as int] == i);
                }
            }
            assert forall|k: int| 0 <= k < idx.len() implies 0 <= #[trigger] idx[k] < retired.len() && !done[idx[k]]
                && not_done(retired, done)[k] == retired[idx[k]] by {
                if k < prev.len() {
                    assert(idx[k] == prev[k]);
                }
            }
            idx
        }
    }
}

/// `not_done` of a prefix only reads the flags of that prefix.
proof fn lemma_not_done_prefix_flags(r: Seq<u32>, d1: Seq<bool>, d2: Seq<bool>)
    requires
        d1.len() >= r.len(),
        d2.len() >= r.len(),
        forall|j: int| 0 <= j < r.len() ==> d1[j] == d2[j],
    ensures
        not_done(r, d1) == not_done(r, d2),
    decreases r.len(),
{
    if r.len() > 0 {
        lemma_not_done_prefix_flags(r.drop_last(), d1, d2);
    }
}

/// How the record's metadata read in one attempt.
#[derive(Debug, Clone, Copy, PartialEq, Eq, Structural)]
pub enum MetaRead {
    /// `meta` holds nothing under the key.
    Missing,
    /// `meta` holds bytes that do not unpack.
    Undecodable,
    Decoded(Metadata),
}

/// The first decision of an attempt, before decrypting.
#[derive(Debug, Clone, Copy, PartialEq, Eq, Structural)]
pub enum Precheck {
    /// The attempt ends here with this outcome.
    Finish(ReencryptOutcome),
    /// The record is under the epoch being swept: decrypt it with that
    /// epoch. Carries its metadata.
    Proceed(Metadata),
}

/// Decides whether a record is to be migrated off epoch `old_version`:
/// a record or metadata that vanished is no longer eligible, undecodable
/// metadata is skipped, and a record under another epoch is left alone.
pub fn reencrypt_precheck(record_present: bool, meta: MetaRead, old_version: u32) -> (r: Precheck)
    ensures
        !record_present ==> r == Precheck::Finish(ReencryptOutcome::AlreadyCurrent),
        record_present ==> r == match meta {
            MetaRead::Missing => Precheck::Finish(ReencryptOutcome::AlreadyCurrent),
            MetaRead::Undecodable => Precheck::Finish(ReencryptOutcome::Skipped),
            MetaRead::Decoded(m) => if m.dek_version == Some(old_version) {
                Precheck::Proceed(m)
            } else {
                Precheck::Finish(ReencryptOutcome::AlreadyCurrent)
            },
        },
{
    if !record_present {
        return Precheck::Finish(ReencryptOutcome::AlreadyCurrent);
    }
    match meta {
        MetaRead::Missing => Precheck::Finish(ReencryptOutcome::AlreadyCurrent),
        MetaRead::Undecodable => Precheck::Finish(ReencryptOutcome::Skipped),
        MetaRead::Decoded(m) => {
            if m.dek_version == Some(old_version) {
                Precheck::Proceed(m)
            } else {
                Precheck::Finish(ReencryptOutcome::AlreadyCurrent)
            }
        },
    }
}

/// The metadata a migrated record gets: the same, under the current epoch.
pub fn migrated_metadata(m: Metadata, current_version: u32) -> (r: Metadata)
    ensures
        r == (Metadata { dek_version: Some(current_version), ..m }),
{
    Metadata { dek_version: Some(current_version), ..m }
}

/// How the rest of one attempt went, after the precheck.
#[derive(Debug, Clone, Copy, PartialEq, Eq, Structural)]
pub struct AttemptReport {
    /// The old epoch decrypted the record.
    pub decrypted: bool,
    /// The current epoch's version when the attempt re-encrypted.
    pub current_version: u32,
    /// Re-encrypting under the current epoch worked.
    pub encrypted: bool,
    /// The new metadata packed.
    pub packed: bool,
    /// Neither the record nor its metadata changed since they were read.
    pub unchanged: bool,
    /// The two writes committed.
    pub committed: bool,
}

/// The result of one attempt.
#[derive(Debug, Clone, Copy, PartialEq, Eq, Structural)]
pub enum AttemptResult {
    Done(ReencryptOutcome),
    /// Lost a race with a concurrent write: try again.
    Retry,
}

/// Settles an attempt on a record under `old_version` that passed the
/// precheck: a record the old epoch cannot decrypt, or that cannot be
/// re-encrypted or have its metadata packed, is skipped; with no newer epoch
/// installed there is nothing to migrate to; a record that changed in the
/// meantime, or whose commit failed, is retried.
pub fn settle_attempt(old_version: u32, a: AttemptReport) -> (r: AttemptResult)
    ensures
        r == if !a.decrypted {
            AttemptResult::Done(ReencryptOutcome::Skipped)
        } else if a.current_version == old_version {
            AttemptResult::Done(ReencryptOutcome::AlreadyCurrent)
        } else if !a.encrypted || !a.packed {
            AttemptResult::Done(ReencryptOutcome::Skipped)
        } else if !a.unchanged || !a.committed {
            AttemptResult::Retry
        } else {
            AttemptResult::Done(ReencryptOutcome::Migrated)
        },
{
    if !a.decrypted {
        AttemptResult::Done(ReencryptOutcome::Skipped)
    } else if a.current_version == old_version {
        AttemptResult::Done(ReencryptOutcome::AlreadyCurrent)
    } else if !a.encrypted || !a.packed {
        AttemptResult::Done(ReencryptOutcome::Skipped)
    } else if !a.unchanged || !a.committed {
        AttemptResult::Retry
    } else {
        AttemptResult::Done(ReencryptOutcome::Migrated)
    }
}

/// The outcome for a record given its attempts in order: the first attempt
/// that is done decides; a record still to retry after the last allowed
/// attempt is skipped.
pub open spec fn cas_outcome_spec(attempts: Seq<AttemptResult>) -> ReencryptOutcome
    decreases attempts.len(),
{
    if attempts.len() == 0 {
        ReencryptOutcome::Skipped
    } else {
        match attempts[0] {
            AttemptResult::Done(o) => o,
            AttemptResult::Retry => cas_outcome_spec(attempts.drop_first()),
        }
    }
}

/// The attempts that count: at most the allowed number, from the first.
pub open spec fn budgeted(a: Seq<AttemptResult>) -> Seq<AttemptResult> {
    a.take(
        if a.len() < REENCRYPT_MAX_CAS_ATTEMPTS {
            a.len() as int
        } else {
            REENCRYPT_MAX_CAS_ATTEMPTS as int
        },
    )
}

/// The outcome for a record from its attempts (at most the allowed number
/// are looked at).
pub fn cas_outcome(attempts: &Vec<AttemptResult>) -> (r: ReencryptOutcome)
    ensures
        r == cas_outcome_spec(budgeted(attempts@)),
{
    let n: usize = if attempts.len() < REENCRYPT_MAX_CAS_ATTEMPTS {
        attempts.len()
    } else {
        REENCRYPT_MAX_CAS_ATTEMPTS
    };
    let ghost s = attempts@.take(n as int);
    assert(s.skip(0) =~= s);
    let mut i: usize = 0;
    while i < n
        invariant
            i <= n <= attempts@.len(),
            s == attempts@.take(n as int),
            s == budgeted(attempts@),
            cas_outcome_spec(s) == cas_outcome_spec(s.skip(i as int)),
        decreases n - i,
    {
        let ghost t = s.skip(i as int);
        assert(t.len() > 0);
        assert(t[0] == attempts@[i as int]);
        assert(t.drop_first() =~= s.skip(i + 1));
        match attempts[i] {
            AttemptResult::Done(o) => {
                assert(cas_outcome_spec(t) == o);
                return o;
            },
            AttemptResult::Retry => {},
        }
        i = i + 1;
    }
    assert(s.skip(i as int) =~= Seq::<AttemptResult>::empty());
    ReencryptOutcome::Skipped
}

/// A record whose attempts all lose their race is skipped, never migrated
/// twice or lost: after the allowed attempts it waits for the next cycle.
pub proof fn law_exhausted_attempts_skip(attempts: Seq<AttemptResult>)
    requires
        attempts.len() == REENCRYPT_MAX_CAS_ATTEMPTS,
        forall|i: int| 0 <= i < attempts.len() ==> attempts[i] == AttemptResult::Retry,
    ensures
        cas_outcome_spec(attempts) == ReencryptOutcome::Skipped,
{
    reveal_with_fuel(cas_outcome_spec, 4);
    assert(attempts.drop_first()[0] == attempts[1]);
    assert(attempts.drop_first().drop_first()[0] == attempts[2]);
    assert(attempts.drop_first().drop_first().drop_first().len() == 0);
}

} // verus!
