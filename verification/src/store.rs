use vstd::prelude::*;

use crate::bundle::{Bundle, BundleView};
use crate::scheduler::{
    goes_before, lemma_goes_before_asymmetric, id_equal, ids_distinct, in_schedule_order, lemma_permutation_keeps_ids_distinct,
    lemma_schedule_order_strict, priority_rank_spec, BundleScheduler, ScheduleCandidate, ScheduleKey,
};

verus! {

broadcast use {vstd::set::group_set_axioms, vstd::seq_lib::group_seq_properties};

/// The version of the persisted store layout that this library reads.
pub const STORE_SCHEMA_VERSION: u8 = 1;

/// The capacity of a store opened without an explicit limit.
pub const DEFAULT_MAX_BUNDLES: usize = 4096;

/// The delay before the first retry of a failed transmission.
pub const BASE_RETRY_MS: u64 = 2_000;

/// The longest delay between two retries.
pub const MAX_RETRY_MS: u64 = 300_000;

/// A bundle held in the store with its opaque envelope bytes and its
/// transmission state.
#[derive(Debug)]
pub struct StoredBundle {
    pub bundle: Bundle,
    pub envelope: Vec<u8>,
    pub stored_at_ms: u64,
    pub attempts: u32,
    pub next_attempt_at_ms: u64,
}

/// The abstract value of a stored bundle.
pub struct StoredBundleView {
    pub bundle: BundleView,
    pub envelope: Seq<u8>,
    pub stored_at_ms: u64,
    pub attempts: u32,
    pub next_attempt_at_ms: u64,
}

impl View for StoredBundle {
    type V = StoredBundleView;

    open spec fn view(&self) -> StoredBundleView {
        StoredBundleView {
            bundle: self.bundle@,
            envelope: self.envelope@,
            stored_at_ms: self.stored_at_ms,
            attempts: self.attempts,
            next_attempt_at_ms: self.next_attempt_at_ms,
        }
    }
}

impl Clone for StoredBundle {
    fn clone(&self) -> (copy: Self)
        ensures
            copy@ == self@,
    {
        let envelope = self.envelope.clone();
        assert(envelope@ =~= self.envelope@);
        StoredBundle {
            bundle: self.bundle.clone(),
            envelope,
            stored_at_ms: self.stored_at_ms,
            attempts: self.attempts,
            next_attempt_at_ms: self.next_attempt_at_ms,
        }
    }
}

/// What became of a bundle offered to the store.
#[derive(Debug, Clone, Copy, PartialEq, Eq, Structural)]
pub enum EnqueueOutcome {
    Stored,
    Duplicate,
    Expired,
    Full,
}

/// What became of a recorded transmission attempt.
#[derive(Debug, Clone, Copy, PartialEq, Eq, Structural)]
pub enum AttemptOutcome {
    Delivered,
    Deferred { next_attempt_at_ms: u64 },
    Missing,
}

/// The word that reports an enqueue outcome.
pub open spec fn enqueue_label_spec(outcome: EnqueueOutcome) -> Seq<char> {
    match outcome {
        EnqueueOutcome::Stored => "stored"@,
        EnqueueOutcome::Duplicate => "duplicate"@,
        EnqueueOutcome::Expired => "expired"@,
        EnqueueOutcome::Full => "full"@,
    }
}

pub fn enqueue_label(outcome: &EnqueueOutcome) -> (label: &'static str)
    ensures
        label@ == enqueue_label_spec(*outcome),
{
    match outcome {
        EnqueueOutcome::Stored => "stored",
        EnqueueOutcome::Duplicate => "duplicate",
        EnqueueOutcome::Expired => "expired",
        EnqueueOutcome::Full => "full",
    }
}

/// Why persisted store contents were refused.
#[derive(Debug, Clone, Copy, PartialEq, Eq, Structural)]
pub enum StoreError {
    UnsupportedSchema { found: u8 },
}

/// The identifiers of a sequence of stored bundles, in order.
pub open spec fn key_seq(s: Seq<StoredBundle>) -> Seq<Seq<char>> {
    s.map_values(|e: StoredBundle| e.bundle.id@)
}

/// The position of the entry stored under `k`.
pub open spec fn entry_index(s: Seq<StoredBundle>, k: Seq<char>) -> int {
    choose|i: int| 0 <= i < s.len() && s[i].bundle.id@ == k
}

/// The map from identifier to stored bundle that a sequence of entries with
/// distinct identifiers stands for.
pub open spec fn entry_map(s: Seq<StoredBundle>) -> Map<Seq<char>, StoredBundleView> {
    key_seq(s).to_set().mk_map(|k: Seq<char>| s[entry_index(s, k)]@)
}

pub proof fn lemma_entry_map(s: Seq<StoredBundle>)
    requires
        key_seq(s).no_duplicates(),
    ensures
        forall|i: int|
            0 <= i < s.len() ==> entry_map(s).dom().contains(#[trigger] s[i].bundle.id@)
                && entry_map(s)[s[i].bundle.id@] == s[i]@,
        forall|k: Seq<char>|
            #[trigger] entry_map(s).dom().contains(k) ==> exists|i: int|
                0 <= i < s.len() && s[i].bundle.id@ == k,
        entry_map(s).dom().finite(),
        entry_map(s).len() == s.len(),
{
    assert forall|i: int| 0 <= i < s.len() implies entry_map(s).dom().contains(
        #[trigger] s[i].bundle.id@,
    ) && entry_map(s)[s[i].bundle.id@] == s[i]@ by {
        assert(key_seq(s)[i] == s[i].bundle.id@);
        let j = entry_index(s, s[i].bundle.id@);
        assert(key_seq(s)[j] == key_seq(s)[i]);
    }
    assert forall|k: Seq<char>| #[trigger] entry_map(s).dom().contains(k) implies exists|i: int|
        0 <= i < s.len() && s[i].bundle.id@ == k by {
        let i = choose|i: int| 0 <= i < key_seq(s).len() && key_seq(s)[i] == k;
        assert(s[i].bundle.id@ == k);
    }
    key_seq(s).unique_seq_to_set();
}

proof fn lemma_entry_map_remove(s: Seq<StoredBundle>, i: int)
    requires
        key_seq(s).no_duplicates(),
        0 <= i < s.len(),
    ensures
        key_seq(s.remove(i)).no_duplicates(),
        entry_map(s.remove(i)) == entry_map(s).remove(s[i].bundle.id@),
{
    let t = s.remove(i);
    assert(key_seq(t) =~= key_seq(s).remove(i));
    assert forall|a: int, b: int| 0 <= a < b < key_seq(t).len() implies key_seq(t)[a] != key_seq(t)[b] by {
        let a2 = if a < i { a } else { a + 1 };
        let b2 = if b < i { b } else { b + 1 };
        assert(key_seq(t)[a] == key_seq(s)[a2] && key_seq(t)[b] == key_seq(s)[b2]);
    }
    lemma_entry_map(s);
    lemma_entry_map(t);
    let k0 = s[i].bundle.id@;
    assert forall|k: Seq<char>| #[trigger] entry_map(t).dom().contains(k) <==> entry_map(s).remove(k0).dom().contains(k) by {
        if entry_map(t).dom().contains(k) {
            let j = choose|j: int| 0 <= j < t.len() && t[j].bundle.id@ == k;
            let j2 = if j < i { j } else { j + 1 };
            assert(t[j] == s[j2]);
            assert(key_seq(s)[j2] != key_seq(s)[i]);
        }
        if entry_map(s).remove(k0).dom().contains(k) {
            let j = choose|j: int| 0 <= j < s.len() && s[j].bundle.id@ == k;
            assert(j != i);
            let j2 = if j < i { j } else { j - 1 };
            assert(t[j2] == s[j]);
        }
    }
    assert forall|k: Seq<char>| #[trigger] entry_map(t).dom().contains(k) implies entry_map(t)[k] == entry_map(s)[k] by {
        let j = choose|j: int| 0 <= j < t.len() && t[j].bundle.id@ == k;
        let j2 = if j < i { j } else { j + 1 };
        assert(t[j] == s[j2]);
    }
    assert(entry_map(t) =~= entry_map(s).remove(k0));
}

proof fn lemma_entry_map_push(s: Seq<StoredBundle>, e: StoredBundle)
    requires
        key_seq(s).no_duplicates(),
        !entry_map(s).dom().contains(e.bundle.id@),
    ensures
        key_seq(s.push(e)).no_duplicates(),
        entry_map(s.push(e)) == entry_map(s).insert(e.bundle.id@, e@),
{
    let t = s.push(e);
    lemma_entry_map(s);
    assert(key_seq(t) =~= key_seq(s).push(e.bundle.id@));
    assert forall|a: int, b: int| 0 <= a < b < key_seq(t).len() implies key_seq(t)[a] != key_seq(t)[b] by {
        if b == s.len() {
            assert(key_seq(t)[a] == s[a].bundle.id@);
        } else {
            assert(key_seq(t)[a] == key_seq(s)[a] && key_seq(t)[b] == key_seq(s)[b]);
        }
    }
    lemma_entry_map(t);
    assert forall|k: Seq<char>| #[trigger] entry_map(t).dom().contains(k) <==> entry_map(s).insert(e.bundle.id@, e@).dom().contains(k) by {
        if entry_map(t).dom().contains(k) && k != e.bundle.id@ {
            let j = choose|j: int| 0 <= j < t.len() && t[j].bundle.id@ == k;
            assert(t[j] == s[j]);
        }
        if entry_map(s).dom().contains(k) {
            let j = choose|j: int| 0 <= j < s.len() && s[j].bundle.id@ == k;
            assert(t[j] == s[j]);
        }
        assert(t[s.len() as int] == e);
    }
    assert forall|k: Seq<char>| #[trigger] entry_map(t).dom().contains(k) implies entry_map(t)[k] == entry_map(s).insert(e.bundle.id@, e@)[k] by {
        assert(t[s.len() as int] == e);
        if k != e.bundle.id@ {
            let j = choose|j: int| 0 <= j < t.len() && t[j].bundle.id@ == k;
            assert(t[j] == s[j]);
        }
    }
    assert(entry_map(t) =~= entry_map(s).insert(e.bundle.id@, e@));
}

proof fn lemma_entry_map_update(s: Seq<StoredBundle>, i: int, e: StoredBundle)
    requires
        key_seq(s).no_duplicates(),
        0 <= i < s.len(),
        e.bundle.id@ == s[i].bundle.id@,
    ensures
        key_seq(s.update(i, e)).no_duplicates(),
        entry_map(s.update(i, e)) == entry_map(s).insert(e.bundle.id@, e@),
{
    let t = s.update(i, e);
    assert(key_seq(t) =~= key_seq(s));
    lemma_entry_map(s);
    lemma_entry_map(t);
    assert forall|k: Seq<char>| #[trigger] entry_map(t).dom().contains(k) <==> entry_map(s).insert(e.bundle.id@, e@).dom().contains(k) by {
        if entry_map(t).dom().contains(k) {
            let j = choose|j: int| 0 <= j < t.len() && t[j].bundle.id@ == k;
            assert(key_seq(t)[j] == key_seq(s)[j]);
        }
        if entry_map(s).dom().contains(k) {
            let j = choose|j: int| 0 <= j < s.len() && s[j].bundle.id@ == k;
            assert(key_seq(t)[j] == key_seq(s)[j]);
        }
    }
    assert forall|k: Seq<char>| #[trigger] entry_map(t).dom().contains(k) implies entry_map(t)[k] == entry_map(s).insert(e.bundle.id@, e@)[k] by {
        let j = choose|j: int| 0 <= j < t.len() && t[j].bundle.id@ == k;
        if j == i {
            assert(t[j] == e);
        } else {
            assert(t[j] == s[j]);
            assert(key_seq(s)[j] != key_seq(s)[i]);
        }
    }
    assert(entry_map(t) =~= entry_map(s).insert(e.bundle.id@, e@));
}

/// Whether a stored bundle may be sent at `now_ms`: not expired, with hops
/// left, and past its retry time.
pub open spec fn eligible(v: StoredBundleView, now_ms: u64) -> bool {
    &&& !(now_ms >= v.bundle.expires_at_ms)
    &&& v.bundle.hop_limit > 0
    &&& v.next_attempt_at_ms <= now_ms
}

/// Where a stored bundle stands in the transmission order.
pub open spec fn view_key(v: StoredBundleView) -> ScheduleKey {
    ScheduleKey {
        rank: priority_rank_spec(v.bundle.priority),
        attempts: v.attempts,
        created_at_ms: v.bundle.created_at_ms,
        id: v.bundle.id,
    }
}

/// The views of a list of stored bundles.
pub open spec fn views_of(p: Seq<&StoredBundle>) -> Seq<StoredBundleView> {
    p.map_values(|e: &StoredBundle| e@)
}

/// Whether `picked` is what `ready(now_ms, limit)` answers for contents
/// `m`: eligible entries of `m`, at most `limit` of them, in strict
/// transmission order, and every eligible entry left out comes after all of
/// them (and is left out only when `limit` entries were picked).
pub open spec fn ready_spec(
    m: Map<Seq<char>, StoredBundleView>,
    now_ms: u64,
    limit: nat,
    picked: Seq<StoredBundleView>,
) -> bool {
    &&& picked.len() <= limit
    &&& forall|i: int|
        0 <= i < picked.len() ==> m.contains_key(#[trigger] picked[i].bundle.id) && m[picked[i].bundle.id]
            == picked[i] && eligible(picked[i], now_ms)
    &&& forall|i: int, j: int|
        0 <= i < j < picked.len() ==> goes_before(view_key(#[trigger] picked[i]), view_key(#[trigger] picked[j]))
    &&& forall|k: Seq<char>|
        m.contains_key(k) && eligible(#[trigger] m[k], now_ms) && !picked.map_values(
            |v: StoredBundleView| v.bundle.id,
        ).contains(k) ==> picked.len() == limit && forall|i: int|
            0 <= i < picked.len() ==> goes_before(view_key(#[trigger] picked[i]), view_key(m[k]))
}

/// The entries of a store that have not expired at `now_ms`.
pub open spec fn prune_spec(m: Map<Seq<char>, StoredBundleView>, now_ms: u64) -> Map<
    Seq<char>,
    StoredBundleView,
> {
    m.restrict(m.dom().filter(|k: Seq<char>| !(now_ms >= m[k].bundle.expires_at_ms)))
}

/// `2^shift`, the growth of the retry delay after repeated failures.
pub open spec fn backoff_factor(shift: nat) -> nat
    decreases shift,
{
    if shift == 0 {
        1
    } else {
        2 * backoff_factor((shift - 1) as nat)
    }
}

/// The delay before the next retry after `attempts` failed attempts:
/// `BASE_RETRY_MS` doubled per failure after the first (at most eight
/// doublings), capped at `MAX_RETRY_MS`.
pub open spec fn retry_delay_spec(attempts: u32) -> u64 {
    let shift: nat = if attempts == 0 {
        0
    } else if attempts - 1 > 8 {
        8
    } else {
        (attempts - 1) as nat
    };
    let raw = BASE_RETRY_MS * backoff_factor(shift);
    if raw > MAX_RETRY_MS {
        MAX_RETRY_MS
    } else {
        raw as u64
    }
}

pub fn retry_delay_ms(attempts: u32) -> (delay: u64)
    ensures
        delay == retry_delay_spec(attempts),
{
    let shift: u32 = attempts.saturating_sub(1);
    let shift: u32 = if shift > 8 { 8 } else { shift };
    let factor: u64 = 1u64 << shift;
    proof {
        assert(shift <= 8 ==> ((shift == 0 ==> (1u64 << shift) == 1) && (shift == 1 ==> (1u64
            << shift) == 2) && (shift == 2 ==> (1u64 << shift) == 4) && (shift == 3 ==> (1u64
            << shift) == 8) && (shift == 4 ==> (1u64 << shift) == 16) && (shift == 5 ==> (1u64
            << shift) == 32) && (shift == 6 ==> (1u64 << shift) == 64) && (shift == 7 ==> (1u64
            << shift) == 128) && (shift == 8 ==> (1u64 << shift) == 256))) by (bit_vector);
        reveal_with_fuel(backoff_factor, 9);
        assert(factor == backoff_factor(shift as nat));
    }
    let raw: u64 = BASE_RETRY_MS * factor;
    if raw > MAX_RETRY_MS {
        MAX_RETRY_MS
    } else {
        raw
    }
}

/// The outcome and resulting contents of offering `bundle` to a store
/// holding `m` with capacity `limit` at `now_ms`: expired entries are
/// pruned first, then the bundle is refused if expired, already held, or
/// if the store is full, and stored otherwise.
pub open spec fn enqueue_spec(
    m: Map<Seq<char>, StoredBundleView>,
    limit: nat,
    bundle: BundleView,
    envelope: Seq<u8>,
    now_ms: u64,
) -> (EnqueueOutcome, Map<Seq<char>, StoredBundleView>) {
    let pruned = prune_spec(m, now_ms);
    if now_ms >= bundle.expires_at_ms {
        (EnqueueOutcome::Expired, pruned)
    } else if pruned.contains_key(bundle.id) {
        (EnqueueOutcome::Duplicate, pruned)
    } else if pruned.len() >= limit {
        (EnqueueOutcome::Full, pruned)
    } else {
        (
            EnqueueOutcome::Stored,
            pruned.insert(
                bundle.id,
                StoredBundleView {
                    bundle,
                    envelope,
                    stored_at_ms: now_ms,
                    attempts: 0,
                    next_attempt_at_ms: now_ms,
                },
            ),
        )
    }
}

/// The outcome and resulting contents of recording an attempt to send the
/// bundle stored under `id`: a delivered bundle leaves the store; a failed
/// one counts the failure and waits `retry_delay_spec` before its next try.
pub open spec fn attempt_spec(
    m: Map<Seq<char>, StoredBundleView>,
    id: Seq<char>,
    now_ms: u64,
    delivered: bool,
) -> (AttemptOutcome, Map<Seq<char>, StoredBundleView>) {
    if !m.contains_key(id) {
        (AttemptOutcome::Missing, m)
    } else if delivered {
        (AttemptOutcome::Delivered, m.remove(id))
    } else {
        let e = m[id];
        let attempts: u32 = if e.attempts == u32::MAX {
            u32::MAX
        } else {
            (e.attempts + 1) as u32
        };
        let delay = retry_delay_spec(attempts);
        let next: u64 = if now_ms + delay > u64::MAX {
            u64::MAX
        } else {
            (now_ms + delay) as u64
        };
        (
            AttemptOutcome::Deferred { next_attempt_at_ms: next },
            m.insert(id, StoredBundleView { attempts, next_attempt_at_ms: next, ..e }),
        )
    }
}

/// The contents that a sequence of entries stands for when each is
/// inserted in turn, a later entry replacing an earlier one of the same
/// identifier.
pub open spec fn collect_entries(s: Seq<StoredBundle>) -> Map<Seq<char>, StoredBundleView>
    decreases s.len(),
{
    if s.len() == 0 {
        Map::empty()
    } else {
        let rest = collect_entries(s.drop_first());
        if rest.contains_key(s[0].bundle.id@) {
            rest
        } else {
            rest.insert(s[0].bundle.id@, s[0]@)
        }
    }
}

proof fn lemma_collect_is_entry_map(s: Seq<StoredBundle>)
    requires
        key_seq(s).no_duplicates(),
    ensures
        collect_entries(s) == entry_map(s),
    decreases s.len(),
{
    if s.len() == 0 {
        assert(entry_map(s) =~= Map::empty());
    } else {
        lemma_entry_map(s);
        lemma_entry_map_remove(s, 0);
        assert(s.remove(0) =~= s.drop_first());
        lemma_collect_is_entry_map(s.drop_first());
        assert(!entry_map(s.drop_first()).contains_key(s[0].bundle.id@));
        assert(entry_map(s) =~= entry_map(s.drop_first()).insert(s[0].bundle.id@, s[0]@));
    }
}

/// Retry delays stay within `[BASE_RETRY_MS, MAX_RETRY_MS]` and never
/// shrink as failures accumulate.
pub proof fn lemma_retry_delay_bounded_monotone(a: u32, b: u32)
    requires
        a <= b,
    ensures
        BASE_RETRY_MS <= retry_delay_spec(a) <= MAX_RETRY_MS,
        retry_delay_spec(a) <= retry_delay_spec(b),
{
    reveal_with_fuel(backoff_factor, 9);
}

/// A store that respects its capacity still does after an enqueue: a full
/// store refuses new bundles rather than growing.
pub proof fn lemma_enqueue_respects_capacity(
    m: Map<Seq<char>, StoredBundleView>,
    limit: nat,
    bundle: BundleView,
    envelope: Seq<u8>,
    now_ms: u64,
)
    requires
        m.dom().finite(),
        m.len() <= limit,
    ensures
        enqueue_spec(m, limit, bundle, envelope, now_ms).1.len() <= limit,
        enqueue_spec(m, limit, bundle, envelope, now_ms).1.dom().finite(),
{
    let pruned = prune_spec(m, now_ms);
    let keep = m.dom().filter(|k: Seq<char>| !(now_ms >= m[k].bundle.expires_at_ms));
    assert(pruned.dom() =~= keep);
    vstd::set_lib::lemma_len_subset(keep, m.dom());
}

/// Enqueueing never drops a bundle that has not expired: the store does not
/// make room by discarding what it holds.
pub proof fn lemma_enqueue_keeps_live_bundles(
    m: Map<Seq<char>, StoredBundleView>,
    limit: nat,
    bundle: BundleView,
    envelope: Seq<u8>,
    now_ms: u64,
    k: Seq<char>,
)
    requires
        m.contains_key(k),
        !(now_ms >= m[k].bundle.expires_at_ms),
    ensures
        enqueue_spec(m, limit, bundle, envelope, now_ms).1.contains_key(k),
        enqueue_spec(m, limit, bundle, envelope, now_ms).1[k] == m[k],
{
}

/// A stored bundle can be read back with its envelope, no failed attempts,
/// and is due at once.
pub proof fn lemma_enqueue_then_get(
    m: Map<Seq<char>, StoredBundleView>,
    limit: nat,
    bundle: BundleView,
    envelope: Seq<u8>,
    now_ms: u64,
)
    requires
        enqueue_spec(m, limit, bundle, envelope, now_ms).0 == EnqueueOutcome::Stored,
    ensures
        enqueue_spec(m, limit, bundle, envelope, now_ms).1.contains_key(bundle.id),
        enqueue_spec(m, limit, bundle, envelope, now_ms).1[bundle.id].envelope == envelope,
        enqueue_spec(m, limit, bundle, envelope, now_ms).1[bundle.id].attempts == 0,
        enqueue_spec(m, limit, bundle, envelope, now_ms).1[bundle.id].bundle == bundle,
        enqueue_spec(m, limit, bundle, envelope, now_ms).1[bundle.id].stored_at_ms == now_ms,
        enqueue_spec(m, limit, bundle, envelope, now_ms).1[bundle.id].next_attempt_at_ms == now_ms,
        bundle.hop_limit > 0 ==> eligible(enqueue_spec(m, limit, bundle, envelope, now_ms).1[bundle.id], now_ms),
        m.dom().finite() ==> enqueue_spec(m, limit, bundle, envelope, now_ms).1.len() == prune_spec(m, now_ms).len() + 1,
{
    if m.dom().finite() {
        let keep = m.dom().filter(|k: Seq<char>| !(now_ms >= m[k].bundle.expires_at_ms));
        assert(prune_spec(m, now_ms).dom() =~= keep);
        vstd::set_lib::lemma_len_subset(keep, m.dom());
    }
}

/// The identifiers of the keys eligible for sending at `now_ms`.
pub open spec fn eligible_keys(m: Map<Seq<char>, StoredBundleView>, now_ms: u64) -> Set<Seq<char>> {
    m.dom().filter(|k: Seq<char>| eligible(m[k], now_ms))
}

proof fn lemma_ready_ids_distinct(
    m: Map<Seq<char>, StoredBundleView>,
    now_ms: u64,
    limit: nat,
    picked: Seq<StoredBundleView>,
)
    requires
        ready_spec(m, now_ms, limit, picked),
    ensures
        picked.map_values(|v: StoredBundleView| v.bundle.id).no_duplicates(),
        forall|i: int, j: int|
            0 <= i < picked.len() && 0 <= j < picked.len() && picked[i].bundle.id == picked[j].bundle.id
                ==> i == j,
{
    assert forall|i: int, j: int|
        0 <= i < picked.len() && 0 <= j < picked.len() && picked[i].bundle.id == picked[j].bundle.id implies i
        == j by {
        if i < j {
            assert(goes_before(view_key(picked[i]), view_key(picked[j])));
            assert(picked[i] == m[picked[i].bundle.id]);
            assert(picked[j] == m[picked[j].bundle.id]);
            lemma_goes_before_asymmetric(view_key(picked[i]), view_key(picked[j]));
        } else if j < i {
            assert(goes_before(view_key(picked[j]), view_key(picked[i])));
            assert(picked[i] == m[picked[i].bundle.id]);
            assert(picked[j] == m[picked[j].bundle.id]);
            lemma_goes_before_asymmetric(view_key(picked[i]), view_key(picked[j]));
        }
    }
    let ids = picked.map_values(|v: StoredBundleView| v.bundle.id);
    assert forall|i: int, j: int| 0 <= i < ids.len() && 0 <= j < ids.len() && i != j implies ids[i] != ids[j] by {
        assert(ids[i] == picked[i].bundle.id && ids[j] == picked[j].bundle.id);
    }
}

/// `ready` answers in the order of the README, read off the stored fields:
/// a higher priority first; within a priority, fewer failed attempts first;
/// then the older bundle. An eligible bundle left out of the answer stands
/// no earlier in that order than any bundle in it.
pub proof fn lemma_ready_follows_stored_fields(
    m: Map<Seq<char>, StoredBundleView>,
    now_ms: u64,
    limit: nat,
    picked: Seq<StoredBundleView>,
)
    requires
        ready_spec(m, now_ms, limit, picked),
    ensures
        forall|i: int, j: int|
            #![trigger picked[i], picked[j]]
            0 <= i < j < picked.len() ==> {
                let (a, b) = (picked[i], picked[j]);
                &&& priority_rank_spec(a.bundle.priority) >= priority_rank_spec(b.bundle.priority)
                &&& priority_rank_spec(a.bundle.priority) == priority_rank_spec(b.bundle.priority)
                    ==> a.attempts <= b.attempts
                &&& priority_rank_spec(a.bundle.priority) == priority_rank_spec(b.bundle.priority)
                    && a.attempts == b.attempts ==> a.bundle.created_at_ms <= b.bundle.created_at_ms
            },
        forall|i: int, k: Seq<char>|
            #![trigger picked[i], m[k]]
            0 <= i < picked.len() && m.contains_key(k) && !(now_ms >= m[k].bundle.expires_at_ms)
                && m[k].bundle.hop_limit > 0 && m[k].next_attempt_at_ms <= now_ms
                && !picked.map_values(|v: StoredBundleView| v.bundle.id).contains(k) ==> {
                let (a, b) = (picked[i], m[k]);
                &&& priority_rank_spec(a.bundle.priority) >= priority_rank_spec(b.bundle.priority)
                &&& priority_rank_spec(a.bundle.priority) == priority_rank_spec(b.bundle.priority)
                    ==> a.attempts <= b.attempts
                &&& priority_rank_spec(a.bundle.priority) == priority_rank_spec(b.bundle.priority)
                    && a.attempts == b.attempts ==> a.bundle.created_at_ms <= b.bundle.created_at_ms
            },
{
    assert forall|i: int, j: int| #![trigger picked[i], picked[j]] 0 <= i < j < picked.len() implies {
        let (a, b) = (picked[i], picked[j]);
        &&& priority_rank_spec(a.bundle.priority) >= priority_rank_spec(b.bundle.priority)
        &&& priority_rank_spec(a.bundle.priority) == priority_rank_spec(b.bundle.priority)
            ==> a.attempts <= b.attempts
        &&& priority_rank_spec(a.bundle.priority) == priority_rank_spec(b.bundle.priority)
            && a.attempts == b.attempts ==> a.bundle.created_at_ms <= b.bundle.created_at_ms
    } by {
        assert(goes_before(view_key(picked[i]), view_key(picked[j])));
    }
    assert forall|i: int, k: Seq<char>| #![trigger picked[i], m[k]]
        0 <= i < picked.len() && m.contains_key(k) && !(now_ms >= m[k].bundle.expires_at_ms)
            && m[k].bundle.hop_limit > 0 && m[k].next_attempt_at_ms <= now_ms
            && !picked.map_values(|v: StoredBundleView| v.bundle.id).contains(k) implies {
        let (a, b) = (picked[i], m[k]);
        &&& priority_rank_spec(a.bundle.priority) >= priority_rank_spec(b.bundle.priority)
        &&& priority_rank_spec(a.bundle.priority) == priority_rank_spec(b.bundle.priority)
            ==> a.attempts <= b.attempts
        &&& priority_rank_spec(a.bundle.priority) == priority_rank_spec(b.bundle.priority)
            && a.attempts == b.attempts ==> a.bundle.created_at_ms <= b.bundle.created_at_ms
    } by {
        assert(eligible(m[k], now_ms));
        assert(goes_before(view_key(picked[i]), view_key(m[k])));
    }
}

/// What `ready` may answer and must not leave out, read off the stored
/// fields: every bundle it returns is held, unexpired, has a hop left and
/// is past its retry time; and when it returns fewer than `limit` bundles,
/// every held bundle meeting those three conditions is among them, however
/// many times it has failed.
pub proof fn lemma_ready_selects_by_stored_fields(
    m: Map<Seq<char>, StoredBundleView>,
    now_ms: u64,
    limit: nat,
    picked: Seq<StoredBundleView>,
)
    requires
        ready_spec(m, now_ms, limit, picked),
    ensures
        forall|i: int|
            0 <= i < picked.len() ==> {
                let v = #[trigger] picked[i];
                &&& m.contains_key(v.bundle.id) && m[v.bundle.id] == v
                &&& now_ms < v.bundle.expires_at_ms
                &&& v.bundle.hop_limit > 0
                &&& v.next_attempt_at_ms <= now_ms
            },
        forall|k: Seq<char>|
            #[trigger] m.contains_key(k) && now_ms < m[k].bundle.expires_at_ms && m[k].bundle.hop_limit > 0
                && m[k].next_attempt_at_ms <= now_ms && picked.len() < limit ==> exists|i: int|
                0 <= i < picked.len() && picked[i].bundle.id == k,
{
    assert forall|k: Seq<char>|
        #[trigger] m.contains_key(k) && now_ms < m[k].bundle.expires_at_ms && m[k].bundle.hop_limit > 0
            && m[k].next_attempt_at_ms <= now_ms && picked.len() < limit implies exists|i: int|
            0 <= i < picked.len() && picked[i].bundle.id == k by {
        assert(eligible(m[k], now_ms));
        let ids = picked.map_values(|v: StoredBundleView| v.bundle.id);
        assert(ids.contains(k));
        let i = choose|i: int| 0 <= i < ids.len() && ids[i] == k;
        assert(picked[i].bundle.id == k);
    }
}

/// A failed attempt changes nothing but the failure count and the retry
/// time of the bundle it concerns: the bundle, its envelope and its storage
/// time stay, the count grows by one (saturating), the retry lies between
/// `BASE_RETRY_MS` and `MAX_RETRY_MS` ahead (saturating at the end of time),
/// and every other entry is untouched. So a bundle that was eligible but for
/// its retry time is eligible again from its retry time until it expires.
pub proof fn lemma_failed_attempt_only_defers(
    m: Map<Seq<char>, StoredBundleView>,
    id: Seq<char>,
    now_ms: u64,
)
    requires
        m.contains_key(id),
    ensures
        ({
            let (outcome, after) = attempt_spec(m, id, now_ms, false);
            let (e, f) = (m[id], after[id]);
            &&& after.contains_key(id)
            &&& after.dom() == m.dom()
            &&& forall|k: Seq<char>| #[trigger] after.contains_key(k) && k != id ==> after[k] == m[k]
            &&& f.bundle == e.bundle
            &&& f.envelope == e.envelope
            &&& f.stored_at_ms == e.stored_at_ms
            &&& f.attempts == if e.attempts == u32::MAX { e.attempts as int } else { e.attempts + 1 }
            &&& outcome == (AttemptOutcome::Deferred { next_attempt_at_ms: f.next_attempt_at_ms })
            &&& (f.next_attempt_at_ms == u64::MAX || (now_ms + BASE_RETRY_MS <= f.next_attempt_at_ms
                <= now_ms + MAX_RETRY_MS))
            &&& forall|t: u64|
                f.next_attempt_at_ms <= t && t < e.bundle.expires_at_ms && e.bundle.hop_limit > 0
                    ==> #[trigger] eligible(f, t)
        }),
{
    let e = m[id];
    let attempts: u32 = if e.attempts == u32::MAX { u32::MAX } else { (e.attempts + 1) as u32 };
    lemma_retry_delay_bounded_monotone(attempts, attempts);
    let after = attempt_spec(m, id, now_ms, false).1;
    assert(after.dom() =~= m.dom());
}

/// A live bundle already held is refused as a duplicate however full the
/// store is; a bundle is refused as full only when no live bundle with its
/// identifier is held and the live bundles fill the store.
pub proof fn lemma_enqueue_duplicate_before_full(
    m: Map<Seq<char>, StoredBundleView>,
    limit: nat,
    bundle: BundleView,
    envelope: Seq<u8>,
    now_ms: u64,
)
    ensures
        now_ms < bundle.expires_at_ms && m.contains_key(bundle.id) && now_ms < m[bundle.id].bundle.expires_at_ms
            ==> enqueue_spec(m, limit, bundle, envelope, now_ms).0 == EnqueueOutcome::Duplicate,
        enqueue_spec(m, limit, bundle, envelope, now_ms).0 == EnqueueOutcome::Full ==> {
            &&& now_ms < bundle.expires_at_ms
            &&& !(m.contains_key(bundle.id) && now_ms < m[bundle.id].bundle.expires_at_ms)
            &&& prune_spec(m, now_ms).len() >= limit
        },
        enqueue_spec(m, limit, bundle, envelope, now_ms).0 == EnqueueOutcome::Stored ==> !(m.contains_key(
            bundle.id,
        ) && now_ms < m[bundle.id].bundle.expires_at_ms),
{
}

/// `ready` returns as many bundles as it may: the limit, or every eligible
/// bundle when fewer are eligible.
pub proof fn lemma_ready_count(
    m: Map<Seq<char>, StoredBundleView>,
    now_ms: u64,
    limit: nat,
    picked: Seq<StoredBundleView>,
)
    requires
        m.dom().finite(),
        ready_spec(m, now_ms, limit, picked),
    ensures
        eligible_keys(m, now_ms).finite(),
        picked.len() == if limit < eligible_keys(m, now_ms).len() {
            limit
        } else {
            eligible_keys(m, now_ms).len()
        },
{
    let e = eligible_keys(m, now_ms);
    vstd::set_lib::lemma_len_subset(e, m.dom());
    lemma_ready_ids_distinct(m, now_ms, limit, picked);
    let ids = picked.map_values(|v: StoredBundleView| v.bundle.id);
    ids.unique_seq_to_set();
    assert(ids.to_set().subset_of(e)) by {
        assert forall|k: Seq<char>| ids.to_set().contains(k) implies e.contains(k) by {
            let i = choose|i: int| 0 <= i < ids.len() && ids[i] == k;
            assert(ids[i] == picked[i].bundle.id);
        }
    }
    vstd::set_lib::lemma_len_subset(ids.to_set(), e);
    if picked.len() < limit {
        assert(e.subset_of(ids.to_set())) by {
            assert forall|k: Seq<char>| e.contains(k) implies ids.to_set().contains(k) by {
                assert(m.contains_key(k) && eligible(m[k], now_ms));
            }
        }
        vstd::set_lib::lemma_len_subset(e, ids.to_set());
    }
}

proof fn lemma_ready_prefix_at(
    m: Map<Seq<char>, StoredBundleView>,
    now_ms: u64,
    k: nat,
    l: nat,
    p1: Seq<StoredBundleView>,
    p2: Seq<StoredBundleView>,
    i: int,
)
    requires
        ready_spec(m, now_ms, k, p1),
        ready_spec(m, now_ms, l, p2),
        k <= l,
        0 <= i < p1.len(),
        i < p2.len(),
        forall|j: int| 0 <= j < i ==> p1[j] == p2[j],
    ensures
        p1[i] == p2[i],
{
    lemma_ready_ids_distinct(m, now_ms, k, p1);
    lemma_ready_ids_distinct(m, now_ms, l, p2);
    let ids1 = p1.map_values(|v: StoredBundleView| v.bundle.id);
    let ids2 = p2.map_values(|v: StoredBundleView| v.bundle.id);
    let a = p1[i];
    let b = p2[i];
    assert(a == m[a.bundle.id] && b == m[b.bundle.id]);
    assert(ids1[i] == a.bundle.id && ids2[i] == b.bundle.id);
    if a.bundle.id != b.bundle.id {
        // Where does `a` stand in `p2`, and `b` in `p1`?
        if ids2.contains(a.bundle.id) {
            let t = choose|t: int| 0 <= t < ids2.len() && ids2[t] == a.bundle.id;
            assert(ids2[t] == p2[t].bundle.id);
            if t < i {
                assert(p1[t] == p2[t]);
                assert(ids1[t] == p1[t].bundle.id);
            }
            assert(t > i);
            assert(p2[t] == m[a.bundle.id]);
            assert(goes_before(view_key(b), view_key(a)));
        } else {
            assert(m.contains_key(a.bundle.id) && eligible(m[a.bundle.id], now_ms));
            assert(goes_before(view_key(p2[i]), view_key(m[a.bundle.id])));
        }
        // Now `b` goes before `a`; look for `b` in `p1`.
        if ids1.contains(b.bundle.id) {
            let u = choose|u: int| 0 <= u < ids1.len() && ids1[u] == b.bundle.id;
            assert(ids1[u] == p1[u].bundle.id);
            if u < i {
                assert(p1[u] == p2[u]);
                assert(ids2[u] == p2[u].bundle.id);
            }
            assert(u > i);
            assert(p1[u] == m[b.bundle.id]);
            assert(goes_before(view_key(a), view_key(b)));
            lemma_goes_before_asymmetric(view_key(a), view_key(b));
        } else {
            assert(m.contains_key(b.bundle.id) && eligible(m[b.bundle.id], now_ms));
            assert(goes_before(view_key(p1[i]), view_key(m[b.bundle.id])));
            lemma_goes_before_asymmetric(view_key(a), view_key(b));
        }
    }
}

proof fn lemma_ready_prefix_upto(
    m: Map<Seq<char>, StoredBundleView>,
    now_ms: u64,
    k: nat,
    l: nat,
    p1: Seq<StoredBundleView>,
    p2: Seq<StoredBundleView>,
    n: int,
)
    requires
        ready_spec(m, now_ms, k, p1),
        ready_spec(m, now_ms, l, p2),
        k <= l,
        0 <= n <= p1.len(),
        n <= p2.len(),
    ensures
        forall|j: int| 0 <= j < n ==> p1[j] == p2[j],
    decreases n,
{
    if n > 0 {
        lemma_ready_prefix_upto(m, now_ms, k, l, p1, p2, n - 1);
        lemma_ready_prefix_at(m, now_ms, k, l, p1, p2, n - 1);
    }
}

/// Asking `ready` for fewer bundles gives a prefix of the longer answer.
pub proof fn lemma_ready_prefix(
    m: Map<Seq<char>, StoredBundleView>,
    now_ms: u64,
    k: nat,
    l: nat,
    p1: Seq<StoredBundleView>,
    p2: Seq<StoredBundleView>,
)
    requires
        ready_spec(m, now_ms, k, p1),
        ready_spec(m, now_ms, l, p2),
        k <= l,
    ensures
        p1 == p2.take(if k < p2.len() { k as int } else { p2.len() as int }),
{
    let n = if p1.len() < p2.len() { p1.len() as int } else { p2.len() as int };
    lemma_ready_prefix_upto(m, now_ms, k, l, p1, p2, n);
    lemma_ready_ids_distinct(m, now_ms, k, p1);
    lemma_ready_ids_distinct(m, now_ms, l, p2);
    let ids1 = p1.map_values(|v: StoredBundleView| v.bundle.id);
    let ids2 = p2.map_values(|v: StoredBundleView| v.bundle.id);
    if p1.len() < p2.len() && p1.len() < k {
        let x = p2[p1.len() as int];
        assert(x == m[x.bundle.id] && eligible(x, now_ms));
        if ids1.contains(x.bundle.id) {
            let u = choose|u: int| 0 <= u < ids1.len() && ids1[u] == x.bundle.id;
            assert(ids1[u] == p1[u].bundle.id);
            assert(p1[u] == p2[u]);
            assert(p2[u].bundle.id == p2[p1.len() as int].bundle.id);
        }
    }
    if p1.len() > p2.len() {
        let x = p1[p2.len() as int];
        assert(x == m[x.bundle.id] && eligible(x, now_ms));
        if ids2.contains(x.bundle.id) {
            let u = choose|u: int| 0 <= u < ids2.len() && ids2[u] == x.bundle.id;
            assert(ids2[u] == p2[u].bundle.id);
            assert(p1[u] == p2[u]);
            assert(p1[u].bundle.id == p1[p2.len() as int].bundle.id);
        }
    }
    assert(p1 =~= p2.take(if k < p2.len() { k as int } else { p2.len() as int }));
}

/// A delivered bundle leaves the store; recording it again finds nothing.
pub proof fn lemma_delivered_then_missing(
    m: Map<Seq<char>, StoredBundleView>,
    id: Seq<char>,
    now_ms: u64,
    later_ms: u64,
    delivered_again: bool,
)
    requires
        m.contains_key(id),
    ensures
        attempt_spec(m, id, now_ms, true).0 == AttemptOutcome::Delivered,
        !attempt_spec(m, id, now_ms, true).1.contains_key(id),
        attempt_spec(attempt_spec(m, id, now_ms, true).1, id, later_ms, delivered_again).0
            == AttemptOutcome::Missing,
        forall|k: Seq<char>|
            k != id ==> (#[trigger] attempt_spec(m, id, now_ms, true).1.contains_key(k) <==> m.contains_key(k)),
        forall|k: Seq<char>|
            k != id && m.contains_key(k) ==> #[trigger] attempt_spec(m, id, now_ms, true).1[k] == m[k],
{
}

/// After a failed attempt the bundle is not offered again before its retry
/// time, which lies at least `BASE_RETRY_MS` ahead (unless the clock
/// saturates).
pub proof fn lemma_deferred_waits(m: Map<Seq<char>, StoredBundleView>, id: Seq<char>, now_ms: u64, t: u64)
    requires
        m.contains_key(id),
        t < now_ms + BASE_RETRY_MS,
    ensures
        attempt_spec(m, id, now_ms, false).0 is Deferred,
        attempt_spec(m, id, now_ms, false).1.contains_key(id),
        !eligible(attempt_spec(m, id, now_ms, false).1[id], t),
{
    let e = m[id];
    let attempts: u32 = if e.attempts == u32::MAX { u32::MAX } else { (e.attempts + 1) as u32 };
    lemma_retry_delay_bounded_monotone(attempts, attempts);
}

/// After pruning, nothing expired remains and nothing live is lost.
pub proof fn lemma_prune_exact(m: Map<Seq<char>, StoredBundleView>, now_ms: u64, k: Seq<char>)
    ensures
        prune_spec(m, now_ms).contains_key(k) <==> (m.contains_key(k) && !(now_ms
            >= m[k].bundle.expires_at_ms)),
        prune_spec(m, now_ms).contains_key(k) ==> prune_spec(m, now_ms)[k] == m[k],
{
}

/// A bounded, local store of bundles awaiting transmission.
///
/// Entries are kept in a vector, each under its own bundle identifier, with
/// no identifier twice; lookups scan the vector. The order in which entries
/// are kept matters nowhere: the store stands for the map from identifier
/// to entry.
#[derive(Debug)]
pub struct BundleStore {
    max_bundles: usize,
    bundles: Vec<StoredBundle>,
    scheduler: BundleScheduler,
}

/// What `restore` answers for persisted contents: the contents rebuilt
/// under the current schema version, or the refusal of another version.
pub open spec fn restored_as(
    schema_version: u8,
    entries: Seq<StoredBundle>,
    max_bundles: usize,
    store: Result<BundleStore, StoreError>,
) -> bool {
    match store {
        Ok(s) => {
            &&& schema_version == STORE_SCHEMA_VERSION
            &&& s.wf()
            &&& s@ == collect_entries(entries)
            &&& s.limit() == if max_bundles == 0 { 1 } else { max_bundles as nat }
        },
        Err(e) => schema_version != STORE_SCHEMA_VERSION && e == (StoreError::UnsupportedSchema {
            found: schema_version,
        }),
    }
}

/// `entries` is what `snapshot` hands out for `store`.
pub open spec fn snapshot_of(store: BundleStore, entries: Seq<StoredBundle>) -> bool {
    &&& collect_entries(entries) == store@
    &&& entries.len() == store@.len()
}

/// Persisting a store and rebuilding it under the current schema succeeds
/// and gives back the same contents: every envelope and attempt state
/// survives the round trip.
pub proof fn lemma_snapshot_restore_round_trip(
    store: BundleStore,
    entries: Seq<StoredBundle>,
    max_bundles: usize,
    restored: Result<BundleStore, StoreError>,
)
    requires
        store.wf(),
        snapshot_of(store, entries),
        restored_as(STORE_SCHEMA_VERSION, entries, max_bundles, restored),
    ensures
        restored is Ok,
        restored->Ok_0.wf(),
        restored->Ok_0@ == store@,
        max_bundles == store.limit() ==> restored->Ok_0.limit() == store.limit(),
{
}

impl View for BundleStore {
    type V = Map<Seq<char>, StoredBundleView>;

    closed spec fn view(&self) -> Map<Seq<char>, StoredBundleView> {
        entry_map(self.bundles@)
    }
}

impl BundleStore {
    /// The store's invariant: a positive capacity and one entry per identifier.
    pub closed spec fn wf(&self) -> bool {
        &&& self.max_bundles >= 1
        &&& key_seq(self.bundles@).no_duplicates()
    }

    /// A valid store holds finitely many bundles, one per entry.
    pub proof fn lemma_contents_finite(&self)
        requires
            self.wf(),
        ensures
            self@.dom().finite(),
    {
        lemma_entry_map(self.bundles@);
    }

    /// The capacity beyond which new bundles are refused.
    pub closed spec fn limit(&self) -> nat {
        self.max_bundles as nat
    }

    /// An empty store that admits up to `max_bundles` bundles (at least one).
    pub fn with_limit(max_bundles: usize) -> (store: Self)
        ensures
            store.wf(),
            store@ == Map::<Seq<char>, StoredBundleView>::empty(),
            store.limit() == if max_bundles == 0 { 1 } else { max_bundles as nat },
    {
        let store = BundleStore {
            max_bundles: if max_bundles == 0 { 1 } else { max_bundles },
            bundles: Vec::new(),
            scheduler: BundleScheduler,
        };
        assert(key_seq(store.bundles@) =~= Seq::<Seq<char>>::empty());
        assert(store@ =~= Map::<Seq<char>, StoredBundleView>::empty());
        store
    }

    pub fn len(&self) -> (n: usize)
        requires
            self.wf(),
        ensures
            n == self@.len(),
    {
        proof {
            lemma_entry_map(self.bundles@);
        }
        self.bundles.len()
    }

    pub fn is_empty(&self) -> (empty: bool)
        requires
            self.wf(),
        ensures
            empty == (self@.len() == 0),
    {
        proof {
            lemma_entry_map(self.bundles@);
        }
        self.bundles.len() == 0
    }

    pub fn max_bundles(&self) -> (n: usize)
        ensures
            n == self.limit(),
    {
        self.max_bundles
    }

    /// The position of the entry stored under `id`, if any.
    fn find(&self, id: &str) -> (pos: Option<usize>)
        requires
            self.wf(),
        ensures
            match pos {
                Some(i) => i < self.bundles@.len() && self.bundles@[i as int].bundle.id@ == id@,
                None => !self@.contains_key(id@),
            },
    {
        proof {
            lemma_entry_map(self.bundles@);
        }
        let mut i: usize = 0;
        while i < self.bundles.len()
            invariant
                i <= self.bundles@.len(),
                forall|j: int| 0 <= j < i ==> self.bundles@[j].bundle.id@ != id@,
            decreases self.bundles@.len() - i,
        {
            if id_equal(self.bundles[i].bundle.id.as_str(), id) {
                return Some(i);
            }
            i = i + 1;
        }
        None
    }

    pub fn contains(&self, id: &str) -> (found: bool)
        requires
            self.wf(),
        ensures
            found == self@.contains_key(id@),
    {
        proof {
            lemma_entry_map(self.bundles@);
        }
        self.find(id).is_some()
    }

    /// Removes every bundle expired at `now_ms`; returns how many were removed.
    pub fn prune_expired(&mut self, now_ms: u64) -> (removed: usize)
        requires
            old(self).wf(),
        ensures
            final(self).wf(),
            final(self).limit() == old(self).limit(),
            final(self)@ == prune_spec(old(self)@, now_ms),
            removed == old(self)@.len() - final(self)@.len(),
    {
        let ghost orig = self@;
        proof {
            lemma_entry_map(self.bundles@);
        }
        let before = self.bundles.len();
        let mut i: usize = 0;
        while i < self.bundles.len()
            invariant
                self.wf(),
                self.max_bundles == old(self).max_bundles,
                orig == old(self)@,
                i <= self.bundles@.len(),
                self.bundles@.len() <= before,
                forall|j: int| 0 <= j < i ==> !(now_ms >= #[trigger] self.bundles@[j].bundle.expires_at_ms),
                forall|k: Seq<char>| #[trigger] self@.dom().contains(k) ==> orig.dom().contains(k) && self@[k] == orig[k],
                forall|k: Seq<char>| #[trigger] orig.dom().contains(k) && !(now_ms >= orig[k].bundle.expires_at_ms) ==> self@.dom().contains(k),
            decreases self.bundles@.len() - i,
        {
            if self.bundles[i].bundle.is_expired_at(now_ms) {
                proof {
                    lemma_entry_map(self.bundles@);
                    lemma_entry_map_remove(self.bundles@, i as int);
                }
                let ghost prev = self@;
                let ghost k0 = self.bundles@[i as int].bundle.id@;
                let _gone = self.bundles.remove(i);
                assert(self@ == prev.remove(k0));
            } else {
                i = i + 1;
            }
        }
        proof {
            lemma_entry_map(self.bundles@);
            assert forall|k: Seq<char>| #[trigger] self@.dom().contains(k) implies !(now_ms >= orig[k].bundle.expires_at_ms) by {
                let j = choose|j: int| 0 <= j < self.bundles@.len() && self.bundles@[j].bundle.id@ == k;
                assert(self@[k] == self.bundles@[j]@);
            }
            assert(self@ =~= prune_spec(orig, now_ms));
        }
        before - self.bundles.len()
    }

    /// Offers a bundle and its envelope to the store at `now_ms`.
    pub fn enqueue(&mut self, bundle: Bundle, envelope: Vec<u8>, now_ms: u64) -> (outcome: EnqueueOutcome)
        requires
            old(self).wf(),
        ensures
            final(self).wf(),
            final(self).limit() == old(self).limit(),
            (outcome, final(self)@) == enqueue_spec(old(self)@, old(self).limit(), bundle@, envelope@, now_ms),
    {
        self.prune_expired(now_ms);
        if bundle.is_expired_at(now_ms) {
            return EnqueueOutcome::Expired;
        }
        if self.contains(bundle.id.as_str()) {
            return EnqueueOutcome::Duplicate;
        }
        if self.len() >= self.max_bundles {
            return EnqueueOutcome::Full;
        }
        let entry = StoredBundle {
            bundle,
            envelope,
            stored_at_ms: now_ms,
            attempts: 0,
            next_attempt_at_ms: now_ms,
        };
        proof {
            lemma_entry_map_push(self.bundles@, entry);
        }
        self.bundles.push(entry);
        EnqueueOutcome::Stored
    }

    /// Records an attempt to send the bundle stored under `id` at `now_ms`.
    pub fn record_attempt(&mut self, id: &str, now_ms: u64, delivered: bool) -> (outcome: AttemptOutcome)
        requires
            old(self).wf(),
        ensures
            final(self).wf(),
            final(self).limit() == old(self).limit(),
            (outcome, final(self)@) == attempt_spec(old(self)@, id@, now_ms, delivered),
    {
        proof {
            lemma_entry_map(self.bundles@);
        }
        let pos = match self.find(id) {
            Some(i) => i,
            None => {
                return AttemptOutcome::Missing;
            },
        };
        if delivered {
            proof {
                lemma_entry_map_remove(self.bundles@, pos as int);
            }
            let _gone = self.bundles.remove(pos);
            return AttemptOutcome::Delivered;
        }
        let ghost s = self.bundles@;
        let mut item = self.bundles.remove(pos);
        item.attempts = item.attempts.saturating_add(1);
        let delay = retry_delay_ms(item.attempts);
        item.next_attempt_at_ms = now_ms.saturating_add(delay);
        let next = item.next_attempt_at_ms;
        proof {
            lemma_entry_map_update(s, pos as int, item);
            assert(s.remove(pos as int).insert(pos as int, item) =~= s.update(pos as int, item));
        }
        self.bundles.insert(pos, item);
        AttemptOutcome::Deferred { next_attempt_at_ms: next }
    }

    /// Rebuilds a store from persisted contents. Contents written under
    /// another schema version are refused. Each entry is filed under its own
    /// bundle identifier, which is the key under which `snapshot` hands it
    /// out; of several entries with one identifier the last one counts.
    pub fn restore(schema_version: u8, bundles: Vec<StoredBundle>, max_bundles: usize) -> (store: Result<Self, StoreError>)
        ensures
            restored_as(schema_version, bundles@, max_bundles, store),
    {
        if schema_version != STORE_SCHEMA_VERSION {
            return Err(StoreError::UnsupportedSchema { found: schema_version });
        }
        let ghost orig = bundles@;
        let mut input = bundles;
        let mut store = BundleStore::with_limit(max_bundles);
        assert(orig.subrange(orig.len() as int, orig.len() as int) =~= Seq::<StoredBundle>::empty());
        while input.len() > 0
            invariant
                store.wf(),
                store.limit() == if max_bundles == 0 { 1 } else { max_bundles as nat },
                input@.len() <= orig.len(),
                input@ == orig.subrange(0, input@.len() as int),
                store@ == collect_entries(orig.subrange(input@.len() as int, orig.len() as int)),
            decreases input@.len(),
        {
            let ghost n = input@.len();
            let e = input.pop().unwrap();
            proof {
                let tail = orig.subrange(n - 1, orig.len() as int);
                assert(tail.drop_first() =~= orig.subrange(n as int, orig.len() as int));
                assert(tail[0] == e);
                assert(input@ =~= orig.subrange(0, n - 1));
            }
            if !store.contains(e.bundle.id.as_str()) {
                proof {
                    lemma_entry_map_push(store.bundles@, e);
                }
                store.bundles.push(e);
            }
        }
        Ok(store)
    }

    /// The store's entries, for persisting; `restore` rebuilds the same
    /// contents from them.
    pub fn snapshot(&self) -> (entries: Vec<StoredBundle>)
        requires
            self.wf(),
        ensures
            snapshot_of(*self, entries@),
    {
        let mut out: Vec<StoredBundle> = Vec::new();
        let mut i: usize = 0;
        while i < self.bundles.len()
            invariant
                i <= self.bundles@.len(),
                out@.len() == i,
                forall|j: int| 0 <= j < i ==> #[trigger] out@[j]@ == self.bundles@[j]@,
            decreases self.bundles@.len() - i,
        {
            out.push(self.bundles[i].clone());
            i = i + 1;
        }
        proof {
            let s = self.bundles@;
            let t = out@;
            assert(key_seq(t) =~= key_seq(s)) by {
                assert forall|j: int| 0 <= j < t.len() implies key_seq(t)[j] == key_seq(s)[j] by {
                    assert(t[j]@ == s[j]@);
                }
            }
            lemma_entry_map(s);
            lemma_entry_map(t);
            lemma_collect_is_entry_map(t);
            assert forall|k: Seq<char>| #[trigger] entry_map(t).dom().contains(k) <==> entry_map(s).dom().contains(k) by {
                if entry_map(t).dom().contains(k) {
                    let j = choose|j: int| 0 <= j < t.len() && t[j].bundle.id@ == k;
                    assert(key_seq(t)[j] == key_seq(s)[j]);
                }
                if entry_map(s).dom().contains(k) {
                    let j = choose|j: int| 0 <= j < s.len() && s[j].bundle.id@ == k;
                    assert(key_seq(t)[j] == key_seq(s)[j]);
                }
            }
            assert forall|k: Seq<char>| #[trigger] entry_map(t).dom().contains(k) implies entry_map(t)[k] == entry_map(s)[k] by {
                let j = choose|j: int| 0 <= j < t.len() && t[j].bundle.id@ == k;
                assert(t[j]@ == s[j]@);
                assert(key_seq(t)[j] == key_seq(s)[j]);
            }
            assert(entry_map(t) =~= entry_map(s));
        }
        out
    }

    /// The bundles that may be sent at `now_ms`, at most `limit` of them, in
    /// transmission order.
    #[verifier::loop_isolation(false)]
    pub fn ready(&self, now_ms: u64, limit: usize) -> (picked: Vec<&StoredBundle>)
        requires
            self.wf(),
        ensures
            ready_spec(self@, now_ms, limit as nat, views_of(picked@)),
    {
        let ghost s = self.bundles@;
        proof {
            lemma_entry_map(s);
        }
        let mut candidates: Vec<ScheduleCandidate> = Vec::new();
        let ghost mut src: Seq<int> = Seq::empty();
        let mut i: usize = 0;
        while i < self.bundles.len()
            invariant
                s == self.bundles@,
                i <= s.len(),
                candidates@.len() == src.len(),
                forall|j: int| 0 <= j < src.len() ==> 0 <= #[trigger] src[j] < i,
                forall|a: int, b: int| 0 <= a < b < src.len() ==> #[trigger] src[a] < #[trigger] src[b],
                forall|j: int|
                    0 <= j < src.len() ==> #[trigger] candidates@[j].key() == view_key(s[src[j]]@)
                        && eligible(s[src[j]]@, now_ms),
                forall|x: int| 0 <= x < i && eligible(#[trigger] s[x]@, now_ms) ==> exists|j: int| 0 <= j < src.len() && src[j] == x,
            decreases s.len() - i,
        {
            let item = &self.bundles[i];
            if !item.bundle.is_expired_at(now_ms) && item.bundle.can_forward() && item.next_attempt_at_ms <= now_ms {
                let c = ScheduleCandidate {
                    id: item.bundle.id.clone(),
                    priority: item.bundle.priority,
                    created_at_ms: item.bundle.created_at_ms,
                    attempts: item.attempts,
                };
                let ghost old_src = src;
                let ghost old_c = candidates@;
                candidates.push(c);
                proof {
                    src = src.push(i as int);
                    assert(src[src.len() - 1] == i);
                    assert(candidates@[candidates@.len() - 1].key() == view_key(s[i as int]@));
                    assert forall|j: int| 0 <= j < src.len() implies #[trigger] candidates@[j].key() == view_key(s[src[j]]@)
                        && eligible(s[src[j]]@, now_ms) by {
                        if j < old_src.len() {
                            assert(candidates@[j] == old_c[j] && src[j] == old_src[j]);
                        }
                    }
                    assert forall|x: int| 0 <= x < i + 1 && eligible(#[trigger] s[x]@, now_ms) implies exists|j: int| 0 <= j < src.len() && src[j] == x by {
                        if x == i {
                            assert(src[src.len() - 1] == x);
                        } else {
                            let j = choose|j: int| 0 <= j < old_src.len() && old_src[j] == x;
                            assert(src[j] == x);
                        }
                    }
                }
            } else {
                proof {
                    assert(!eligible(s[i as int]@, now_ms));
                    assert forall|x: int| 0 <= x < i + 1 && eligible(#[trigger] s[x]@, now_ms) implies exists|j: int| 0 <= j < src.len() && src[j] == x by {
                        assert(x != i);
                    }
                }
            }
            i = i + 1;
        }
        let ghost unsorted = candidates@;
        proof {
            assert forall|a: int, b: int|
                0 <= a < unsorted.len() && 0 <= b < unsorted.len() && a != b implies #[trigger] unsorted[a].id@
                != #[trigger] unsorted[b].id@ by {
                assert(unsorted[a].key() == view_key(s[src[a]]@));
                assert(unsorted[b].key() == view_key(s[src[b]]@));
                assert(src[a] != src[b]);
                assert(key_seq(s)[src[a]] != key_seq(s)[src[b]]);
            }
        }
        self.scheduler.order(candidates.as_mut_slice());
        let ghost sorted = candidates@;
        proof {
            lemma_permutation_keeps_ids_distinct(unsorted, sorted);
            lemma_schedule_order_strict(sorted);
        }
        let n: usize = if limit < candidates.len() { limit } else { candidates.len() };
        let mut picked: Vec<&StoredBundle> = Vec::new();
        let mut t: usize = 0;
        while t < n
            invariant
                s == self.bundles@,
                sorted == candidates@,
                n <= sorted.len(),
                n <= limit,
                t <= n,
                picked@.len() == t,
                forall|u: int|
                    0 <= u < t ==> (#[trigger] picked@[u])@.bundle.id == sorted[u].id@ && self@.contains_key(
                        sorted[u].id@,
                    ) && self@[sorted[u].id@] == picked@[u]@,
            decreases n - t,
        {
            proof {
                assert(sorted.contains(sorted[t as int]));
                assert(sorted.to_multiset().count(sorted[t as int]) > 0);
                assert(unsorted.contains(sorted[t as int]));
                let j = choose|j: int| 0 <= j < unsorted.len() && unsorted[j] == sorted[t as int];
                assert(unsorted[j].key() == view_key(s[src[j]]@));
                assert(self@.contains_key(s[src[j]].bundle.id@));
            }
            let pos = self.find(candidates[t].id.as_str());
            let idx = pos.unwrap();
            picked.push(&self.bundles[idx]);
            t = t + 1;
        }
        proof {
            let r = views_of(picked@);
            assert forall|u: int| 0 <= u < r.len() implies r[u] == picked@[u]@ && view_key(r[u]) == sorted[u].key() && eligible(r[u], now_ms) by {
                assert(sorted.contains(sorted[u]));
                assert(sorted.to_multiset().count(sorted[u]) > 0);
                assert(unsorted.contains(sorted[u]));
                let j = choose|j: int| 0 <= j < unsorted.len() && unsorted[j] == sorted[u];
                assert(unsorted[j].key() == view_key(s[src[j]]@));
                assert(self@[s[src[j]].bundle.id@] == s[src[j]]@);
            }
            assert forall|i: int, j: int| 0 <= i < j < r.len() implies goes_before(view_key(#[trigger] r[i]), view_key(#[trigger] r[j])) by {
                assert(goes_before(sorted[i].key(), sorted[j].key()));
            }
            assert forall|k: Seq<char>|
                self@.contains_key(k) && eligible(#[trigger] self@[k], now_ms) && !r.map_values(
                    |v: StoredBundleView| v.bundle.id,
                ).contains(k) implies r.len() == limit && forall|i: int|
                    0 <= i < r.len() ==> goes_before(view_key(#[trigger] r[i]), view_key(self@[k])) by {
                let x = choose|x: int| 0 <= x < s.len() && s[x].bundle.id@ == k;
                assert(self@[k] == s[x]@);
                let j = choose|j: int| 0 <= j < src.len() && src[j] == x;
                assert(unsorted.contains(unsorted[j]));
                assert(unsorted.to_multiset().count(unsorted[j]) > 0);
                assert(sorted.contains(unsorted[j]));
                let p = choose|p: int| 0 <= p < sorted.len() && sorted[p] == unsorted[j];
                assert(sorted[p].key() == view_key(self@[k]));
                if p < n {
                    assert(r.map_values(|v: StoredBundleView| v.bundle.id)[p] == k);
                }
                assert forall|i: int| 0 <= i < r.len() implies goes_before(view_key(#[trigger] r[i]), view_key(self@[k])) by {
                    assert(goes_before(sorted[i].key(), sorted[p].key()));
                }
            }
        }
        picked
    }

    pub fn get(&self, id: &str) -> (entry: Option<&StoredBundle>)
        requires
            self.wf(),
        ensures
            match entry {
                Some(e) => self@.contains_key(id@) && e@ == self@[id@],
                None => !self@.contains_key(id@),
            },
    {
        proof {
            lemma_entry_map(self.bundles@);
        }
        match self.find(id) {
            Some(i) => Some(&self.bundles[i]),
            None => None,
        }
    }
}

} // verus!
