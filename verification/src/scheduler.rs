use vstd::prelude::*;
use vstd::multiset::Multiset;
use vstd::utf8::encode_utf8;

use crate::bundle::{BundleId, Priority};

verus! {

broadcast use {vstd::seq_lib::group_to_multiset_ensures, vstd::multiset::group_multiset_axioms};

/// What the scheduler reads of a bundle waiting for transmission.
#[derive(Debug, Clone, PartialEq, Eq)]
pub struct ScheduleCandidate {
    pub id: BundleId,
    pub priority: Priority,
    pub created_at_ms: u64,
    pub attempts: u32,
}

/// Orders ready bundles for transmission.
#[derive(Debug, Clone, Default)]
pub struct BundleScheduler;

/// Rank of a priority: urgent traffic ranks highest.
pub open spec fn priority_rank_spec(priority: Priority) -> u8 {
    match priority {
        Priority::Routine => 0,
        Priority::Important => 1,
        Priority::Urgent => 2,
    }
}

pub fn priority_rank(priority: Priority) -> (rank: u8)
    ensures
        rank == priority_rank_spec(priority),
{
    match priority {
        Priority::Routine => 0,
        Priority::Important => 1,
        Priority::Urgent => 2,
    }
}

/// Strict lexicographic order on byte strings (the order of `str`).
pub open spec fn bytes_lt(a: Seq<u8>, b: Seq<u8>) -> bool
    decreases a.len(),
{
    if a.len() == 0 {
        b.len() > 0
    } else if b.len() == 0 {
        false
    } else if a[0] != b[0] {
        a[0] < b[0]
    } else {
        bytes_lt(a.drop_first(), b.drop_first())
    }
}

/// The UTF-8 bytes of an identifier; strings compare by them.
pub open spec fn id_bytes(id: Seq<char>) -> Seq<u8> {
    encode_utf8(id)
}

/// What the transmission order looks at: priority rank, failed attempts,
/// creation instant and identifier.
pub struct ScheduleKey {
    pub rank: u8,
    pub attempts: u32,
    pub created_at_ms: u64,
    pub id: Seq<char>,
}

impl ScheduleCandidate {
    pub open spec fn key(self) -> ScheduleKey {
        ScheduleKey {
            rank: priority_rank_spec(self.priority),
            attempts: self.attempts,
            created_at_ms: self.created_at_ms,
            id: self.id@,
        }
    }
}

/// `a` is sent before `b`: higher priority first, then fewer failed
/// attempts, then older creation time, then the smaller identifier.
pub open spec fn goes_before(a: ScheduleKey, b: ScheduleKey) -> bool {
    if a.rank != b.rank {
        a.rank > b.rank
    } else if a.attempts != b.attempts {
        a.attempts < b.attempts
    } else if a.created_at_ms != b.created_at_ms {
        a.created_at_ms < b.created_at_ms
    } else {
        bytes_lt(id_bytes(a.id), id_bytes(b.id))
    }
}

/// A sequence in transmission order: no candidate goes before an earlier one.
pub open spec fn in_schedule_order(s: Seq<ScheduleCandidate>) -> bool {
    forall|i: int, j: int| 0 <= i < j < s.len() ==> !goes_before(#[trigger] s[j].key(), #[trigger] s[i].key())
}

/// No two candidates share an identifier.
pub open spec fn ids_distinct(s: Seq<ScheduleCandidate>) -> bool {
    forall|i: int, j: int|
        0 <= i < s.len() && 0 <= j < s.len() && i != j ==> #[trigger] s[i].id@ != #[trigger] s[j].id@
}

/// Reordering candidates keeps their identifiers distinct.
pub proof fn lemma_permutation_keeps_ids_distinct(a: Seq<ScheduleCandidate>, b: Seq<ScheduleCandidate>)
    requires
        a.to_multiset() == b.to_multiset(),
        ids_distinct(a),
    ensures
        ids_distinct(b),
{
    assert(a.no_duplicates()) by {
        assert forall|i: int, j: int| 0 <= i < a.len() && 0 <= j < a.len() && i != j implies a[i] != a[j] by {
            assert(a[i].id@ != a[j].id@);
        }
    }
    a.lemma_multiset_has_no_duplicates();
    b.lemma_multiset_has_no_duplicates_conv();
    assert forall|i: int, j: int| 0 <= i < b.len() && 0 <= j < b.len() && i != j implies #[trigger] b[i].id@
        != #[trigger] b[j].id@ by {
        assert(b.contains(b[i]) && b.contains(b[j]));
        assert(b.to_multiset().count(b[i]) > 0 && b.to_multiset().count(b[j]) > 0);
        assert(a.contains(b[i]) && a.contains(b[j]));
        let p = choose|p: int| 0 <= p < a.len() && a[p] == b[i];
        let q = choose|q: int| 0 <= q < a.len() && a[q] == b[j];
        assert(b[i] != b[j]);
        if p != q {
            assert(a[p].id@ != a[q].id@);
        }
    }
}

/// In a schedule order without repeated identifiers, every candidate goes
/// strictly before every later one.
pub proof fn lemma_schedule_order_strict(s: Seq<ScheduleCandidate>)
    requires
        in_schedule_order(s),
        ids_distinct(s),
    ensures
        forall|i: int, j: int| 0 <= i < j < s.len() ==> goes_before(#[trigger] s[i].key(), #[trigger] s[j].key()),
{
    assert forall|i: int, j: int| 0 <= i < j < s.len() implies goes_before(#[trigger] s[i].key(), #[trigger] s[j].key()) by {
        lemma_goes_before_total(s[i].key(), s[j].key());
        assert(s[i].id@ != s[j].id@);
    }
}

pub proof fn lemma_bytes_lt_asymmetric(a: Seq<u8>, b: Seq<u8>)
    ensures
        !(bytes_lt(a, b) && bytes_lt(b, a)),
    decreases a.len(),
{
    if a.len() > 0 && b.len() > 0 && a[0] == b[0] {
        lemma_bytes_lt_asymmetric(a.drop_first(), b.drop_first());
    }
}

pub proof fn lemma_bytes_lt_transitive(a: Seq<u8>, b: Seq<u8>, c: Seq<u8>)
    requires
        bytes_lt(a, b),
        bytes_lt(b, c),
    ensures
        bytes_lt(a, c),
    decreases a.len(),
{
    if a.len() > 0 && b.len() > 0 && c.len() > 0 && a[0] == b[0] && b[0] == c[0] {
        lemma_bytes_lt_transitive(a.drop_first(), b.drop_first(), c.drop_first());
    }
}

pub proof fn lemma_bytes_lt_total(a: Seq<u8>, b: Seq<u8>)
    ensures
        bytes_lt(a, b) || bytes_lt(b, a) || a == b,
    decreases a.len(),
{
    if a.len() == 0 && b.len() == 0 {
        assert(a =~= b);
    } else if a.len() > 0 && b.len() > 0 && a[0] == b[0] {
        lemma_bytes_lt_total(a.drop_first(), b.drop_first());
        if a.drop_first() == b.drop_first() {
            assert(a =~= seq![a[0]] + a.drop_first());
            assert(b =~= seq![b[0]] + b.drop_first());
        }
    }
}

pub proof fn lemma_id_bytes_injective(a: Seq<char>, b: Seq<char>)
    requires
        id_bytes(a) == id_bytes(b),
    ensures
        a == b,
{
    vstd::utf8::encode_utf8_decode_utf8(a);
    vstd::utf8::encode_utf8_decode_utf8(b);
}

/// The transmission order is a strict total order up to candidates with the
/// same key.
pub proof fn lemma_goes_before_asymmetric(a: ScheduleKey, b: ScheduleKey)
    ensures
        !(goes_before(a, b) && goes_before(b, a)),
{
    lemma_bytes_lt_asymmetric(id_bytes(a.id), id_bytes(b.id));
}

pub proof fn lemma_goes_before_transitive(a: ScheduleKey, b: ScheduleKey, c: ScheduleKey)
    requires
        goes_before(a, b),
        goes_before(b, c),
    ensures
        goes_before(a, c),
{
    if a.rank == b.rank && b.rank == c.rank && a.attempts == b.attempts && b.attempts == c.attempts
        && a.created_at_ms == b.created_at_ms && b.created_at_ms == c.created_at_ms {
        lemma_bytes_lt_transitive(id_bytes(a.id), id_bytes(b.id), id_bytes(c.id));
    }
}

/// Keys that neither goes before the other are equal.
pub proof fn lemma_goes_before_total(a: ScheduleKey, b: ScheduleKey)
    ensures
        goes_before(a, b) || goes_before(b, a) || a == b,
{
    lemma_bytes_lt_total(id_bytes(a.id), id_bytes(b.id));
    if id_bytes(a.id) == id_bytes(b.id) {
        lemma_id_bytes_injective(a.id, b.id);
    }
}

proof fn lemma_before_then_not_after(x: ScheduleKey, y: ScheduleKey, z: ScheduleKey)
    requires
        goes_before(x, y),
        !goes_before(z, y),
    ensures
        goes_before(x, z),
        !goes_before(z, x),
{
    lemma_goes_before_total(y, z);
    if goes_before(y, z) {
        lemma_goes_before_transitive(x, y, z);
    }
    lemma_goes_before_asymmetric(x, z);
}

/// In transmission order, urgent bundles come before important ones and
/// those before routine ones; within a priority, fewer failed attempts come
/// first, and then older bundles.
pub proof fn lemma_schedule_order_priorities(s: Seq<ScheduleCandidate>, i: int, j: int)
    requires
        in_schedule_order(s),
        0 <= i < j < s.len(),
    ensures
        priority_rank_spec(s[i].priority) >= priority_rank_spec(s[j].priority),
        priority_rank_spec(s[i].priority) == priority_rank_spec(s[j].priority) ==> s[i].attempts
            <= s[j].attempts,
        priority_rank_spec(s[i].priority) == priority_rank_spec(s[j].priority) && s[i].attempts
            == s[j].attempts ==> s[i].created_at_ms <= s[j].created_at_ms,
{
    assert(!goes_before(s[j].key(), s[i].key()));
}

/// Byte-wise comparison of two identifiers.
fn id_less(a: &str, b: &str) -> (lt: bool)
    ensures
        lt == bytes_lt(id_bytes(a@), id_bytes(b@)),
{
    let x = a.as_bytes();
    let y = b.as_bytes();
    let ghost xs = id_bytes(a@);
    let ghost ys = id_bytes(b@);
    let mut i: usize = 0;
    assert(xs.skip(0) =~= xs && ys.skip(0) =~= ys);
    while i < x.len() && i < y.len()
        invariant
            x@ == xs,
            y@ == ys,
            xs == id_bytes(a@),
            ys == id_bytes(b@),
            i <= xs.len(),
            i <= ys.len(),
            xs.subrange(0, i as int) == ys.subrange(0, i as int),
            bytes_lt(xs, ys) == bytes_lt(xs.skip(i as int), ys.skip(i as int)),
        decreases xs.len() - i,
    {
        if x[i] != y[i] {
            proof {
                let ghost xa = xs.skip(i as int);
                let ghost yb = ys.skip(i as int);
                assert(xa.len() > 0 && yb.len() > 0);
                assert(xa[0] == x@[i as int] && yb[0] == y@[i as int]);
                assert(bytes_lt(xa, yb) == (xa[0] < yb[0]));
                assert(bytes_lt(xs, ys) == (x@[i as int] < y@[i as int]));
            }
            let r = x[i] < y[i];
            return r;
        }
        proof {
            assert(xs.skip(i as int).drop_first() =~= xs.skip(i + 1));
            assert(ys.skip(i as int).drop_first() =~= ys.skip(i + 1));
            assert(xs.subrange(0, i + 1) =~= xs.subrange(0, i as int).push(xs[i as int]));
            assert(ys.subrange(0, i + 1) =~= ys.subrange(0, i as int).push(ys[i as int]));
        }
        i = i + 1;
    }
    assert(xs.skip(i as int).len() == xs.len() - i && ys.skip(i as int).len() == ys.len() - i);
    i < y.len()
}

/// Whether two identifiers are the same string.
pub fn id_equal(a: &str, b: &str) -> (eq: bool)
    ensures
        eq == (a@ == b@),
{
    let x = a.as_bytes();
    let y = b.as_bytes();
    if x.len() != y.len() {
        return false;
    }
    let mut i: usize = 0;
    while i < x.len()
        invariant
            x@ == id_bytes(a@),
            y@ == id_bytes(b@),
            x@.len() == y@.len(),
            i <= x@.len(),
            forall|j: int| 0 <= j < i ==> x@[j] == y@[j],
        decreases x@.len() - i,
    {
        if x[i] != y[i] {
            return false;
        }
        i = i + 1;
    }
    proof {
        assert(x@ =~= y@);
        lemma_id_bytes_injective(a@, b@);
    }
    true
}

/// Whether `a` is sent before `b`.
pub fn precedes(a: &ScheduleCandidate, b: &ScheduleCandidate) -> (before: bool)
    ensures
        before == goes_before(a.key(), b.key()),
{
    let ra = priority_rank(a.priority);
    let rb = priority_rank(b.priority);
    if ra != rb {
        ra > rb
    } else if a.attempts != b.attempts {
        a.attempts < b.attempts
    } else if a.created_at_ms != b.created_at_ms {
        a.created_at_ms < b.created_at_ms
    } else {
        id_less(a.id.as_str(), b.id.as_str())
    }
}

/// Sorts a vector of candidates into transmission order by insertion.
fn sort_by_schedule(candidates: &mut Vec<ScheduleCandidate>)
    ensures
    final(candidates)@.to_multiset() == old(candidates)@.to_multiset(),
    in_schedule_order(final(candidates)@),
{
    let ghost original = candidates@;
    let mut sorted: Vec<ScheduleCandidate> = Vec::new();
    while candidates.len() > 0
        invariant
            sorted@.to_multiset().add(candidates@.to_multiset()) == original.to_multiset(),
            in_schedule_order(sorted@),
        decreases candidates@.len(),
    {
        let ghost before_pop = candidates@;
        let x = candidates.pop().unwrap();
        proof {
            assert(before_pop =~= candidates@.push(x));
        }
        let mut k: usize = 0;
        while k < sorted.len() && !precedes(&x, &sorted[k])
            invariant
                k <= sorted@.len(),
                forall|j: int| 0 <= j < k ==> !goes_before(x.key(), #[trigger] sorted@[j].key()),
            decreases sorted@.len() - k,
        {
            k = k + 1;
        }
        let ghost prev = sorted@;
        sorted.insert(k, x);
        proof {
            assert forall|i: int, j: int| 0 <= i < j < sorted@.len() implies !goes_before(
                #[trigger] sorted@[j].key(),
                #[trigger] sorted@[i].key(),
            ) by {
                if j == k {
                    assert(sorted@[i] == prev[i]);
                } else if i == k {
                    assert(sorted@[j] == prev[j - 1]);
                    assert(k < prev.len());
                    assert(goes_before(x.key(), prev[k as int].key()));
                    if j - 1 > k {
                        assert(!goes_before(prev[j - 1].key(), prev[k as int].key()));
                        lemma_before_then_not_after(x.key(), prev[k as int].key(), prev[j - 1].key());
                    } else {
                        lemma_goes_before_asymmetric(x.key(), prev[k as int].key());
                    }
                } else if i < k && j < k {
                    assert(sorted@[i] == prev[i] && sorted@[j] == prev[j]);
                } else if i < k {
                    assert(sorted@[i] == prev[i] && sorted@[j] == prev[j - 1]);
                } else {
                    assert(sorted@[i] == prev[i - 1] && sorted@[j] == prev[j - 1]);
                }
            }
            assert(sorted@.to_multiset().add(candidates@.to_multiset()) =~= original.to_multiset());
        }
    }
    proof {
        assert(candidates@.to_multiset() =~= Multiset::empty());
        assert(sorted@.to_multiset() =~= original.to_multiset());
    }
    *candidates = sorted;
}

impl BundleScheduler {
    /// Puts the candidates in transmission order.
    pub fn order(&self, candidates: &mut [ScheduleCandidate])
        ensures
            final(candidates)@.to_multiset() == old(candidates)@.to_multiset(),
            in_schedule_order(final(candidates)@),
    {
        let n = candidates.len();
        let mut pulled: Vec<ScheduleCandidate> = Vec::new();
        let mut i: usize = 0;
        while i < n
            invariant
                n == candidates@.len(),
                candidates@ == old(candidates)@,
                i <= n,
                pulled@ == old(candidates)@.take(i as int),
            decreases n - i,
        {
            let c = &candidates[i];
            let copy = ScheduleCandidate {
                id: c.id.clone(),
                priority: c.priority,
                created_at_ms: c.created_at_ms,
                attempts: c.attempts,
            };
            pulled.push(copy);
            i = i + 1;
            assert(pulled@ =~= old(candidates)@.take(i as int));
        }
        assert(pulled@ =~= old(candidates)@);
        let ghost unsorted = pulled@;
        sort_by_schedule(&mut pulled);
        let ghost sorted = pulled@;
        proof {
            vstd::seq_lib::to_multiset_len(unsorted);
            vstd::seq_lib::to_multiset_len(sorted);
            assert(sorted.take(n as int) =~= sorted);
        }
        let mut k: usize = n;
        while k > 0
            invariant
                n == candidates@.len(),
                sorted.len() == n,
                k <= n,
                pulled@ == sorted.take(k as int),
                candidates@.skip(k as int) == sorted.skip(k as int),
            decreases k,
        {
            let ghost prev = candidates@;
            let x = pulled.pop().unwrap();
            assert(x == sorted[k - 1]);
            candidates[k - 1] = x;
            assert(candidates@ == prev.update(k - 1, x));
            k = k - 1;
            assert(pulled@ =~= sorted.take(k as int));
            assert forall|j: int| 0 <= j < n - k implies candidates@.skip(k as int)[j] == sorted.skip(k as int)[j] by {
                if j > 0 {
                    assert(prev.skip(k + 1)[j - 1] == sorted.skip(k + 1)[j - 1]);
                }
            }
            assert(candidates@.skip(k as int) =~= sorted.skip(k as int));
        }
        assert(candidates@ =~= sorted);
    }
}

} // verus!
