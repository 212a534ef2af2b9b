use vstd::prelude::*;
use std::collections::VecDeque;

use crate::bundle::BundleId;
use crate::scheduler::id_equal;

verus! {

/// A bounded memory of recently seen bundle identifiers. Once full, the
/// oldest identifier is forgotten to make room for a new one.
///
/// The identifiers are kept in arrival order, none twice; membership is a
/// scan of that order.
#[derive(Debug, Clone)]
pub struct DedupCache {
    capacity: usize,
    order: VecDeque<BundleId>,
}

/// The remembered identifiers after `remember(id)` admits a new `id`.
pub open spec fn remember_spec(ids: Seq<Seq<char>>, capacity: nat, id: Seq<char>) -> Seq<Seq<char>> {
    if ids.len() == capacity {
        ids.drop_first().push(id)
    } else {
        ids.push(id)
    }
}

/// Remembering an identifier leaves it remembered, keeps the cache within
/// its capacity and without repeats; when the cache was full, exactly the
/// oldest identifier is forgotten.
pub proof fn lemma_remember_spec(ids: Seq<Seq<char>>, capacity: nat, id: Seq<char>)
    requires
        1 <= capacity,
        ids.len() <= capacity,
        ids.no_duplicates(),
        !ids.contains(id),
    ensures
        remember_spec(ids, capacity, id).contains(id),
        remember_spec(ids, capacity, id).len() <= capacity,
        remember_spec(ids, capacity, id).no_duplicates(),
        ids.len() == capacity ==> !remember_spec(ids, capacity, id).contains(ids[0]),
        forall|i: int|
            (if ids.len() == capacity { 1int } else { 0int }) <= i < ids.len() ==> remember_spec(ids, capacity, id).contains(
                #[trigger] ids[i],
            ),
{
    let r = remember_spec(ids, capacity, id);
    assert(r[r.len() - 1] == id);
    if ids.len() == capacity {
        assert forall|i: int| 1 <= i < ids.len() implies r.contains(#[trigger] ids[i]) by {
            assert(r[i - 1] == ids[i]);
        }
        assert forall|i: int| 0 <= i < r.len() implies r[i] != ids[0] by {
            if i < r.len() - 1 {
                assert(r[i] == ids[i + 1]);
            }
        }
    } else {
        assert forall|i: int| 0 <= i < ids.len() implies r.contains(#[trigger] ids[i]) by {
            assert(r[i] == ids[i]);
        }
    }
    assert forall|i: int, j: int| 0 <= i < j < r.len() implies r[i] != r[j] by {
        if ids.len() == capacity {
            if j < r.len() - 1 {
                assert(r[i] == ids[i + 1] && r[j] == ids[j + 1]);
            } else {
                assert(r[i] == ids[i + 1]);
            }
        } else if j < r.len() - 1 {
            assert(r[i] == ids[i] && r[j] == ids[j]);
        } else {
            assert(r[i] == ids[i]);
        }
    }
}

/// A duplicate is refused: once `remember(id)` has run, whatever it
/// returned, a second `remember(id)` returns `false` and changes nothing.
pub proof fn lemma_remember_twice(ids: Seq<Seq<char>>, capacity: nat, id: Seq<char>)
    requires
        1 <= capacity,
        ids.len() <= capacity,
        ids.no_duplicates(),
    ensures
        ({
            let after = if ids.contains(id) { ids } else { remember_spec(ids, capacity, id) };
            after.contains(id)
        }),
{
    if !ids.contains(id) {
        lemma_remember_spec(ids, capacity, id);
    }
}

/// The identifiers a cache of the given capacity holds after `remember` is
/// called with each of `xs` in turn, starting empty, and the identifiers
/// those calls admitted (returned `true` for), in call order.
pub open spec fn replay(capacity: nat, xs: Seq<Seq<char>>) -> (Seq<Seq<char>>, Seq<Seq<char>>)
    decreases xs.len(),
{
    if xs.len() == 0 {
        (Seq::empty(), Seq::empty())
    } else {
        let (ids, admitted) = replay(capacity, xs.drop_last());
        let x = xs.last();
        if ids.contains(x) {
            (ids, admitted)
        } else {
            (remember_spec(ids, capacity, x), admitted.push(x))
        }
    }
}

/// The last `n` elements of a sequence (all of it when shorter).
pub open spec fn latest(s: Seq<Seq<char>>, n: nat) -> Seq<Seq<char>> {
    if s.len() <= n {
        s
    } else {
        s.skip(s.len() - n)
    }
}

/// First in, first out: after any sequence of `remember` calls, the cache
/// holds exactly the last `capacity` identifiers it admitted, in the order
/// they came; a call admits its identifier exactly when that identifier is
/// not among them.
pub proof fn lemma_replay_keeps_latest(capacity: nat, xs: Seq<Seq<char>>)
    requires
        1 <= capacity,
    ensures
        replay(capacity, xs).0 == latest(replay(capacity, xs).1, capacity),
        replay(capacity, xs).0.len() <= capacity,
        replay(capacity, xs).0.no_duplicates(),
    decreases xs.len(),
{
    if xs.len() > 0 {
        lemma_replay_keeps_latest(capacity, xs.drop_last());
        let (ids, admitted) = replay(capacity, xs.drop_last());
        let x = xs.last();
        if !ids.contains(x) {
            lemma_remember_spec(ids, capacity, x);
            let a2 = admitted.push(x);
            if admitted.len() < capacity {
                assert(remember_spec(ids, capacity, x) =~= latest(a2, capacity));
            } else {
                assert(ids.len() == capacity);
                assert(remember_spec(ids, capacity, x) =~= latest(a2, capacity));
            }
        }
    }
}

impl DedupCache {
    /// The remembered identifiers, oldest first.
    pub closed spec fn ids(&self) -> Seq<Seq<char>> {
        self.order@.map_values(|s: String| s@)
    }

    /// The largest number of identifiers the cache holds.
    pub closed spec fn cap(&self) -> nat {
        self.capacity as nat
    }

    /// The cache's invariant: a positive capacity that is respected, and no
    /// identifier remembered twice.
    pub closed spec fn wf(&self) -> bool {
        &&& self.capacity >= 1
        &&& self.order@.len() <= self.capacity
        &&& self.ids().no_duplicates()
    }

    /// A valid cache never holds more identifiers than its capacity, holds
    /// none twice, and has room for at least one.
    pub proof fn lemma_bounded(&self)
        requires
            self.wf(),
        ensures
            1 <= self.cap(),
            self.ids().len() <= self.cap(),
            self.ids().no_duplicates(),
    {
    }

    pub fn new(capacity: usize) -> (cache: Self)
        ensures
            cache.wf(),
            cache.cap() == if capacity == 0 { 1 } else { capacity as nat },
            cache.ids() == Seq::<Seq<char>>::empty(),
    {
        let cap = if capacity == 0 { 1 } else { capacity };
        let cache = DedupCache { capacity: cap, order: VecDeque::with_capacity(cap) };
        assert(cache.ids() =~= Seq::<Seq<char>>::empty());
        cache
    }

    pub fn contains(&self, id: &str) -> (found: bool)
        ensures
            found == self.ids().contains(id@),
    {
        let mut i: usize = 0;
        while i < self.order.len()
            invariant
                i <= self.order@.len(),
                forall|j: int| 0 <= j < i ==> self.ids()[j] != id@,
            decreases self.order@.len() - i,
        {
            if id_equal(self.order[i].as_str(), id) {
                assert(self.ids()[i as int] == id@);
                return true;
            }
            i = i + 1;
        }
        proof {
            if self.ids().contains(id@) {
                let k = choose|k: int| 0 <= k < self.ids().len() && self.ids()[k] == id@;
                assert(self.ids()[k] != id@);
            }
        }
        false
    }

    /// Remembers `id`; returns `false` when it was already remembered.
    pub fn remember(&mut self, id: BundleId) -> (fresh: bool)
        requires
            old(self).wf(),
        ensures
            final(self).wf(),
            final(self).cap() == old(self).cap(),
            fresh == !old(self).ids().contains(id@),
            fresh ==> final(self).ids() == remember_spec(old(self).ids(), old(self).cap(), id@),
            !fresh ==> final(self).ids() == old(self).ids(),
    {
        if self.contains(id.as_str()) {
            return false;
        }
        let ghost before = self.ids();
        if self.order.len() == self.capacity {
            let _oldest = self.order.pop_front();
            assert(self.ids() =~= before.drop_first());
        }
        let ghost mid = self.ids();
        self.order.push_back(id);
        proof {
            assert(self.ids() =~= mid.push(id@));
            assert(self.ids() =~= remember_spec(before, self.cap(), id@));
            assert forall|i: int, j: int| 0 <= i < j < self.ids().len() implies self.ids()[i]
                != self.ids()[j] by {
                if j == self.ids().len() - 1 {
                    assert(mid[i] == self.ids()[i]);
                    if before.len() == self.cap() {
                        assert(mid[i] == before[i + 1]);
                    } else {
                        assert(mid[i] == before[i]);
                    }
                } else if before.len() == self.cap() {
                    assert(self.ids()[i] == before[i + 1] && self.ids()[j] == before[j + 1]);
                }
            }
        }
        true
    }

    pub fn len(&self) -> (n: usize)
        ensures
            n == self.ids().len(),
    {
        self.order.len()
    }

    pub fn is_empty(&self) -> (empty: bool)
        ensures
            empty == (self.ids().len() == 0),
    {
        self.order.len() == 0
    }

    pub fn capacity(&self) -> (cap: usize)
        ensures
            cap == self.cap(),
    {
        self.capacity
    }
}

} // verus!
