//! Event handler registration and the per-run event context.

use vstd::prelude::*;

verus! {

use crate::erased_vec::ErasedVec;

/// Marker for types that can be used as events.
pub trait Event: 'static {

}

impl<T: 'static> Event for T {

}

/// The handler ids registered for `key`, in registration order: a handler's
/// id is its registration index, so the ids come out ascending.
pub open spec fn ids_for(regs: Seq<u64>, key: u64) -> Seq<usize>
    decreases regs.len(),
{
    if regs.len() == 0 {
        Seq::empty()
    } else {
        let prefix = ids_for(regs.drop_last(), key);
        if regs.last() == key {
            prefix.push((regs.len() - 1) as usize)
        } else {
            prefix
        }
    }
}

/// `ids_for` returns exactly the registration indices carrying `key`, in
/// ascending — that is, registration — order.
pub proof fn lemma_ids_for(regs: Seq<u64>, key: u64)
    requires
        regs.len() <= usize::MAX,
    ensures
        forall|j: int|
            0 <= j < ids_for(regs, key).len() ==> #[trigger] ids_for(regs, key)[j] < regs.len()
                && regs[ids_for(regs, key)[j] as int] == key,
        forall|j: int, l: int|
            0 <= j < l < ids_for(regs, key).len() ==> ids_for(regs, key)[j] < ids_for(
                regs,
                key,
            )[l],
        forall|i: int|
            0 <= i < regs.len() && regs[i] == key ==> exists|j: int|
                0 <= j < ids_for(regs, key).len() && #[trigger] ids_for(regs, key)[j] == i,
    decreases regs.len(),
{
    if regs.len() > 0 {
        let t = regs.drop_last();
        lemma_ids_for(t, key);
        let pre = ids_for(t, key);
        let all = ids_for(regs, key);
        assert forall|j: int|
            0 <= j < all.len() implies #[trigger] all[j] < regs.len() && regs[all[j] as int]
            == key by {
            if j < pre.len() {
                assert(pre[j] < t.len() && t[pre[j] as int] == key);
                assert(regs[pre[j] as int] == t[pre[j] as int]);
            }
        }
        assert forall|i: int|
            0 <= i < regs.len() && regs[i] == key implies exists|j: int|
            0 <= j < all.len() && #[trigger] all[j] == i by {
            if i < regs.len() - 1 {
                assert(t[i] == regs[i]);
                let j = choose|j: int| 0 <= j < pre.len() && #[trigger] pre[j] == i;
                assert(all[j] == i);
            } else {
                assert(regs.last() == key);
                assert(all[all.len() - 1] == i);
            }
        }
    }
}

/// Stores event handler registrations: the id of a handler is its
/// registration index, and handlers for one event type-key run in
/// registration order.
pub struct EventHandlers {
    /// The event type-key each handler id was registered for.
    regs: Vec<u64>,
}

impl Default for EventHandlers {
    /// Creates an empty registration table.
    fn default() -> (r: Self)
        ensures
            r.regs() == Seq::<u64>::empty(),
    {
        EventHandlers { regs: Vec::new() }
    }
}

impl EventHandlers {
    /// The registered event type-key per handler id.
    pub closed spec fn regs(self) -> Seq<u64> {
        self.regs@
    }

    /// Creates an empty registration table.
    pub fn new() -> (r: Self)
        ensures
            r.regs() == Seq::<u64>::empty(),
    {
        EventHandlers { regs: Vec::new() }
    }

    /// Registers an event handler for the given event type-key and returns
    /// its handler id.
    pub fn add(&mut self, event_key: u64) -> (id: usize)
        ensures
            final(self).regs() == old(self).regs().push(event_key),
            id == old(self).regs().len(),
    {
        let id = self.regs.len();
        self.regs.push(event_key);
        id
    }

    /// Builder form of `add`.
    pub fn with(self, event_key: u64) -> (r: Self)
        ensures
            r.regs() == self.regs().push(event_key),
    {
        let mut this = self;
        this.add(event_key);
        this
    }

    /// The number of registered handlers.
    pub fn len(&self) -> (n: usize)
        ensures
            n == self.regs().len(),
    {
        self.regs.len()
    }

    /// The ids of the handlers registered for `key`, in registration order.
    pub fn handlers_for(&self, key: u64) -> (r: Vec<usize>)
        ensures
            r@ == ids_for(self.regs(), key),
    {
        let mut out: Vec<usize> = Vec::new();
        let n = self.regs.len();
        let mut i: usize = 0;
        proof {
            assert(self.regs().take(0) =~= Seq::<u64>::empty());
        }
        while i < n
            invariant
                i <= n,
                n == self.regs().len(),
                out@ == ids_for(self.regs().take(i as int), key),
            decreases n - i,
        {
            proof {
                assert(self.regs().take(i + 1).drop_last() =~= self.regs().take(i as int));
                assert(self.regs().take(i + 1).last() == self.regs()[i as int]);
            }
            if self.regs[i] == key {
                out.push(i);
            }
            i = i + 1;
        }
        proof {
            assert(self.regs().take(n as int) =~= self.regs());
        }
        out
    }
}

/// The type-keys of a sequence of buckets, in bucket order.
spec fn bucket_keys<V>(s: Seq<ErasedVec<V>>) -> Seq<u64> {
    s.map_values(|b: ErasedVec<V>| b.type_key())
}

/// No two buckets share a type-key.
spec fn unique_bucket_keys<V>(s: Seq<ErasedVec<V>>) -> bool {
    forall|i: int, j: int| 0 <= i < j < s.len() ==> s[i].type_key() != s[j].type_key()
}

/// The type-key-to-batch map described by a sequence of buckets.
spec fn map_of_buckets<V>(s: Seq<ErasedVec<V>>) -> Map<u64, Seq<V>>
    decreases s.len(),
{
    if s.len() == 0 {
        Map::empty()
    } else {
        map_of_buckets(s.drop_last()).insert(s.last().type_key(), s.last().items())
    }
}

/// A key is in the bucket map exactly when some bucket carries it, and
/// under unique keys the map sends each bucket's key to its items.
proof fn lemma_buckets_map<V>(s: Seq<ErasedVec<V>>)
    ensures
        forall|k: u64|
            map_of_buckets(s).contains_key(k) <==> exists|i: int|
                0 <= i < s.len() && #[trigger] s[i].type_key() == k,
        unique_bucket_keys(s) ==> forall|i: int|
            0 <= i < s.len() ==> map_of_buckets(s)[#[trigger] s[i].type_key()] == s[i].items(),
    decreases s.len(),
{
    if s.len() > 0 {
        let t = s.drop_last();
        lemma_buckets_map(t);
        let m = map_of_buckets(s);
        assert forall|k: u64| m.contains_key(k) implies exists|i: int|
            0 <= i < s.len() && #[trigger] s[i].type_key() == k by {
            if k == s.last().type_key() {
                assert(s[s.len() - 1].type_key() == k);
            } else {
                assert(map_of_buckets(t).contains_key(k));
                let i = choose|i: int| 0 <= i < t.len() && #[trigger] t[i].type_key() == k;
                assert(t[i] == s[i]);
                assert(s[i].type_key() == k);
            }
        }
        assert forall|k: u64|
            (exists|i: int| 0 <= i < s.len() && #[trigger] s[i].type_key() == k) implies
            m.contains_key(k) by {
            let i = choose|i: int| 0 <= i < s.len() && #[trigger] s[i].type_key() == k;
            if i < s.len() - 1 {
                assert(t[i] == s[i]);
                assert(t[i].type_key() == k);
                assert(map_of_buckets(t).contains_key(k));
            }
        }
        if unique_bucket_keys(s) {
            assert(unique_bucket_keys(t)) by {
                assert forall|i: int, j: int| 0 <= i < j < t.len() implies t[i].type_key()
                    != t[j].type_key() by {
                    assert(t[i] == s[i]);
                    assert(t[j] == s[j]);
                    assert(s[i].type_key() != s[j].type_key());
                }
            }
            assert forall|i: int| 0 <= i < s.len() implies m[#[trigger] s[i].type_key()]
                == s[i].items() by {
                if i < s.len() - 1 {
                    assert(s[i].type_key() != s.last().type_key());
                    assert(t[i] == s[i]);
                    assert(map_of_buckets(t)[t[i].type_key()] == t[i].items());
                }
            }
        }
    }
}

/// Replacing the bucket at `i` by one with the same type-key updates the
/// bucket map at that key alone and keeps the key order.
proof fn lemma_buckets_update<V>(s: Seq<ErasedVec<V>>, i: int, b: ErasedVec<V>)
    requires
        unique_bucket_keys(s),
        0 <= i < s.len(),
        b.type_key() == s[i].type_key(),
    ensures
        map_of_buckets(s.update(i, b)) == map_of_buckets(s).insert(b.type_key(), b.items()),
        bucket_keys(s.update(i, b)) == bucket_keys(s),
        unique_bucket_keys(s.update(i, b)),
    decreases s.len(),
{
    let t = s.update(i, b);
    assert(bucket_keys(t) =~= bucket_keys(s));
    assert(unique_bucket_keys(t)) by {
        assert forall|p: int, q: int| 0 <= p < q < t.len() implies t[p].type_key()
            != t[q].type_key() by {
            assert(s[p].type_key() != s[q].type_key());
        }
    }
    if i == s.len() - 1 {
        assert(t.drop_last() =~= s.drop_last());
        assert(map_of_buckets(s.drop_last()).insert(s.last().type_key(), s.last().items()).insert(
            b.type_key(),
            b.items(),
        ) =~= map_of_buckets(s.drop_last()).insert(b.type_key(), b.items()));
    } else {
        assert(unique_bucket_keys(s.drop_last())) by {
            assert forall|p: int, q: int|
                0 <= p < q < s.drop_last().len() implies s.drop_last()[p].type_key()
                != s.drop_last()[q].type_key() by {
                assert(s[p].type_key() != s[q].type_key());
            }
        }
        assert(t.drop_last() =~= s.drop_last().update(i, b));
        lemma_buckets_update(s.drop_last(), i, b);
        assert(b.type_key() != s.last().type_key());
        assert(map_of_buckets(s.drop_last()).insert(b.type_key(), b.items()).insert(
            s.last().type_key(),
            s.last().items(),
        ) =~= map_of_buckets(s.drop_last()).insert(s.last().type_key(), s.last().items()).insert(
            b.type_key(),
            b.items(),
        ));
    }
}

/// The queued map after one value is emitted under `key`.
pub open spec fn spec_emit<V>(q: Map<u64, Seq<V>>, key: u64, value: V) -> Map<u64, Seq<V>> {
    if q.contains_key(key) {
        q.insert(key, q[key].push(value))
    } else {
        q.insert(key, seq![value])
    }
}

/// A per-run event context: a type-keyed collection of event buckets. A
/// system or handler emits events into it; the engine then drains it.
pub struct Context<V> {
    buckets: Vec<ErasedVec<V>>,
}

impl<V> Context<V> {
    /// The queued batch per event type-key.
    pub closed spec fn queued(self) -> Map<u64, Seq<V>> {
        map_of_buckets(self.buckets@)
    }

    /// The bucket type-keys, in the order the buckets were created.
    pub closed spec fn key_order(self) -> Seq<u64> {
        bucket_keys(self.buckets@)
    }

    /// Bucket type-keys are unique.
    pub closed spec fn inv(self) -> bool {
        unique_bucket_keys(self.buckets@)
    }

    /// Every key of the queued map is a bucket key and conversely, and the
    /// key order lists each queued key exactly once.
    pub proof fn lemma_wf(self)
        requires
            self.inv(),
        ensures
            forall|k: u64|
                self.queued().contains_key(k) <==> exists|i: int|
                    0 <= i < self.key_order().len() && #[trigger] self.key_order()[i] == k,
            forall|i: int, j: int|
                0 <= i < j < self.key_order().len() ==> self.key_order()[i]
                    != self.key_order()[j],
    {
        lemma_buckets_map(self.buckets@);
        assert forall|k: u64| self.queued().contains_key(k) implies exists|i: int|
            0 <= i < self.key_order().len() && #[trigger] self.key_order()[i] == k by {
            let i = choose|i: int|
                0 <= i < self.buckets@.len() && #[trigger] self.buckets@[i].type_key() == k;
            assert(self.key_order()[i] == k);
        }
        assert forall|k: u64|
            (exists|i: int| 0 <= i < self.key_order().len() && #[trigger] self.key_order()[i]
                == k) implies self.queued().contains_key(k) by {
            let i = choose|i: int|
                0 <= i < self.key_order().len() && #[trigger] self.key_order()[i] == k;
            assert(self.buckets@[i].type_key() == k);
        }
    }

    /// Creates a new, empty context.
    pub fn new() -> (r: Self)
        ensures
            r.inv(),
            r.queued() == Map::<u64, Seq<V>>::empty(),
            r.key_order() == Seq::<u64>::empty(),
    {
        proof {
            assert(bucket_keys(Seq::<ErasedVec<V>>::empty()) =~= Seq::<u64>::empty());
        }
        Context { buckets: Vec::new() }
    }

    /// The index of the bucket tagged `key`, if one exists.
    fn find_bucket(&self, key: u64) -> (r: Option<usize>)
        requires
            self.inv(),
        ensures
            match r {
                Some(i) => i < self.buckets@.len() && self.buckets@[i as int].type_key() == key
                    && self.queued().contains_key(key) && self.queued()[key]
                    == self.buckets@[i as int].items(),
                None => !self.queued().contains_key(key),
            },
    {
        let n = self.buckets.len();
        let mut i: usize = 0;
        while i < n
            invariant
                self.inv(),
                i <= n,
                n == self.buckets@.len(),
                forall|j: int| 0 <= j < i ==> self.buckets@[j].type_key() != key,
            decreases n - i,
        {
            if self.buckets[i].type_key() == key {
                proof {
                    lemma_buckets_map(self.buckets@);
                    assert(exists|j: int|
                        0 <= j < self.buckets@.len() && #[trigger] self.buckets@[j].type_key()
                            == key) by {
                        assert(self.buckets@[i as int].type_key() == key);
                    }
                    assert(map_of_buckets(self.buckets@)[self.buckets@[i as int].type_key()]
                        == self.buckets@[i as int].items());
                }
                return Some(i);
            }
            i = i + 1;
        }
        proof {
            lemma_buckets_map(self.buckets@);
        }
        None
    }

    /// Emits one event value under its type-key: it is appended to the
    /// bucket for that key, a fresh bucket being created at the end if the
    /// key is new.
    pub fn emit(&mut self, type_key: u64, value: V)
        requires
            old(self).inv(),
        ensures
            final(self).inv(),
            final(self).queued() == spec_emit(old(self).queued(), type_key, value),
            old(self).queued().contains_key(type_key) ==> final(self).key_order() == old(
                self,
            ).key_order(),
            !old(self).queued().contains_key(type_key) ==> final(self).key_order() == old(
                self,
            ).key_order().push(type_key),
    {
        match self.find_bucket(type_key) {
            Some(i) => {
                let ghost s0 = self.buckets@;
                let b = vstd::std_specs::vec::vec_index_mut(&mut self.buckets, i);
                b.push(type_key, value);
                proof {
                    lemma_buckets_update(s0, i as int, self.buckets@[i as int]);
                }
            },
            None => {
                let mut b = ErasedVec::new(type_key);
                b.push(type_key, value);
                let ghost s0 = self.buckets@;
                let ghost b0 = b;
                self.buckets.push(b);
                proof {
                    lemma_buckets_map(s0);
                    assert(self.buckets@.drop_last() =~= s0);
                    assert(b0.items() =~= seq![value]);
                    assert(bucket_keys(self.buckets@) =~= bucket_keys(s0).push(type_key));
                    assert forall|p: int, q: int|
                        0 <= p < q < self.buckets@.len() implies self.buckets@[p].type_key()
                        != self.buckets@[q].type_key() by {
                        if q < s0.len() {
                            assert(s0[p].type_key() != s0[q].type_key());
                        } else {
                            assert(self.buckets@[p] == s0[p]);
                            assert(s0[p].type_key() == bucket_keys(s0)[p]);
                        }
                    }
                }
            },
        }
    }

    /// Clears every bucket, keeping the buckets — and their backing
    /// allocations — for reuse.
    pub fn clear(&mut self)
        requires
            old(self).inv(),
        ensures
            final(self).inv(),
            final(self).key_order() == old(self).key_order(),
            forall|k: u64| #[trigger]
                final(self).queued().contains_key(k) <==> old(self).queued().contains_key(k),
            forall|k: u64| #[trigger]
                final(self).queued().contains_key(k) ==> final(self).queued()[k] == Seq::<
                    V,
                >::empty(),
    {
        let n = self.buckets.len();
        let ghost s0 = self.buckets@;
        let mut i: usize = 0;
        while i < n
            invariant
                i <= n,
                n == self.buckets@.len(),
                s0.len() == n,
                unique_bucket_keys(s0),
                forall|j: int| 0 <= j < n ==> self.buckets@[j].type_key() == s0[j].type_key(),
                forall|j: int|
                    0 <= j < i ==> self.buckets@[j].items() == Seq::<V>::empty(),
                forall|j: int| i <= j < n ==> self.buckets@[j] == s0[j],
            decreases n - i,
        {
            let b = vstd::std_specs::vec::vec_index_mut(&mut self.buckets, i);
            b.clear();
            i = i + 1;
        }
        proof {
            self.lemma_clear_post(s0);
        }
    }

    /// After every bucket is emptied in place, the context's key order is
    /// unchanged and every queued batch is empty.
    proof fn lemma_clear_post(self, s0: Seq<ErasedVec<V>>)
        requires
            s0.len() == self.buckets@.len(),
            forall|j: int| 0 <= j < s0.len() ==> self.buckets@[j].type_key() == s0[j].type_key(),
            forall|j: int|
                0 <= j < self.buckets@.len() ==> self.buckets@[j].items() == Seq::<V>::empty(),
            unique_bucket_keys(s0),
        ensures
            self.inv(),
            self.key_order() == bucket_keys(s0),
            forall|k: u64| #[trigger]
                self.queued().contains_key(k) <==> map_of_buckets(s0).contains_key(k),
            forall|k: u64| #[trigger]
                self.queued().contains_key(k) ==> self.queued()[k] == Seq::<V>::empty(),
    {
        let s = self.buckets@;
        assert(bucket_keys(s) =~= bucket_keys(s0));
        assert(unique_bucket_keys(s)) by {
            assert forall|p: int, q: int| 0 <= p < q < s.len() implies s[p].type_key()
                != s[q].type_key() by {
                assert(s0[p].type_key() != s0[q].type_key());
            }
        }
        lemma_buckets_map(s);
        lemma_buckets_map(s0);
        assert forall|k: u64| #[trigger] self.queued().contains_key(k) implies map_of_buckets(
            s0,
        ).contains_key(k) by {
            let i = choose|i: int| 0 <= i < s.len() && #[trigger] s[i].type_key() == k;
            assert(s0[i].type_key() == k);
        }
        assert forall|k: u64| #[trigger] map_of_buckets(s0).contains_key(k) implies
            self.queued().contains_key(k) by {
            let i = choose|i: int| 0 <= i < s0.len() && #[trigger] s0[i].type_key() == k;
            assert(s[i].type_key() == k);
        }
        assert forall|k: u64| #[trigger] self.queued().contains_key(k) implies self.queued()[k]
            == Seq::<V>::empty() by {
            let i = choose|i: int| 0 <= i < s.len() && #[trigger] s[i].type_key() == k;
            assert(self.queued()[s[i].type_key()] == s[i].items());
        }
    }

    /// Drains the context: moves every bucket's values out, in bucket
    /// order, leaving every bucket empty but in place for reuse.
    pub fn drain(&mut self) -> (r: Vec<(u64, Vec<V>)>)
        requires
            old(self).inv(),
        ensures
            final(self).inv(),
            final(self).key_order() == old(self).key_order(),
            forall|k: u64| #[trigger]
                final(self).queued().contains_key(k) <==> old(self).queued().contains_key(k),
            forall|k: u64| #[trigger]
                final(self).queued().contains_key(k) ==> final(self).queued()[k] == Seq::<
                    V,
                >::empty(),
            r@.len() == old(self).key_order().len(),
            forall|i: int|
                0 <= i < r@.len() ==> (#[trigger] r@[i].0) == old(self).key_order()[i]
                    && r@[i].1@ == old(self).queued()[old(self).key_order()[i]],
    {
        let ghost s0 = self.buckets@;
        proof {
            lemma_buckets_map(s0);
        }
        let n = self.buckets.len();
        let mut out: Vec<(u64, Vec<V>)> = Vec::new();
        let mut i: usize = 0;
        while i < n
            invariant
                i <= n,
                n == self.buckets@.len(),
                s0.len() == n,
                unique_bucket_keys(s0),
                forall|j: int| 0 <= j < n ==> self.buckets@[j].type_key() == s0[j].type_key(),
                forall|j: int|
                    0 <= j < i ==> self.buckets@[j].items() == Seq::<V>::empty(),
                forall|j: int| i <= j < n ==> self.buckets@[j] == s0[j],
                out@.len() == i,
                forall|j: int|
                    0 <= j < i ==> (#[trigger] out@[j].0) == s0[j].type_key() && out@[j].1@
                        == s0[j].items(),
            decreases n - i,
        {
            let b = vstd::std_specs::vec::vec_index_mut(&mut self.buckets, i);
            let key = b.type_key();
            let items = b.take_items();
            out.push((key, items));
            i = i + 1;
        }
        proof {
            self.lemma_clear_post(s0);
            lemma_buckets_map(s0);
            assert forall|j: int|
                0 <= j < out@.len() implies (#[trigger] out@[j].0) == bucket_keys(s0)[j]
                && out@[j].1@ == map_of_buckets(s0)[bucket_keys(s0)[j]] by {
                assert(out@[j].0 == s0[j].type_key());
                assert(map_of_buckets(s0)[s0[j].type_key()] == s0[j].items());
            }
        }
        out
    }
}

/// A batch queued under a key equals the values emitted for that key, in
/// emission order: applying a sequence of emissions to a queued map leaves,
/// under each key, what was there before followed by exactly that key's
/// emitted values in order.
pub open spec fn queued_after<V>(q: Map<u64, Seq<V>>, es: Seq<(u64, V)>) -> Map<u64, Seq<V>>
    decreases es.len(),
{
    if es.len() == 0 {
        q
    } else {
        spec_emit(queued_after(q, es.drop_last()), es.last().0, es.last().1)
    }
}

/// A sequence none of whose pairs carries `k` filters to nothing under the
/// key predicate for `k`.
proof fn lemma_filter_none<V>(s: Seq<(u64, V)>, k: u64)
    requires
        forall|i: int| 0 <= i < s.len() ==> (#[trigger] s[i].0) != k,
    ensures
        s.filter(|p: (u64, V)| p.0 == k) == Seq::<(u64, V)>::empty(),
    decreases s.len(),
{
    reveal(Seq::filter);
    if s.len() > 0 {
        let t = s.drop_last();
        assert forall|i: int| 0 <= i < t.len() implies (#[trigger] t[i].0) != k by {
            assert(s[i].0 != k);
        }
        lemma_filter_none(t, k);
    }
}

/// Dispatch batch content: after emitting `es` into a context whose queued
/// map was `q`, the batch under `k` is what `q` held under `k` followed by
/// the values emitted under `k`, in emission order, and a key is queued
/// exactly when it was queued before or some emission carries it.
pub proof fn lemma_emission_order<V>(q: Map<u64, Seq<V>>, es: Seq<(u64, V)>, k: u64)
    ensures
        queued_after(q, es).contains_key(k) <==> q.contains_key(k) || exists|i: int|
            0 <= i < es.len() && (#[trigger] es[i].0) == k,
        queued_after(q, es).contains_key(k) ==> queued_after(q, es)[k] == (
        if q.contains_key(k) {
            q[k]
        } else {
            Seq::<V>::empty()
        }) + es.filter(|p: (u64, V)| p.0 == k).map_values(|p: (u64, V)| p.1),
    decreases es.len(),
{
    let pred = |p: (u64, V)| p.0 == k;
    let proj = |p: (u64, V)| p.1;
    reveal(Seq::filter);
    if es.len() == 0 {
        assert(es.filter(pred) =~= Seq::<(u64, V)>::empty());
        if q.contains_key(k) {
            assert(q[k] + es.filter(pred).map_values(proj) =~= q[k]);
        }
    } else {
        let t = es.drop_last();
        let e = es.last();
        lemma_emission_order(q, t, k);
        assert(es.filter(pred) == if pred(e) {
            t.filter(pred).push(e)
        } else {
            t.filter(pred)
        });
        assert forall|i: int|
            0 <= i < t.len() implies t[i] == es[i] by {}
        if e.0 == k {
            assert(es[es.len() - 1].0 == k);
            let base = if q.contains_key(k) {
                q[k]
            } else {
                Seq::<V>::empty()
            };
            assert(t.filter(pred).push(e).map_values(proj) =~= t.filter(pred).map_values(
                proj,
            ).push(e.1));
            assert(base + es.filter(pred).map_values(proj) =~= (base + t.filter(pred).map_values(
                proj,
            )).push(e.1));
            if queued_after(q, t).contains_key(k) {
                assert(queued_after(q, es)[k] == queued_after(q, t)[k].push(e.1));
            } else {
                assert(!q.contains_key(k));
                assert forall|i: int| 0 <= i < t.len() implies (#[trigger] t[i].0) != k by {
                    if t[i].0 == k {
                        assert(exists|j: int| 0 <= j < t.len() && (#[trigger] t[j].0) == k);
                    }
                }
                lemma_filter_none(t, k);
                assert(queued_after(q, es)[k] == seq![e.1]);
                assert(base + es.filter(pred).map_values(proj) =~= seq![e.1]);
            }
        } else {
            if queued_after(q, es).contains_key(k) {
                assert(queued_after(q, es)[k] == queued_after(q, t)[k]);
            }
            assert forall|i: int|
                0 <= i < es.len() && (#[trigger] es[i].0) == k implies exists|j: int|
                0 <= j < t.len() && (#[trigger] t[j].0) == k by {
                assert(i < t.len());
                assert(t[i].0 == k);
            }
        }
    }
}

} // verus!
