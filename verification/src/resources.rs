//! A container of singleton resources, keyed by type-key, each entry guarded
//! by a run-time borrow flag.

use vstd::prelude::*;

verus! {

/// Error from resource lookup or borrowing.
#[derive(Clone, Copy, Debug, PartialEq, Eq, Structural)]
pub enum ResourceError {
    /// No entry exists under the requested type-key.
    NotFound,
    /// The entry exists, but a conflicting borrow is outstanding.
    AlreadyBorrowed,
}

/// Marker for types that can be stored as resources.
pub trait Resource: 'static {

}

impl<T: 'static> Resource for T {

}

/// Run-time borrow flag for one resource entry: `u32::MAX` marks the live
/// exclusive borrow; any other value counts the live shared borrows.
pub struct BorrowFlag {
    bits: u32,
}

impl BorrowFlag {
    /// The raw flag value.
    pub closed spec fn bits(self) -> u32 {
        self.bits
    }

    /// Whether the exclusive borrow is live.
    pub open spec fn exclusively_borrowed(self) -> bool {
        self.bits() == u32::MAX
    }

    /// Creates a flag with no borrows outstanding.
    pub fn new() -> (r: Self)
        ensures
            r.bits() == 0,
    {
        BorrowFlag { bits: 0 }
    }

    /// Attempts to flag this entry as mutably borrowed; succeeds exactly
    /// when no borrow of either kind is outstanding.
    pub fn obtain_mutable(&mut self) -> (r: bool)
        ensures
            r <==> old(self).bits() == 0,
            r ==> final(self).bits() == u32::MAX,
            !r ==> final(self).bits() == old(self).bits(),
    {
        if self.bits == 0 {
            self.bits = u32::MAX;
            true
        } else {
            false
        }
    }

    /// Marks this entry as no longer mutably borrowed.
    pub fn release_mutable(&mut self)
        requires
            old(self).exclusively_borrowed(),
        ensures
            final(self).bits() == 0,
    {
        self.bits = 0;
    }

    /// Attempts to obtain one more shared borrow; succeeds exactly when
    /// the exclusive borrow is not outstanding.
    pub fn obtain_immutable(&mut self) -> (r: bool)
        requires
            !old(self).exclusively_borrowed() ==> old(self).bits() + 1 < u32::MAX,
        ensures
            r <==> !old(self).exclusively_borrowed(),
            r ==> final(self).bits() == old(self).bits() + 1,
            !r ==> final(self).bits() == old(self).bits(),
    {
        if self.bits == u32::MAX {
            false
        } else {
            self.bits = self.bits + 1;
            true
        }
    }

    /// Releases one shared borrow.
    pub fn release_immutable(&mut self)
        requires
            0 < old(self).bits(),
            !old(self).exclusively_borrowed(),
        ensures
            final(self).bits() == old(self).bits() - 1,
    {
        self.bits = self.bits - 1;
    }
}

/// The observable state of one resource entry: its borrow flag value and
/// the stored value.
pub struct ResourceState<V> {
    /// Borrow flag: `u32::MAX` for the exclusive borrow, otherwise the
    /// number of live shared borrows.
    pub flag: u32,
    /// The stored resource value.
    pub value: V,
}

impl<V> ResourceState<V> {
    /// Whether the exclusive borrow of this entry is live.
    pub open spec fn exclusively_borrowed(self) -> bool {
        self.flag == u32::MAX
    }

    /// Whether one more shared borrow may be acquired.
    pub open spec fn can_borrow(self) -> bool {
        !self.exclusively_borrowed()
    }

    /// Whether the exclusive borrow may be acquired: no borrow of either
    /// kind may be outstanding.
    pub open spec fn can_borrow_mut(self) -> bool {
        self.flag == 0
    }
}

/// The map after a fresh value is inserted under `key`: any previous entry
/// is replaced and the borrow flag starts clear.
pub open spec fn with_inserted<V>(
    m: Map<u64, ResourceState<V>>,
    key: u64,
    value: V,
) -> Map<u64, ResourceState<V>> {
    m.insert(key, (ResourceState { flag: 0, value }))
}

/// The map after one more shared borrow of `key` is acquired.
pub open spec fn with_shared_acquired<V>(m: Map<u64, ResourceState<V>>, key: u64) -> Map<
    u64,
    ResourceState<V>,
>
    recommends
        m.contains_key(key),
{
    m.insert(key, (ResourceState { flag: (m[key].flag + 1) as u32, value: m[key].value }))
}

/// The map after one shared borrow of `key` is released.
pub open spec fn with_shared_released<V>(m: Map<u64, ResourceState<V>>, key: u64) -> Map<
    u64,
    ResourceState<V>,
>
    recommends
        m.contains_key(key),
{
    m.insert(key, (ResourceState { flag: (m[key].flag - 1) as u32, value: m[key].value }))
}

/// The map after the exclusive borrow of `key` is acquired.
pub open spec fn with_exclusive_acquired<V>(m: Map<u64, ResourceState<V>>, key: u64) -> Map<
    u64,
    ResourceState<V>,
>
    recommends
        m.contains_key(key),
{
    m.insert(key, (ResourceState { flag: u32::MAX, value: m[key].value }))
}

/// The map after the exclusive borrow of `key` is released.
pub open spec fn with_exclusive_released<V>(m: Map<u64, ResourceState<V>>, key: u64) -> Map<
    u64,
    ResourceState<V>,
>
    recommends
        m.contains_key(key),
{
    m.insert(key, (ResourceState { flag: 0, value: m[key].value }))
}

/// The map after the value under `key` is overwritten through the live
/// exclusive borrow.
pub open spec fn with_value<V>(m: Map<u64, ResourceState<V>>, key: u64, value: V) -> Map<
    u64,
    ResourceState<V>,
>
    recommends
        m.contains_key(key),
{
    m.insert(key, (ResourceState { flag: m[key].flag, value }))
}

/// The pairs list `s` is exactly the contents of `m`: every pair's key is
/// in `m` with that value, every key of `m` appears, and no key repeats.
pub open spec fn pairs_match<V>(m: Map<u64, ResourceState<V>>, s: Seq<(u64, V)>) -> bool {
    &&& forall|i: int|
        0 <= i < s.len() ==> m.contains_key(#[trigger] s[i].0) && m[s[i].0].value == s[i].1
    &&& forall|k: u64| #[trigger]
        m.contains_key(k) ==> exists|i: int| 0 <= i < s.len() && #[trigger] s[i].0 == k
    &&& forall|i: int, j: int| 0 <= i < j < s.len() ==> s[i].0 != s[j].0
}

/// Guard token witnessing one live shared borrow of the entry under its
/// type-key; handed back through `release` when the access window ends.
#[derive(Debug)]
pub struct Ref {
    key: u64,
}

impl Ref {
    /// The type-key this guard borrows.
    pub closed spec fn key(self) -> u64 {
        self.key
    }
}

/// Guard token witnessing the live exclusive borrow of the entry under its
/// type-key; handed back through `release_mut` when the access window ends.
#[derive(Debug)]
pub struct RefMut {
    key: u64,
}

impl RefMut {
    /// The type-key this guard borrows.
    pub closed spec fn key(self) -> u64 {
        self.key
    }
}

/// One stored resource: its type-key, borrow flag, and value.
struct ResourceEntry<V> {
    key: u64,
    flag: BorrowFlag,
    value: V,
}

/// The observable state of one entry.
spec fn entry_state<V>(e: ResourceEntry<V>) -> ResourceState<V> {
    ResourceState { flag: e.flag.bits(), value: e.value }
}

/// No two entries share a type-key.
spec fn unique_keys<V>(s: Seq<ResourceEntry<V>>) -> bool {
    forall|i: int, j: int| 0 <= i < j < s.len() ==> s[i].key != s[j].key
}

/// The type-key-to-state map described by a sequence of entries.
spec fn map_of_entries<V>(s: Seq<ResourceEntry<V>>) -> Map<u64, ResourceState<V>>
    decreases s.len(),
{
    if s.len() == 0 {
        Map::empty()
    } else {
        map_of_entries(s.drop_last()).insert(s.last().key, entry_state(s.last()))
    }
}

/// A key is in the map exactly when some entry carries it, and under unique
/// keys the map sends each entry's key to that entry's state.
proof fn lemma_entries_map<V>(s: Seq<ResourceEntry<V>>)
    ensures
        forall|k: u64|
            map_of_entries(s).contains_key(k) <==> exists|i: int|
                0 <= i < s.len() && #[trigger] s[i].key == k,
        unique_keys(s) ==> forall|i: int|
            0 <= i < s.len() ==> map_of_entries(s)[#[trigger] s[i].key] == entry_state(s[i]),
    decreases s.len(),
{
    if s.len() > 0 {
        let t = s.drop_last();
        lemma_entries_map(t);
        let m = map_of_entries(s);
        assert(m == map_of_entries(t).insert(s.last().key, entry_state(s.last())));
        assert forall|k: u64| m.contains_key(k) implies exists|i: int|
            0 <= i < s.len() && #[trigger] s[i].key == k by {
            if k == s.last().key {
                assert(s[s.len() - 1].key == k);
            } else {
                assert(map_of_entries(t).contains_key(k));
                let i = choose|i: int| 0 <= i < t.len() && #[trigger] t[i].key == k;
                assert(t[i] == s[i]);
                assert(s[i].key == k);
            }
        }
        assert forall|k: u64|
            (exists|i: int| 0 <= i < s.len() && #[trigger] s[i].key == k) implies m.contains_key(
            k,
        ) by {
            let i = choose|i: int| 0 <= i < s.len() && #[trigger] s[i].key == k;
            if i < s.len() - 1 {
                assert(t[i] == s[i]);
                assert(t[i].key == k);
                assert(map_of_entries(t).contains_key(k));
            }
        }
        if unique_keys(s) {
            assert(unique_keys(t)) by {
                assert forall|i: int, j: int| 0 <= i < j < t.len() implies t[i].key
                    != t[j].key by {
                    assert(t[i] == s[i]);
                    assert(t[j] == s[j]);
                    assert(s[i].key != s[j].key);
                }
            }
            assert forall|i: int| 0 <= i < s.len() implies m[#[trigger] s[i].key] == entry_state(
                s[i],
            ) by {
                if i < s.len() - 1 {
                    assert(s[i].key != s.last().key);
                    assert(t[i] == s[i]);
                    assert(map_of_entries(t)[t[i].key] == entry_state(t[i]));
                }
            }
        }
    }
}

/// Replacing the entry at `i` by one with the same key updates the map at
/// that key alone.
proof fn lemma_map_update<V>(s: Seq<ResourceEntry<V>>, i: int, e: ResourceEntry<V>)
    requires
        unique_keys(s),
        0 <= i < s.len(),
        e.key == s[i].key,
    ensures
        map_of_entries(s.update(i, e)) == map_of_entries(s).insert(e.key, entry_state(e)),
        unique_keys(s.update(i, e)),
    decreases s.len(),
{
    let t = s.update(i, e);
    assert(unique_keys(t)) by {
        assert forall|p: int, q: int| 0 <= p < q < t.len() implies t[p].key != t[q].key by {
            assert(s[p].key != s[q].key);
        }
    }
    if i == s.len() - 1 {
        assert(t.drop_last() =~= s.drop_last());
        assert(map_of_entries(t) == map_of_entries(s.drop_last()).insert(e.key, entry_state(e)));
        assert(map_of_entries(s.drop_last()).insert(s.last().key, entry_state(s.last())).insert(
            e.key,
            entry_state(e),
        ) =~= map_of_entries(s.drop_last()).insert(e.key, entry_state(e)));
    } else {
        assert(unique_keys(s.drop_last())) by {
            assert forall|p: int, q: int|
                0 <= p < q < s.drop_last().len() implies s.drop_last()[p].key
                != s.drop_last()[q].key by {
                assert(s[p].key != s[q].key);
            }
        }
        assert(t.drop_last() =~= s.drop_last().update(i, e));
        lemma_map_update(s.drop_last(), i, e);
        assert(e.key != s.last().key);
        assert(map_of_entries(s.drop_last()).insert(e.key, entry_state(e)).insert(
            s.last().key,
            entry_state(s.last()),
        ) =~= map_of_entries(s.drop_last()).insert(s.last().key, entry_state(s.last())).insert(
            e.key,
            entry_state(e),
        ));
    }
}

/// Stores a set of owned resource values, at most one per type-key, each
/// borrow-checked at run time through its entry's flag.
pub struct OwnedResources<V> {
    entries: Vec<ResourceEntry<V>>,
}

impl<V> Default for OwnedResources<V> {
    /// Creates a new container with no stored values.
    fn default() -> (r: Self)
        ensures
            r.inv(),
            r.res_map() == Map::<u64, ResourceState<V>>::empty(),
            r.entry_count() == 0,
    {
        OwnedResources { entries: Vec::new() }
    }
}

impl<V> OwnedResources<V> {
    /// The sequence of stored entries.
    spec fn entries_seq(self) -> Seq<ResourceEntry<V>> {
        self.entries@
    }

    /// The type-key-to-state map this container holds.
    pub closed spec fn res_map(self) -> Map<u64, ResourceState<V>> {
        map_of_entries(self.entries@)
    }

    /// Type-keys are unique across entries.
    pub closed spec fn inv(self) -> bool {
        unique_keys(self.entries@)
    }

    /// The number of stored entries; used to bound the aliased layer.
    pub closed spec fn entry_count(self) -> nat {
        self.entries@.len()
    }

    /// Creates a new container with no stored values.
    pub fn new() -> (r: Self)
        ensures
            r.inv(),
            r.res_map() == Map::<u64, ResourceState<V>>::empty(),
            r.entry_count() == 0,
    {
        OwnedResources { entries: Vec::new() }
    }

    /// The index of the entry under `key`, if the key is present.
    fn find_index(&self, key: u64) -> (r: Option<usize>)
        requires
            self.inv(),
        ensures
            match r {
                Some(i) => i < self.entries_seq().len() && self.entries_seq()[i as int].key == key
                    && self.res_map().contains_key(key) && self.res_map()[key] == entry_state(
                    self.entries_seq()[i as int],
                ),
                None => !self.res_map().contains_key(key),
            },
    {
        proof {
            lemma_entries_map(self.entries@);
        }
        let n = self.entries.len();
        let mut i: usize = 0;
        while i < n
            invariant
                self.inv(),
                i <= n,
                n == self.entries_seq().len(),
                forall|j: int| 0 <= j < i ==> self.entries_seq()[j].key != key,
            decreases n - i,
        {
            if self.entries[i].key == key {
                proof {
                    lemma_entries_map(self.entries@);
                    assert(exists|j: int|
                        0 <= j < self.entries@.len() && #[trigger] self.entries@[j].key == key) by {
                        assert(self.entries@[i as int].key == key);
                    }
                    assert(map_of_entries(self.entries@)[self.entries@[i as int].key]
                        == entry_state(self.entries@[i as int]));
                }
                return Some(i);
            }
            i = i + 1;
        }
        proof {
            lemma_entries_map(self.entries@);
        }
        None
    }

    /// Whether a resource is stored under `key`.
    pub fn contains_key(&self, key: u64) -> (r: bool)
        requires
            self.inv(),
        ensures
            r <==> self.res_map().contains_key(key),
    {
        self.find_index(key).is_some()
    }

    /// The borrow flag of the entry under `key`, if the key is present:
    /// `u32::MAX` for the exclusive borrow, otherwise the count of live
    /// shared borrows.
    pub fn flag_of(&self, key: u64) -> (r: Option<u32>)
        requires
            self.inv(),
        ensures
            match r {
                Some(flag) => self.res_map().contains_key(key) && flag
                    == self.res_map()[key].flag,
                None => !self.res_map().contains_key(key),
            },
    {
        match self.find_index(key) {
            Some(i) => Some(self.entries[i].flag.bits),
            None => None,
        }
    }

    /// Inserts a new resource under `key`, replacing any existing entry
    /// of the same type-key. The replaced entry must not be borrowed.
    pub fn insert(&mut self, key: u64, value: V)
        requires
            old(self).inv(),
            old(self).res_map().contains_key(key) ==> old(self).res_map()[key].flag == 0,
        ensures
            final(self).inv(),
            final(self).res_map() == with_inserted(old(self).res_map(), key, value),
            old(self).res_map().contains_key(key) ==> final(self).entry_count() == old(self).entry_count(),
            !old(self).res_map().contains_key(key) ==> final(self).entry_count() == old(self).entry_count() + 1,
    {
        let entry = ResourceEntry { key, flag: BorrowFlag::new(), value };
        match self.find_index(key) {
            Some(i) => {
                proof {
                    lemma_map_update(self.entries@, i as int, entry);
                }
                let slot = vstd::std_specs::vec::vec_index_mut(&mut self.entries, i);
                *slot = entry;
            },
            None => {
                proof {
                    lemma_entries_map(self.entries@);
                    assert(self.entries@.push(entry).drop_last() =~= self.entries@);
                    assert forall|p: int, q: int|
                        0 <= p < q < self.entries@.push(entry).len() implies self.entries@.push(
                        entry,
                    )[p].key != self.entries@.push(entry)[q].key by {
                        if q < self.entries@.len() {
                            assert(self.entries@[p].key != self.entries@[q].key);
                        } else {
                            assert(self.entries@[p].key == self.entries@.push(entry)[p].key);
                        }
                    }
                }
                self.entries.push(entry);
            },
        }
    }

    /// Method chaining alias for `insert`.
    pub fn with(self, key: u64, value: V) -> (r: Self)
        requires
            self.inv(),
            self.res_map().contains_key(key) ==> self.res_map()[key].flag == 0,
        ensures
            r.inv(),
            r.res_map() == with_inserted(self.res_map(), key, value),
            self.res_map().contains_key(key) ==> r.entry_count() == self.entry_count(),
            !self.res_map().contains_key(key) ==> r.entry_count() == self.entry_count() + 1,
    {
        let mut this = self;
        this.insert(key, value);
        this
    }

    /// Attempts to acquire a shared borrow of the resource under `key`.
    ///
    /// Fails with `NotFound` exactly when the key is absent, and with
    /// `AlreadyBorrowed` exactly when the exclusive borrow is outstanding.
    pub fn try_get(&mut self, key: u64) -> (r: Result<Ref, ResourceError>)
        requires
            old(self).inv(),
            old(self).res_map().contains_key(key) && !old(self).res_map()[key].exclusively_borrowed() ==> old(self).res_map()[key].flag + 1
                < u32::MAX,
        ensures
            final(self).inv(),
            final(self).entry_count() == old(self).entry_count(),
            r is Ok <==> old(self).res_map().contains_key(key) && old(self).res_map()[key].can_borrow(),
            !old(self).res_map().contains_key(key) ==> r == Err::<Ref, ResourceError>(
                ResourceError::NotFound,
            ) && final(self).res_map() == old(self).res_map(),
            old(self).res_map().contains_key(key) && old(self).res_map()[key].exclusively_borrowed() ==> r == Err::<Ref, ResourceError>(
                ResourceError::AlreadyBorrowed,
            ) && final(self).res_map() == old(self).res_map(),
            r is Ok ==> r->Ok_0.key() == key && final(self).res_map() == with_shared_acquired(
                old(self).res_map(),
                key,
            ),
    {
        let i = match self.find_index(key) {
            Some(i) => i,
            None => {
                return Err(ResourceError::NotFound);
            },
        };
        let ghost s0 = self.entries@;
        let e = vstd::std_specs::vec::vec_index_mut(&mut self.entries, i);
        let ok = e.flag.obtain_immutable();
        if ok {
            proof {
                lemma_map_update(s0, i as int, self.entries@[i as int]);
            }
            Ok(Ref { key })
        } else {
            proof {
                assert(self.entries@ =~= s0);
            }
            Err(ResourceError::AlreadyBorrowed)
        }
    }

    /// Acquires a shared borrow of the resource under `key`.
    ///
    /// The key must be present and not exclusively borrowed: the aborting
    /// convenience form of `try_get` is left to unverified callers.
    pub fn get(&mut self, key: u64) -> (r: Ref)
        requires
            old(self).inv(),
            old(self).res_map().contains_key(key),
            old(self).res_map()[key].can_borrow(),
            old(self).res_map()[key].flag + 1 < u32::MAX,
        ensures
            final(self).inv(),
            final(self).entry_count() == old(self).entry_count(),
            r.key() == key,
            final(self).res_map() == with_shared_acquired(old(self).res_map(), key),
    {
        match self.try_get(key) {
            Ok(guard) => guard,
            Err(_) => vstd::pervasive::unreached(),
        }
    }

    /// Attempts to acquire the exclusive borrow of the resource under `key`.
    ///
    /// Fails with `NotFound` exactly when the key is absent, and with
    /// `AlreadyBorrowed` exactly when any borrow is outstanding.
    pub fn try_get_mut(&mut self, key: u64) -> (r: Result<RefMut, ResourceError>)
        requires
            old(self).inv(),
        ensures
            final(self).inv(),
            final(self).entry_count() == old(self).entry_count(),
            r is Ok <==> old(self).res_map().contains_key(key) && old(self).res_map()[key].can_borrow_mut(),
            !old(self).res_map().contains_key(key) ==> r == Err::<RefMut, ResourceError>(
                ResourceError::NotFound,
            ) && final(self).res_map() == old(self).res_map(),
            old(self).res_map().contains_key(key) && !old(self).res_map()[key].can_borrow_mut()
                ==> r == Err::<RefMut, ResourceError>(ResourceError::AlreadyBorrowed) && final(self).res_map() == old(self).res_map(),
            r is Ok ==> r->Ok_0.key() == key && final(self).res_map() == with_exclusive_acquired(
                old(self).res_map(),
                key,
            ),
    {
        let i = match self.find_index(key) {
            Some(i) => i,
            None => {
                return Err(ResourceError::NotFound);
            },
        };
        let ghost s0 = self.entries@;
        let e = vstd::std_specs::vec::vec_index_mut(&mut self.entries, i);
        let ok = e.flag.obtain_mutable();
        if ok {
            proof {
                lemma_map_update(s0, i as int, self.entries@[i as int]);
            }
            Ok(RefMut { key })
        } else {
            proof {
                assert(self.entries@ =~= s0);
            }
            Err(ResourceError::AlreadyBorrowed)
        }
    }

    /// Acquires the exclusive borrow of the resource under `key`.
    ///
    /// The key must be present with no borrow outstanding: the aborting
    /// convenience form of `try_get_mut` is left to unverified callers.
    pub fn get_mut(&mut self, key: u64) -> (r: RefMut)
        requires
            old(self).inv(),
            old(self).res_map().contains_key(key),
            old(self).res_map()[key].can_borrow_mut(),
        ensures
            final(self).inv(),
            final(self).entry_count() == old(self).entry_count(),
            r.key() == key,
            final(self).res_map() == with_exclusive_acquired(old(self).res_map(), key),
    {
        match self.try_get_mut(key) {
            Ok(guard) => guard,
            Err(_) => vstd::pervasive::unreached(),
        }
    }

    /// Releases the shared borrow witnessed by `guard`.
    pub fn release(&mut self, guard: Ref)
        requires
            old(self).inv(),
            old(self).res_map().contains_key(guard.key()),
            0 < old(self).res_map()[guard.key()].flag < u32::MAX,
        ensures
            final(self).inv(),
            final(self).entry_count() == old(self).entry_count(),
            final(self).res_map() == with_shared_released(old(self).res_map(), guard.key()),
    {
        let i = match self.find_index(guard.key) {
            Some(i) => i,
            None => vstd::pervasive::unreached(),
        };
        let ghost s0 = self.entries@;
        let e = vstd::std_specs::vec::vec_index_mut(&mut self.entries, i);
        e.flag.release_immutable();
        proof {
            lemma_map_update(s0, i as int, self.entries@[i as int]);
        }
    }

    /// Releases the exclusive borrow witnessed by `guard`.
    pub fn release_mut(&mut self, guard: RefMut)
        requires
            old(self).inv(),
            old(self).res_map().contains_key(guard.key()),
            old(self).res_map()[guard.key()].exclusively_borrowed(),
        ensures
            final(self).inv(),
            final(self).entry_count() == old(self).entry_count(),
            final(self).res_map() == with_exclusive_released(old(self).res_map(), guard.key()),
    {
        let i = match self.find_index(guard.key) {
            Some(i) => i,
            None => vstd::pervasive::unreached(),
        };
        let ghost s0 = self.entries@;
        let e = vstd::std_specs::vec::vec_index_mut(&mut self.entries, i);
        e.flag.release_mutable();
        proof {
            lemma_map_update(s0, i as int, self.entries@[i as int]);
        }
    }

    /// Reads the resource value under the shared borrow witnessed by `guard`.
    pub fn read(&self, guard: &Ref) -> (r: &V)
        requires
            self.inv(),
            self.res_map().contains_key(guard.key()),
            0 < self.res_map()[guard.key()].flag < u32::MAX,
        ensures
            *r == self.res_map()[guard.key()].value,
    {
        match self.find_index(guard.key) {
            Some(i) => &self.entries[i].value,
            None => vstd::pervasive::unreached(),
        }
    }

    /// Reads the resource value under the exclusive borrow witnessed by
    /// `guard`.
    pub fn read_mut(&self, guard: &RefMut) -> (r: &V)
        requires
            self.inv(),
            self.res_map().contains_key(guard.key()),
            self.res_map()[guard.key()].exclusively_borrowed(),
        ensures
            *r == self.res_map()[guard.key()].value,
    {
        match self.find_index(guard.key) {
            Some(i) => &self.entries[i].value,
            None => vstd::pervasive::unreached(),
        }
    }

    /// Overwrites the resource value under the exclusive borrow witnessed
    /// by `guard`.
    pub fn write(&mut self, guard: &RefMut, value: V)
        requires
            old(self).inv(),
            old(self).res_map().contains_key(guard.key()),
            old(self).res_map()[guard.key()].exclusively_borrowed(),
        ensures
            final(self).inv(),
            final(self).entry_count() == old(self).entry_count(),
            final(self).res_map() == with_value(old(self).res_map(), guard.key(), value),
    {
        let i = match self.find_index(guard.key) {
            Some(i) => i,
            None => vstd::pervasive::unreached(),
        };
        let ghost s0 = self.entries@;
        let e = vstd::std_specs::vec::vec_index_mut(&mut self.entries, i);
        e.value = value;
        proof {
            lemma_map_update(s0, i as int, self.entries@[i as int]);
        }
    }

    /// Dismantles the container into its type-key and value pairs. No
    /// entry may be borrowed.
    pub fn into_pairs(self) -> (r: Vec<(u64, V)>)
        requires
            self.inv(),
        ensures
            pairs_match(self.res_map(), r@),
    {
        let ghost m0 = self.res_map();
        let mut this = self;
        let mut out: Vec<(u64, V)> = Vec::new();
        proof {
            lemma_entries_map(this.entries@);
        }
        while this.entries.len() > 0
            invariant
                unique_keys(this.entries@),
                forall|i: int|
                    0 <= i < this.entries@.len() ==> m0.contains_key(
                        #[trigger] this.entries@[i].key,
                    ) && m0[this.entries@[i].key] == entry_state(this.entries@[i]),
                forall|i: int|
                    0 <= i < out@.len() ==> m0.contains_key(#[trigger] out@[i].0)
                        && m0[out@[i].0].value == out@[i].1,
                forall|k: u64| #[trigger]
                    m0.contains_key(k) ==> (exists|i: int|
                        0 <= i < this.entries@.len() && #[trigger] this.entries@[i].key == k)
                        || (exists|i: int| 0 <= i < out@.len() && #[trigger] out@[i].0 == k),
                forall|i: int, j: int| 0 <= i < j < out@.len() ==> out@[i].0 != out@[j].0,
                forall|i: int, j: int|
                    0 <= i < out@.len() && 0 <= j < this.entries@.len() ==> out@[i].0
                        != this.entries@[j].key,
            decreases this.entries@.len(),
        {
            let ghost s0 = this.entries@;
            let ghost out0 = out@;
            let e = match this.entries.pop() {
                Some(e) => e,
                None => vstd::pervasive::unreached(),
            };
            out.push((e.key, e.value));
            proof {
                assert(e == s0.last());
                assert(this.entries@ =~= s0.drop_last());
                assert forall|k: u64| #[trigger] m0.contains_key(k) implies (exists|i: int|
                    0 <= i < this.entries@.len() && #[trigger] this.entries@[i].key == k)
                    || (exists|i: int| 0 <= i < out@.len() && #[trigger] out@[i].0 == k) by {
                    if exists|i: int| 0 <= i < s0.len() && #[trigger] s0[i].key == k {
                        let i = choose|i: int| 0 <= i < s0.len() && #[trigger] s0[i].key == k;
                        if i < s0.len() - 1 {
                            assert(this.entries@[i].key == k);
                        } else {
                            assert(out@[out@.len() - 1].0 == k);
                        }
                    } else {
                        let i = choose|i: int| 0 <= i < out0.len() && #[trigger] out0[i].0 == k;
                        assert(out@[i].0 == k);
                    }
                }
            }
        }
        proof {
            assert forall|k: u64| #[trigger] m0.contains_key(k) implies exists|i: int|
                0 <= i < out@.len() && #[trigger] out@[i].0 == k by {
                if exists|i: int| 0 <= i < this.entries@.len() && #[trigger] this.entries@[i].key
                    == k {
                    let i = choose|i: int|
                        0 <= i < this.entries@.len() && #[trigger] this.entries@[i].key == k;
                    assert(false);
                }
            }
            assert(pairs_match(m0, out@));
        }
        out
    }
}

/// The type-key-to-state map described by a list of aliased pairs; every
/// entry starts with a clear borrow flag.
pub open spec fn map_of_pairs<V>(s: Seq<(u64, V)>) -> Map<u64, ResourceState<V>>
    decreases s.len(),
{
    if s.len() == 0 {
        Map::empty()
    } else {
        map_of_pairs(s.drop_last()).insert(
            s.last().0,
            (ResourceState { flag: 0, value: s.last().1 }),
        )
    }
}

/// A wrapper over an owned container which layers a small set of
/// externally supplied values on top: lookups probe the aliased set first
/// and fall through to the inner container on miss.
pub struct RefResources<V> {
    aliased: OwnedResources<V>,
    inner: OwnedResources<V>,
}

impl<V> RefResources<V> {
    /// The aliased layer's type-key-to-state map.
    pub closed spec fn aliased_map(self) -> Map<u64, ResourceState<V>> {
        self.aliased.res_map()
    }

    /// The inner container's type-key-to-state map.
    pub closed spec fn inner_map(self) -> Map<u64, ResourceState<V>> {
        self.inner.res_map()
    }

    /// Both layers are well formed and the aliased layer holds at most
    /// four entries.
    pub closed spec fn inv(self) -> bool {
        &&& self.aliased.inv()
        &&& self.inner.inv()
        &&& self.aliased.entry_count() <= 4
    }

    /// Whether some layer stores a resource under `key`.
    pub open spec fn contains(self, key: u64) -> bool {
        self.aliased_map().contains_key(key) || self.inner_map().contains_key(key)
    }

    /// The state a lookup of `key` reaches: the aliased layer shadows the
    /// inner container.
    pub open spec fn lookup(self, key: u64) -> ResourceState<V> {
        if self.aliased_map().contains_key(key) {
            self.aliased_map()[key]
        } else {
            self.inner_map()[key]
        }
    }

    /// Creates a `RefResources` layering the given aliased pairs, at most
    /// four and with distinct type-keys, over the given inner container.
    pub fn new(inner: OwnedResources<V>, refs: Vec<(u64, V)>) -> (r: Self)
        requires
            inner.inv(),
            refs@.len() <= 4,
            forall|i: int, j: int| 0 <= i < j < refs@.len() ==> refs@[i].0 != refs@[j].0,
        ensures
            r.inv(),
            r.inner_map() == inner.res_map(),
            r.aliased_map() == map_of_pairs(refs@),
    {
        let ghost all = refs@;
        let mut refs = refs;
        let mut aliased = OwnedResources::new();
        let mut i: usize = 0;
        proof {
            assert(all.take(0) =~= Seq::<(u64, V)>::empty());
        }
        while refs.len() > 0
            invariant
                i + refs@.len() == all.len(),
                refs@ == all.subrange(i as int, all.len() as int),
                all.len() <= 4,
                forall|p: int, q: int| 0 <= p < q < all.len() ==> all[p].0 != all[q].0,
                aliased.inv(),
                aliased.entry_count() <= i,
                aliased.res_map() == map_of_pairs(all.take(i as int)),
                forall|k: u64| #[trigger]
                    aliased.res_map().contains_key(k) ==> aliased.res_map()[k].flag == 0,
            decreases refs@.len(),
        {
            let (key, value) = refs.remove(0);
            proof {
                assert((key, value) == all[i as int]);
                assert(all.take(i + 1).drop_last() =~= all.take(i as int));
                assert(all.take(i + 1).last() == all[i as int]);
            }
            aliased.insert(key, value);
            proof {
                assert(refs@ =~= all.subrange(i + 1, all.len() as int));
            }
            i = i + 1;
        }
        proof {
            assert(all.take(all.len() as int) =~= all);
        }
        RefResources { aliased, inner }
    }

    /// Attempts to acquire a shared borrow of the resource under `key`,
    /// probing the aliased layer first.
    pub fn try_get(&mut self, key: u64) -> (r: Result<Ref, ResourceError>)
        requires
            old(self).inv(),
            old(self).contains(key) && old(self).lookup(key).can_borrow() ==> old(self).lookup(key).flag + 1 < u32::MAX,
        ensures
            final(self).inv(),
            r is Ok <==> old(self).contains(key) && old(self).lookup(key).can_borrow(),
            !old(self).contains(key) ==> r == Err::<Ref, ResourceError>(ResourceError::NotFound)
                && final(self).aliased_map() == old(self).aliased_map() && final(self).inner_map()
                == old(self).inner_map(),
            old(self).contains(key) && !old(self).lookup(key).can_borrow() ==> r == Err::<
                Ref,
                ResourceError,
            >(ResourceError::AlreadyBorrowed) && final(self).aliased_map() == old(self).aliased_map() && final(self).inner_map() == old(self).inner_map(),
            r is Ok ==> r->Ok_0.key() == key,
            r is Ok && old(self).aliased_map().contains_key(key) ==> final(self).aliased_map()
                == with_shared_acquired(old(self).aliased_map(), key) && final(self).inner_map()
                == old(self).inner_map(),
            r is Ok && !old(self).aliased_map().contains_key(key) ==> final(self).inner_map()
                == with_shared_acquired(old(self).inner_map(), key) && final(self).aliased_map()
                == old(self).aliased_map(),
    {
        if self.aliased.contains_key(key) {
            self.aliased.try_get(key)
        } else {
            self.inner.try_get(key)
        }
    }

    /// Attempts to acquire the exclusive borrow of the resource under
    /// `key`, probing the aliased layer first.
    pub fn try_get_mut(&mut self, key: u64) -> (r: Result<RefMut, ResourceError>)
        requires
            old(self).inv(),
        ensures
            final(self).inv(),
            r is Ok <==> old(self).contains(key) && old(self).lookup(key).can_borrow_mut(),
            !old(self).contains(key) ==> r == Err::<RefMut, ResourceError>(ResourceError::NotFound)
                && final(self).aliased_map() == old(self).aliased_map() && final(self).inner_map()
                == old(self).inner_map(),
            old(self).contains(key) && !old(self).lookup(key).can_borrow_mut() ==> r == Err::<
                RefMut,
                ResourceError,
            >(ResourceError::AlreadyBorrowed) && final(self).aliased_map() == old(self).aliased_map() && final(self).inner_map() == old(self).inner_map(),
            r is Ok ==> r->Ok_0.key() == key,
            r is Ok && old(self).aliased_map().contains_key(key) ==> final(self).aliased_map()
                == with_exclusive_acquired(old(self).aliased_map(), key) && final(self).inner_map()
                == old(self).inner_map(),
            r is Ok && !old(self).aliased_map().contains_key(key) ==> final(self).inner_map()
                == with_exclusive_acquired(old(self).inner_map(), key) && final(self).aliased_map()
                == old(self).aliased_map(),
    {
        if self.aliased.contains_key(key) {
            self.aliased.try_get_mut(key)
        } else {
            self.inner.try_get_mut(key)
        }
    }

    /// Acquires a shared borrow of the resource under `key`; the borrow
    /// must be possible.
    pub fn get(&mut self, key: u64) -> (r: Ref)
        requires
            old(self).inv(),
            old(self).contains(key),
            old(self).lookup(key).can_borrow(),
            old(self).lookup(key).flag + 1 < u32::MAX,
        ensures
            final(self).inv(),
            r.key() == key,
            old(self).aliased_map().contains_key(key) ==> final(self).aliased_map()
                == with_shared_acquired(old(self).aliased_map(), key) && final(self).inner_map()
                == old(self).inner_map(),
            !old(self).aliased_map().contains_key(key) ==> final(self).inner_map()
                == with_shared_acquired(old(self).inner_map(), key) && final(self).aliased_map()
                == old(self).aliased_map(),
    {
        match self.try_get(key) {
            Ok(guard) => guard,
            Err(_) => vstd::pervasive::unreached(),
        }
    }

    /// Acquires the exclusive borrow of the resource under `key`; the
    /// borrow must be possible.
    pub fn get_mut(&mut self, key: u64) -> (r: RefMut)
        requires
            old(self).inv(),
            old(self).contains(key),
            old(self).lookup(key).can_borrow_mut(),
        ensures
            final(self).inv(),
            r.key() == key,
            old(self).aliased_map().contains_key(key) ==> final(self).aliased_map()
                == with_exclusive_acquired(old(self).aliased_map(), key) && final(self).inner_map()
                == old(self).inner_map(),
            !old(self).aliased_map().contains_key(key) ==> final(self).inner_map()
                == with_exclusive_acquired(old(self).inner_map(), key) && final(self).aliased_map()
                == old(self).aliased_map(),
    {
        match self.try_get_mut(key) {
            Ok(guard) => guard,
            Err(_) => vstd::pervasive::unreached(),
        }
    }

    /// Releases the shared borrow witnessed by `guard` in the layer that
    /// granted it.
    pub fn release(&mut self, guard: Ref)
        requires
            old(self).inv(),
            old(self).contains(guard.key()),
            0 < old(self).lookup(guard.key()).flag < u32::MAX,
        ensures
            final(self).inv(),
            old(self).aliased_map().contains_key(guard.key()) ==> final(self).aliased_map()
                == with_shared_released(old(self).aliased_map(), guard.key()) && final(self).inner_map() == old(self).inner_map(),
            !old(self).aliased_map().contains_key(guard.key()) ==> final(self).inner_map()
                == with_shared_released(old(self).inner_map(), guard.key()) && final(self).aliased_map() == old(self).aliased_map(),
    {
        if self.aliased.contains_key(guard.key) {
            self.aliased.release(guard);
        } else {
            self.inner.release(guard);
        }
    }

    /// Releases the exclusive borrow witnessed by `guard` in the layer
    /// that granted it.
    pub fn release_mut(&mut self, guard: RefMut)
        requires
            old(self).inv(),
            old(self).contains(guard.key()),
            old(self).lookup(guard.key()).exclusively_borrowed(),
        ensures
            final(self).inv(),
            old(self).aliased_map().contains_key(guard.key()) ==> final(self).aliased_map()
                == with_exclusive_released(old(self).aliased_map(), guard.key()) && final(self).inner_map() == old(self).inner_map(),
            !old(self).aliased_map().contains_key(guard.key()) ==> final(self).inner_map()
                == with_exclusive_released(old(self).inner_map(), guard.key()) && final(self).aliased_map() == old(self).aliased_map(),
    {
        if self.aliased.contains_key(guard.key) {
            self.aliased.release_mut(guard);
        } else {
            self.inner.release_mut(guard);
        }
    }

    /// Reads the resource value under the shared borrow witnessed by
    /// `guard`.
    pub fn read(&self, guard: &Ref) -> (r: &V)
        requires
            self.inv(),
            self.contains(guard.key()),
            0 < self.lookup(guard.key()).flag < u32::MAX,
        ensures
            *r == self.lookup(guard.key()).value,
    {
        if self.aliased.contains_key(guard.key) {
            self.aliased.read(guard)
        } else {
            self.inner.read(guard)
        }
    }

    /// Reads the resource value under the exclusive borrow witnessed by
    /// `guard`.
    pub fn read_mut(&self, guard: &RefMut) -> (r: &V)
        requires
            self.inv(),
            self.contains(guard.key()),
            self.lookup(guard.key()).exclusively_borrowed(),
        ensures
            *r == self.lookup(guard.key()).value,
    {
        if self.aliased.contains_key(guard.key) {
            self.aliased.read_mut(guard)
        } else {
            self.inner.read_mut(guard)
        }
    }

    /// Overwrites the resource value under the exclusive borrow witnessed
    /// by `guard`.
    pub fn write(&mut self, guard: &RefMut, value: V)
        requires
            old(self).inv(),
            old(self).contains(guard.key()),
            old(self).lookup(guard.key()).exclusively_borrowed(),
        ensures
            final(self).inv(),
            old(self).aliased_map().contains_key(guard.key()) ==> final(self).aliased_map()
                == with_value(old(self).aliased_map(), guard.key(), value) && final(self).inner_map() == old(self).inner_map(),
            !old(self).aliased_map().contains_key(guard.key()) ==> final(self).inner_map()
                == with_value(old(self).inner_map(), guard.key(), value) && final(self).aliased_map() == old(self).aliased_map(),
    {
        if self.aliased.contains_key(guard.key) {
            self.aliased.write(guard, value);
        } else {
            self.inner.write(guard, value);
        }
    }

    /// Dismantles the layering when the aliasing scope ends: returns the
    /// inner container and the aliased pairs with their current values, so
    /// that the caller can hand each value back to its owner.
    pub fn into_parts(self) -> (r: (OwnedResources<V>, Vec<(u64, V)>))
        requires
            self.inv(),
        ensures
            r.0.inv(),
            r.0.res_map() == self.inner_map(),
            pairs_match(self.aliased_map(), r.1@),
    {
        let ghost s0 = self;
        let RefResources { aliased, inner } = self;
        let ghost a0 = aliased;
        let pairs = aliased.into_pairs();
        proof {
            assert(a0 == s0.aliased);
            assert(pairs_match(s0.aliased_map(), pairs@));
        }
        (inner, pairs)
    }
}

/// A tagged-union handle over the two container shapes, so that callers
/// dispatching dynamically can still perform typed lookups without static
/// knowledge of the concrete container.
pub enum ResourcesEnum<V> {
    /// A container of owned values.
    Owned(OwnedResources<V>),
    /// A layered container of aliased values over an inner one.
    Ref(RefResources<V>),
}

impl<V> ResourcesEnum<V> {
    /// Whether this handle views an owned container rather than a layered
    /// one.
    pub open spec fn is_owned(self) -> bool {
        self matches ResourcesEnum::Owned(_)
    }

    /// The underlying containers are well formed.
    pub open spec fn inv(self) -> bool {
        match self {
            ResourcesEnum::Owned(o) => o.inv(),
            ResourcesEnum::Ref(r) => r.inv(),
        }
    }

    /// The aliased layer's map; empty for an owned container.
    pub open spec fn alias_map(self) -> Map<u64, ResourceState<V>> {
        match self {
            ResourcesEnum::Owned(_) => Map::empty(),
            ResourcesEnum::Ref(r) => r.aliased_map(),
        }
    }

    /// The base layer's map: the owned container itself, or the inner
    /// container under the aliased layer.
    pub open spec fn base_map(self) -> Map<u64, ResourceState<V>> {
        match self {
            ResourcesEnum::Owned(o) => o.res_map(),
            ResourcesEnum::Ref(r) => r.inner_map(),
        }
    }

    /// Whether some layer stores a resource under `key`.
    pub open spec fn contains(self, key: u64) -> bool {
        self.alias_map().contains_key(key) || self.base_map().contains_key(key)
    }

    /// The state a lookup of `key` reaches: the aliased layer shadows the
    /// base one.
    pub open spec fn lookup(self, key: u64) -> ResourceState<V> {
        if self.alias_map().contains_key(key) {
            self.alias_map()[key]
        } else {
            self.base_map()[key]
        }
    }

    /// Attempts to acquire a shared borrow of the resource under `key` in
    /// whichever container this handle views.
    pub fn try_get(&mut self, key: u64) -> (r: Result<Ref, ResourceError>)
        requires
            old(self).inv(),
            old(self).contains(key) && old(self).lookup(key).can_borrow() ==> old(self).lookup(key).flag + 1 < u32::MAX,
        ensures
            final(self).inv(),
            final(self).is_owned() <==> old(self).is_owned(),
            r is Ok <==> old(self).contains(key) && old(self).lookup(key).can_borrow(),
            r is Ok ==> r->Ok_0.key() == key,
            !old(self).contains(key) ==> r == Err::<Ref, ResourceError>(ResourceError::NotFound)
                && final(self).alias_map() == old(self).alias_map() && final(self).base_map()
                == old(self).base_map(),
            old(self).contains(key) && !old(self).lookup(key).can_borrow() ==> r == Err::<
                Ref,
                ResourceError,
            >(ResourceError::AlreadyBorrowed) && final(self).alias_map() == old(self).alias_map()
                && final(self).base_map() == old(self).base_map(),
            r is Ok && old(self).alias_map().contains_key(key) ==> final(self).alias_map()
                == with_shared_acquired(old(self).alias_map(), key) && final(self).base_map()
                == old(self).base_map(),
            r is Ok && !old(self).alias_map().contains_key(key) ==> final(self).base_map()
                == with_shared_acquired(old(self).base_map(), key) && final(self).alias_map()
                == old(self).alias_map(),
    {
        match self {
            ResourcesEnum::Owned(o) => o.try_get(key),
            ResourcesEnum::Ref(r) => r.try_get(key),
        }
    }

    /// Attempts to acquire the exclusive borrow of the resource under
    /// `key` in whichever container this handle views.
    pub fn try_get_mut(&mut self, key: u64) -> (r: Result<RefMut, ResourceError>)
        requires
            old(self).inv(),
        ensures
            final(self).inv(),
            final(self).is_owned() <==> old(self).is_owned(),
            r is Ok <==> old(self).contains(key) && old(self).lookup(key).can_borrow_mut(),
            r is Ok ==> r->Ok_0.key() == key,
            !old(self).contains(key) ==> r == Err::<RefMut, ResourceError>(ResourceError::NotFound)
                && final(self).alias_map() == old(self).alias_map() && final(self).base_map()
                == old(self).base_map(),
            old(self).contains(key) && !old(self).lookup(key).can_borrow_mut() ==> r == Err::<
                RefMut,
                ResourceError,
            >(ResourceError::AlreadyBorrowed) && final(self).alias_map() == old(self).alias_map()
                && final(self).base_map() == old(self).base_map(),
            r is Ok && old(self).alias_map().contains_key(key) ==> final(self).alias_map()
                == with_exclusive_acquired(old(self).alias_map(), key) && final(self).base_map()
                == old(self).base_map(),
            r is Ok && !old(self).alias_map().contains_key(key) ==> final(self).base_map()
                == with_exclusive_acquired(old(self).base_map(), key) && final(self).alias_map()
                == old(self).alias_map(),
    {
        match self {
            ResourcesEnum::Owned(o) => o.try_get_mut(key),
            ResourcesEnum::Ref(r) => r.try_get_mut(key),
        }
    }

    /// Acquires a shared borrow of the resource under `key`; the borrow
    /// must be possible.
    pub fn get(&mut self, key: u64) -> (r: Ref)
        requires
            old(self).inv(),
            old(self).contains(key),
            old(self).lookup(key).can_borrow(),
            old(self).lookup(key).flag + 1 < u32::MAX,
        ensures
            final(self).inv(),
            final(self).is_owned() <==> old(self).is_owned(),
            r.key() == key,
            old(self).alias_map().contains_key(key) ==> final(self).alias_map()
                == with_shared_acquired(old(self).alias_map(), key) && final(self).base_map()
                == old(self).base_map(),
            !old(self).alias_map().contains_key(key) ==> final(self).base_map()
                == with_shared_acquired(old(self).base_map(), key) && final(self).alias_map()
                == old(self).alias_map(),
    {
        match self.try_get(key) {
            Ok(guard) => guard,
            Err(_) => vstd::pervasive::unreached(),
        }
    }

    /// Acquires the exclusive borrow of the resource under `key`; the
    /// borrow must be possible.
    pub fn get_mut(&mut self, key: u64) -> (r: RefMut)
        requires
            old(self).inv(),
            old(self).contains(key),
            old(self).lookup(key).can_borrow_mut(),
        ensures
            final(self).inv(),
            final(self).is_owned() <==> old(self).is_owned(),
            r.key() == key,
            old(self).alias_map().contains_key(key) ==> final(self).alias_map()
                == with_exclusive_acquired(old(self).alias_map(), key) && final(self).base_map()
                == old(self).base_map(),
            !old(self).alias_map().contains_key(key) ==> final(self).base_map()
                == with_exclusive_acquired(old(self).base_map(), key) && final(self).alias_map()
                == old(self).alias_map(),
    {
        match self.try_get_mut(key) {
            Ok(guard) => guard,
            Err(_) => vstd::pervasive::unreached(),
        }
    }

    /// Releases the shared borrow witnessed by `guard`.
    pub fn release(&mut self, guard: Ref)
        requires
            old(self).inv(),
            old(self).contains(guard.key()),
            0 < old(self).lookup(guard.key()).flag < u32::MAX,
        ensures
            final(self).inv(),
            final(self).is_owned() <==> old(self).is_owned(),
            old(self).alias_map().contains_key(guard.key()) ==> final(self).alias_map()
                == with_shared_released(old(self).alias_map(), guard.key()) && final(self).base_map() == old(self).base_map(),
            !old(self).alias_map().contains_key(guard.key()) ==> final(self).base_map()
                == with_shared_released(old(self).base_map(), guard.key()) && final(self).alias_map() == old(self).alias_map(),
    {
        match self {
            ResourcesEnum::Owned(o) => o.release(guard),
            ResourcesEnum::Ref(r) => r.release(guard),
        }
    }

    /// Releases the exclusive borrow witnessed by `guard`.
    pub fn release_mut(&mut self, guard: RefMut)
        requires
            old(self).inv(),
            old(self).contains(guard.key()),
            old(self).lookup(guard.key()).exclusively_borrowed(),
        ensures
            final(self).inv(),
            final(self).is_owned() <==> old(self).is_owned(),
            old(self).alias_map().contains_key(guard.key()) ==> final(self).alias_map()
                == with_exclusive_released(old(self).alias_map(), guard.key()) && final(self).base_map() == old(self).base_map(),
            !old(self).alias_map().contains_key(guard.key()) ==> final(self).base_map()
                == with_exclusive_released(old(self).base_map(), guard.key()) && final(self).alias_map() == old(self).alias_map(),
    {
        match self {
            ResourcesEnum::Owned(o) => o.release_mut(guard),
            ResourcesEnum::Ref(r) => r.release_mut(guard),
        }
    }

    /// Reads the resource value under the shared borrow witnessed by
    /// `guard`.
    pub fn read(&self, guard: &Ref) -> (r: &V)
        requires
            self.inv(),
            self.contains(guard.key()),
            0 < self.lookup(guard.key()).flag < u32::MAX,
        ensures
            *r == self.lookup(guard.key()).value,
    {
        match self {
            ResourcesEnum::Owned(o) => o.read(guard),
            ResourcesEnum::Ref(r) => r.read(guard),
        }
    }

    /// Reads the resource value under the exclusive borrow witnessed by
    /// `guard`.
    pub fn read_mut(&self, guard: &RefMut) -> (r: &V)
        requires
            self.inv(),
            self.contains(guard.key()),
            self.lookup(guard.key()).exclusively_borrowed(),
        ensures
            *r == self.lookup(guard.key()).value,
    {
        match self {
            ResourcesEnum::Owned(o) => o.read_mut(guard),
            ResourcesEnum::Ref(r) => r.read_mut(guard),
        }
    }

    /// Overwrites the resource value under the exclusive borrow witnessed
    /// by `guard`.
    pub fn write(&mut self, guard: &RefMut, value: V)
        requires
            old(self).inv(),
            old(self).contains(guard.key()),
            old(self).lookup(guard.key()).exclusively_borrowed(),
        ensures
            final(self).inv(),
            final(self).is_owned() <==> old(self).is_owned(),
            old(self).alias_map().contains_key(guard.key()) ==> final(self).alias_map()
                == with_value(old(self).alias_map(), guard.key(), value) && final(self).base_map()
                == old(self).base_map(),
            !old(self).alias_map().contains_key(guard.key()) ==> final(self).base_map()
                == with_value(old(self).base_map(), guard.key(), value) && final(self).alias_map()
                == old(self).alias_map(),
    {
        match self {
            ResourcesEnum::Owned(o) => o.write(guard, value),
            ResourcesEnum::Ref(r) => r.write(guard, value),
        }
    }
}

/// The map after `n` further shared borrows of `key` are acquired.
pub open spec fn with_n_shared_acquired<V>(
    m: Map<u64, ResourceState<V>>,
    key: u64,
    n: nat,
) -> Map<u64, ResourceState<V>>
    decreases n,
{
    if n == 0 {
        m
    } else {
        with_shared_acquired(with_n_shared_acquired(m, key, (n - 1) as nat), key)
    }
}

/// The map after `n` shared borrows of `key` are released.
pub open spec fn with_n_shared_released<V>(
    m: Map<u64, ResourceState<V>>,
    key: u64,
    n: nat,
) -> Map<u64, ResourceState<V>>
    decreases n,
{
    if n == 0 {
        m
    } else {
        with_shared_released(with_n_shared_released(m, key, (n - 1) as nat), key)
    }
}

/// Insert-then-get round-trip: inserting a value under a type-key leaves
/// an unborrowed entry holding exactly that value, so a following borrow
/// of either kind succeeds, and reading under an acquired shared borrow
/// yields the inserted value.
pub proof fn lemma_insert_get_round_trip<V>(m: Map<u64, ResourceState<V>>, key: u64, value: V)
    ensures
        with_inserted(m, key, value).contains_key(key),
        with_inserted(m, key, value)[key].value == value,
        with_inserted(m, key, value)[key].can_borrow(),
        with_inserted(m, key, value)[key].can_borrow_mut(),
        with_shared_acquired(with_inserted(m, key, value), key)[key].value == value,
{
}

/// Borrow exclusivity for one type-key: any number of shared borrows may
/// coexist, and while any of them is outstanding the exclusive borrow
/// cannot be acquired; while the exclusive borrow is outstanding no shared
/// borrow can be acquired.
pub proof fn lemma_key_borrow_exclusivity<V>(m: Map<u64, ResourceState<V>>, key: u64, n: nat)
    requires
        m.contains_key(key),
        m[key].flag + n < u32::MAX,
    ensures
        with_n_shared_acquired(m, key, n).contains_key(key),
        with_n_shared_acquired(m, key, n)[key].flag == m[key].flag + n,
        with_n_shared_acquired(m, key, n)[key].value == m[key].value,
        with_n_shared_acquired(m, key, n)[key].can_borrow(),
        n > 0 ==> !with_n_shared_acquired(m, key, n)[key].can_borrow_mut(),
        m[key].exclusively_borrowed() ==> !m[key].can_borrow(),
    decreases n,
{
    if n > 0 {
        lemma_key_borrow_exclusivity(m, key, (n - 1) as nat);
    }
}

/// Release restores availability: once every one of the `n` outstanding
/// shared borrows of a type-key is released, the entry's flag is clear
/// again, so an exclusive borrow of that type-key succeeds.
pub proof fn lemma_release_restores_availability<V>(m: Map<u64, ResourceState<V>>, key: u64)
    requires
        m.contains_key(key),
        m[key].flag < u32::MAX,
    ensures
        with_n_shared_released(m, key, m[key].flag as nat).contains_key(key),
        with_n_shared_released(m, key, m[key].flag as nat)[key].value == m[key].value,
        with_n_shared_released(m, key, m[key].flag as nat)[key].can_borrow_mut(),
    decreases m[key].flag,
{
    let n = m[key].flag as nat;
    if n > 0 {
        assert(with_n_shared_released(m, key, n) == with_shared_released(
            with_n_shared_released(m, key, (n - 1) as nat),
            key,
        ));
        lemma_release_unwind(m, key, (n - 1) as nat);
    }
}

/// After `k` of the outstanding shared borrows are released, the entry
/// still holds the same value and its flag has dropped by `k`.
proof fn lemma_release_unwind<V>(m: Map<u64, ResourceState<V>>, key: u64, k: nat)
    requires
        m.contains_key(key),
        m[key].flag < u32::MAX,
        k <= m[key].flag,
    ensures
        with_n_shared_released(m, key, k).contains_key(key),
        with_n_shared_released(m, key, k)[key].flag == m[key].flag - k,
        with_n_shared_released(m, key, k)[key].value == m[key].value,
    decreases k,
{
    if k > 0 {
        lemma_release_unwind(m, key, (k - 1) as nat);
    }
}

} // verus!
