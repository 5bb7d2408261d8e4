//! Frozen storage: a perfect-hash index over the services of a scope.
//!
//! Once a container is locked its registrations no longer change, and a
//! minimal perfect hash function (MPHF, from the `boomphf` crate) over the
//! registered keys maps each key to its own slot in `0..n` without
//! collisions. [`FrozenStorage`] is the table behind such a function: slot
//! `j` holds the key hashed to `j` and the position of its registration in
//! the scope.
//!
//! What the hash function gives a key is named [`mphf_slot`]. The table
//! checks everything the hash function tells it: construction succeeds
//! exactly when the slots it gives the scope's keys are a permutation of
//! `0..n`, and a lookup only returns a registration made under exactly the
//! key asked for, so a wrong slot can only produce a miss, never another
//! service. A table that is built finds every registered key in its hashed
//! slot, and a chain of tables built by [`freeze_chain`] resolves every key
//! as the container does. The `*_at` functions take the slot as an argument
//! and state their result exactly for every slot.

use crate::container::{Container, ScopeId};
use crate::storage::Factory;
use crate::typeid::same_key;
use boomphf::Mphf;
use std::any::TypeId;
use vstd::prelude::*;
use vstd::set_lib::{lemma_int_range, lemma_subset_equality, set_int_range};

verus! {

#[verifier::external_type_specification]
#[verifier::external_body]
#[verifier::reject_recursive_types(T)]
pub struct ExMphf<T>(boomphf::Mphf<T>);

/// The slot that the perfect hash function `mphf` gives `key`, as
/// `boomphf::Mphf::try_hash` computes it. It depends on the hash function and
/// the key alone: boomphf hashes the key with fixed seeds and reads the
/// function's bit vectors.
pub uninterp spec fn mphf_slot(mphf: Mphf<TypeId>, key: TypeId) -> Option<u64>;

/// The slot that the perfect hash function `mphf` gives `key`.
///
/// Calls `boomphf::Mphf::try_hash`, which does not panic; its result is named
/// [`mphf_slot`]. For a key of the set the function was built from, boomphf
/// returns that key's own slot in `0..n`; for any other key it returns `None`
/// or an arbitrary value. Which keys `mphf` was built from is not visible to
/// Verus (the type is opaque), so nothing more is stated, and every caller
/// checks the slot it gets against its own table.
#[verifier::external_body]
fn hashed_slot(mphf: &Mphf<TypeId>, key: &TypeId) -> (r: Option<u64>)
    ensures
        r == mphf_slot(*mphf, *key),
{
    mphf.try_hash(key)
}

/// Whether `mphf` gives every key of `keys` a slot, and those slots form a
/// permutation of `0..n`: it is a perfect hash function for exactly these
/// keys.
pub open spec fn hashes_perfectly(mphf: Mphf<TypeId>, keys: Seq<TypeId>) -> bool {
    &&& forall|i: int| 0 <= i < keys.len() ==> (#[trigger] mphf_slot(mphf, keys[i])) is Some
    &&& is_permutation(keys.map_values(|k: TypeId| mphf_slot(mphf, k).unwrap()), keys.len() as int)
}

/// Whether `slots` maps positions `0..n` one-to-one onto slots `0..n`.
pub open spec fn is_permutation(slots: Seq<u64>, n: int) -> bool {
    &&& slots.len() == n
    &&& forall|i: int| 0 <= i < n ==> slots[i] < n
    &&& slots.no_duplicates()
}

/// A one-to-one map from `0..n` into `0..n` reaches every slot: no slot of a
/// frozen table is left empty.
pub proof fn lemma_permutation_is_onto(slots: Seq<u64>, n: int)
    requires
        is_permutation(slots, n),
    ensures
        forall|j: u64| j < n ==> #[trigger] slots.contains(j),
{
    let ints = slots.map_values(|x: u64| x as int);
    assert(ints.no_duplicates()) by {
        assert forall|a: int, b: int| 0 <= a < ints.len() && 0 <= b < ints.len() && a != b implies ints[a]
            != ints[b] by {
            assert(slots[a] != slots[b]);
        }
    }
    ints.unique_seq_to_set();
    lemma_int_range(0, n);
    let range = set_int_range(0, n);
    assert(ints.to_set().subset_of(range));
    lemma_subset_equality(ints.to_set(), range);
    assert forall|j: u64| j < n implies #[trigger] slots.contains(j) by {
        assert(range.contains(j as int));
        assert(ints.to_set().contains(j as int));
        let i = choose|i: int| 0 <= i < ints.len() && ints[i] == j as int;
        assert(slots[i] == j);
    }
}

/// A perfect-hash index over the local services of one scope, and of its
/// ancestors through `parent`.
pub struct FrozenStorage {
    mphf: Mphf<TypeId>,
    scope: ScopeId,
    slot_keys: Vec<TypeId>,
    slot_positions: Vec<usize>,
    parent: Option<Box<FrozenStorage>>,
}

impl FrozenStorage {
    /// The scope this table indexes.
    pub closed spec fn scope_id(self) -> int {
        self.scope as int
    }

    /// The perfect hash function the table was built around.
    pub closed spec fn hash_fn(self) -> Mphf<TypeId> {
        self.mphf
    }

    /// The slot the table's hash function gives `key`.
    pub open spec fn hashed(self, key: TypeId) -> Option<u64> {
        mphf_slot(self.hash_fn(), key)
    }

    /// The key in each slot.
    pub closed spec fn keys_by_slot(self) -> Seq<TypeId> {
        self.slot_keys@
    }

    /// The position (in the scope's storage order) of the registration in
    /// each slot.
    pub closed spec fn positions_by_slot(self) -> Seq<usize> {
        self.slot_positions@
    }

    /// The table of the parent scope, if attached.
    pub closed spec fn parent_table(self) -> Option<FrozenStorage> {
        match self.parent {
            Some(p) => Some(*p),
            None => None,
        }
    }

    /// One position per slot.
    pub closed spec fn wf(self) -> bool {
        self.slot_keys@.len() == self.slot_positions@.len()
    }

    /// The table describes scope `scope_id` of `c` as it is now: every slot
    /// points at the registration of its key.
    pub open spec fn indexes<S, F>(self, c: Container<S, F>) -> bool {
        &&& c.wf()
        &&& self.wf()
        &&& c.valid_scope(self.scope_id())
        &&& self.keys_by_slot().len() == c.local_keys(self.scope_id()).len()
        &&& forall|j: int|
            0 <= j < self.keys_by_slot().len() ==> {
                &&& (#[trigger] self.positions_by_slot()[j]) < c.local_keys(self.scope_id()).len()
                &&& c.local_keys(self.scope_id())[self.positions_by_slot()[j] as int]
                    == self.keys_by_slot()[j]
            }
    }

    /// What a lookup of `key` in slot `slot` finds in `c`: the registration
    /// of `key` in the indexed scope, when the slot holds `key` and points at
    /// its registration.
    pub open spec fn lookup<S, F>(self, c: Container<S, F>, slot: Option<u64>, key: TypeId) -> Option<
        Factory<S, F>,
    > {
        match slot {
            Some(j) => {
                let s = self.scope_id();
                if j < self.keys_by_slot().len() && self.keys_by_slot()[j as int] == key
                    && c.valid_scope(s) && self.positions_by_slot()[j as int] < c.local_keys(s).len()
                    && c.local_keys(s)[self.positions_by_slot()[j as int] as int] == key {
                    Some(c.local(s)[key])
                } else {
                    None
                }
            },
            None => None,
        }
    }

    /// What a lookup through the chain of tables finds: the first table
    /// (this one, then its parent, ...) whose lookup hits. `slots[i]` is the
    /// slot of `key` in the `i`-th table of the chain.
    pub closed spec fn chain_lookup<S, F>(
        self,
        c: Container<S, F>,
        slots: Seq<Option<u64>>,
        key: TypeId,
    ) -> Option<Factory<S, F>>
        decreases self,
    {
        let here = if slots.len() > 0 {
            self.lookup(c, slots[0], key)
        } else {
            None
        };
        if here is Some {
            here
        } else {
            match self.parent {
                Some(p) => if slots.len() > 0 {
                    (*p).chain_lookup(c, slots.drop_first(), key)
                } else {
                    (*p).chain_lookup(c, slots, key)
                },
                None => None,
            }
        }
    }

    /// Build the table of scope `scope` around the perfect hash function
    /// `mphf`, where `slots[i]` is the slot that `mphf` gives the key at
    /// position `i` of the scope's storage order. Fails unless the slots are
    /// a permutation of `0..n`.
    pub fn from_slots<S, F>(
        c: &Container<S, F>,
        scope: ScopeId,
        mphf: Mphf<TypeId>,
        slots: &Vec<u64>,
    ) -> (r: Option<Self>)
        requires
            c.wf(),
            c.valid_scope(scope as int),
        ensures
            r is Some <==> is_permutation(slots@, c.local_keys(scope as int).len() as int),
            r matches Some(f) ==> {
                &&& f.indexes(*c)
                &&& f.chain_wf()
                &&& f.scope_id() == scope
                &&& f.hash_fn() == mphf
                &&& f.parent_table() is None
                &&& forall|i: int|
                    0 <= i < slots@.len() ==> f.keys_by_slot()[#[trigger] slots@[i] as int]
                        == c.local_keys(scope as int)[i] && f.positions_by_slot()[slots@[i] as int]
                        == i
                &&& forall|j: int|
                    0 <= j < f.keys_by_slot().len() ==> slots@[#[trigger] f.positions_by_slot()[j] as int]
                        == j
            },
    {
        let n = c.len(scope);
        proof {
            c.lemma_local_keys(scope as int);
        }
        if slots.len() != n {
            return None;
        }
        // Check that the slots are in range and distinct.
        let mut seen: Vec<bool> = Vec::new();
        let mut k: usize = 0;
        while k < n
            invariant
                k <= n,
                seen@.len() == k,
                forall|j: int| 0 <= j < k ==> !seen@[j],
            decreases n - k,
        {
            seen.push(false);
            k = k + 1;
        }
        let mut i: usize = 0;
        while i < n
            invariant
                n == slots@.len(),
                seen@.len() == n,
                i <= n,
                forall|a: int| 0 <= a < i ==> slots@[a] < n,
                forall|a: int, b: int| 0 <= a < i && 0 <= b < i && a != b ==> slots@[a] != slots@[b],
                forall|j: int| 0 <= j < n ==> (seen@[j] <==> exists|a: int| 0 <= a < i && slots@[a] == j),
            decreases n - i,
        {
            let j = slots[i];
            if j >= n as u64 {
                return None;
            }
            let ju = j as usize;
            if seen[ju] {
                proof {
                    let a = choose|a: int| 0 <= a < i && slots@[a] == ju;
                    assert(slots@[a] == slots@[i as int]);
                }
                return None;
            }
            seen.set(ju, true);
            proof {
                assert forall|jj: int| 0 <= jj < n implies (seen@[jj] <==> exists|a: int|
                    0 <= a < i + 1 && slots@[a] == jj) by {
                    if jj == ju as int {
                        assert(slots@[i as int] == jj);
                    }
                }
            }
            i = i + 1;
        }
        proof {
            assert(is_permutation(slots@, n as int));
            lemma_permutation_is_onto(slots@, n as int);
        }
        if n == 0 {
            let f = FrozenStorage {
                mphf,
                scope,
                slot_keys: Vec::new(),
                slot_positions: Vec::new(),
                parent: None,
            };
            return Some(f);
        }
        // Fill the slots; every slot is written once, by the key hashed to it.
        let filler = c.key_at(scope, 0);
        let mut slot_keys: Vec<TypeId> = Vec::new();
        let mut slot_positions: Vec<usize> = Vec::new();
        let mut k: usize = 0;
        while k < n
            invariant
                k <= n,
                slot_keys@.len() == k,
                slot_positions@.len() == k,
                forall|j: int| 0 <= j < k ==> slot_positions@[j] == 0 && slot_keys@[j] == filler,
            decreases n - k,
        {
            slot_keys.push(filler);
            slot_positions.push(0);
            k = k + 1;
        }
        let mut i: usize = 0;
        while i < n
            invariant
                c.wf(),
                c.valid_scope(scope as int),
                n == c.local_keys(scope as int).len(),
                is_permutation(slots@, n as int),
                i <= n,
                slot_keys@.len() == n,
                slot_positions@.len() == n,
                filler == c.local_keys(scope as int)[0],
                forall|a: int|
                    0 <= a < i ==> slot_keys@[#[trigger] slots@[a] as int] == c.local_keys(
                        scope as int,
                    )[a] && slot_positions@[slots@[a] as int] == a,
                forall|j: int|
                    0 <= j < n ==> (#[trigger] slot_positions@[j]) < n && slot_keys@[j] == c.local_keys(
                        scope as int,
                    )[slot_positions@[j] as int],
            decreases n - i,
        {
            let j = slots[i] as usize;
            let key = c.key_at(scope, i);
            slot_keys.set(j, key);
            slot_positions.set(j, i);
            proof {
                assert forall|a: int| 0 <= a < i + 1 implies slot_keys@[#[trigger] slots@[a] as int]
                    == c.local_keys(scope as int)[a] && slot_positions@[slots@[a] as int] == a by {
                    if a < i {
                        assert(slots@[a] != slots@[i as int]);
                    }
                }
            }
            i = i + 1;
        }
        let f = FrozenStorage { mphf, scope, slot_keys, slot_positions, parent: None };
        proof {
            assert forall|j: int| 0 <= j < f.keys_by_slot().len() implies slots@[
                #[trigger] f.positions_by_slot()[j] as int] == j by {
                assert(slots@.contains(j as u64));
                let a = choose|a: int| 0 <= a < slots@.len() && slots@[a] == j as u64;
                assert(f.positions_by_slot()[slots@[a] as int] == a);
            }
        }
        Some(f)
    }

    /// Build the table of scope `scope` around the perfect hash function
    /// `mphf`, built from the scope's keys: the slot of each key is asked of
    /// `mphf`. It succeeds exactly when `mphf` gives every key a slot and
    /// those slots are a permutation of `0..n`; the table then indexes the
    /// scope exactly and finds every registered key in its hashed slot.
    pub fn from_storage<S, F>(c: &Container<S, F>, scope: ScopeId, mphf: Mphf<TypeId>) -> (r: Option<
        Self,
    >)
        requires
            c.wf(),
            c.valid_scope(scope as int),
        ensures
            r is Some <==> hashes_perfectly(mphf, c.local_keys(scope as int)),
            r matches Some(f) ==> {
                &&& f.indexes(*c)
                &&& f.chain_wf()
                &&& f.scope_id() == scope
                &&& f.hash_fn() == mphf
                &&& f.parent_table() is None
                &&& f.keys_by_slot().len() == c.local(scope as int).len()
                &&& forall|k: TypeId| #[trigger]
                    c.local(scope as int).contains_key(k) ==> f.keys_by_slot().contains(k)
                &&& forall|k: TypeId|
                    c.local(scope as int).contains_key(k) ==> #[trigger] f.lookup(*c, f.hashed(k), k)
                        == Some(c.local(scope as int)[k])
            },
            c.local(scope as int).len() == 0 ==> r is Some,
    {
        let n = c.len(scope);
        proof {
            c.lemma_local_keys(scope as int);
        }
        let ghost keys = c.local_keys(scope as int);
        let mut slots: Vec<u64> = Vec::with_capacity(n);
        let mut i: usize = 0;
        while i < n
            invariant
                c.wf(),
                c.valid_scope(scope as int),
                keys == c.local_keys(scope as int),
                n == keys.len(),
                n == c.local(scope as int).len(),
                i <= n,
                slots@.len() == i,
                forall|j: int| 0 <= j < i ==> (#[trigger] mphf_slot(mphf, keys[j])) is Some,
                forall|j: int| 0 <= j < i ==> slots@[j] == (#[trigger] mphf_slot(mphf, keys[j])).unwrap(),
            decreases n - i,
        {
            let key = c.key_at(scope, i);
            match hashed_slot(&mphf, &key) {
                Some(j) => slots.push(j),
                None => {
                    assert(!hashes_perfectly(mphf, keys)) by {
                        assert(mphf_slot(mphf, keys[i as int]) is None);
                    }
                    return None;
                },
            }
            i = i + 1;
        }
        let ghost hs = keys.map_values(|k: TypeId| mphf_slot(mphf, k).unwrap());
        assert(slots@ =~= hs) by {
            assert forall|j: int| 0 <= j < n implies slots@[j] == hs[j] by {
                assert(mphf_slot(mphf, keys[j]) is Some);
            }
        }
        let ghost m = mphf;
        let r = Self::from_slots(c, scope, mphf, &slots);
        proof {
            if r is Some {
                let f = r.unwrap();
                assert forall|k: TypeId| #[trigger]
                    c.local(scope as int).contains_key(k) implies f.keys_by_slot().contains(k) by {
                    assert(keys.to_set().contains(k));
                    let a = choose|a: int| 0 <= a < keys.len() && keys[a] == k;
                    assert(f.keys_by_slot()[slots@[a] as int] == k);
                }
                assert forall|k: TypeId| c.local(scope as int).contains_key(k) implies #[trigger] f.lookup(
                    *c,
                    f.hashed(k),
                    k,
                ) == Some(c.local(scope as int)[k]) by {
                    assert(keys.to_set().contains(k));
                    let a = choose|a: int| 0 <= a < keys.len() && keys[a] == k;
                    assert(mphf_slot(m, keys[a]) is Some);
                    assert(slots@[a] == hs[a]);
                    assert(f.hashed(k) == Some(slots@[a]));
                    assert(f.keys_by_slot()[slots@[a] as int] == k);
                    assert(f.positions_by_slot()[slots@[a] as int] == a);
                }
            }
        }
        r
    }

    /// This table with `parent` attached as the table of its parent scope.
    pub fn with_parent(self, parent: FrozenStorage) -> (r: Self)
        ensures
            r.scope_id() == self.scope_id(),
            r.keys_by_slot() == self.keys_by_slot(),
            r.positions_by_slot() == self.positions_by_slot(),
            r.parent_table() == Some(parent),
            r.hash_fn() == self.hash_fn(),
            r.wf() == self.wf(),
            self.wf() && parent.chain_wf() ==> r.chain_wf(),
    {
        FrozenStorage { parent: Some(Box::new(parent)), ..self }
    }

    /// The scope this table indexes.
    pub fn scope(&self) -> (r: ScopeId)
        ensures
            r == self.scope_id(),
    {
        self.scope
    }

    /// The registration of `key` in the indexed scope, found through the
    /// slot the perfect hash function gives `key`. A hit is always the
    /// scope's registration of `key`; a key registered in no scope of `c`
    /// under this table is never found.
    pub fn resolve<'a, S, F>(&self, c: &'a Container<S, F>, key: &TypeId) -> (r: Option<
        &'a Factory<S, F>,
    >)
        requires
            c.wf(),
            self.wf(),
        ensures
            r matches Some(f) ==> self.lookup(*c, self.hashed(*key), *key) == Some(*f),
            r is None <==> self.lookup(*c, self.hashed(*key), *key) is None,
            r matches Some(f) ==> {
                &&& c.valid_scope(self.scope_id())
                &&& c.local(self.scope_id()).contains_key(*key)
                &&& *f == c.local(self.scope_id())[*key]
            },
    {
        let slot = hashed_slot(&self.mphf, key);
        let r = self.resolve_at(c, slot, key);
        proof {
            if r is Some {
                law_frozen_lookup_sound(*self, *c, slot, *key);
            }
        }
        r
    }

    /// Whether the table holds `key`, in the slot the perfect hash function
    /// gives it.
    pub fn contains(&self, key: &TypeId) -> (r: bool)
        requires
            self.wf(),
        ensures
            r == (self.hashed(*key) matches Some(j) && j < self.keys_by_slot().len()
                && self.keys_by_slot()[j as int] == *key),
            r ==> self.keys_by_slot().contains(*key),
    {
        let slot = hashed_slot(&self.mphf, key);
        let r = self.contains_at(slot, key);
        proof {
            if r {
                let j = slot.unwrap();
                assert(self.keys_by_slot()[j as int] == *key);
            }
        }
        r
    }

    /// Whether the registration of `key` found through its hashed slot is
    /// transient.
    pub fn is_transient<S, F>(&self, c: &Container<S, F>, key: &TypeId) -> (r: bool)
        requires
            c.wf(),
            self.wf(),
        ensures
            r == (self.lookup(*c, self.hashed(*key), *key) matches Some(f) && f is Transient),
            r ==> {
                &&& c.valid_scope(self.scope_id())
                &&& c.local(self.scope_id()).contains_key(*key)
                &&& c.local(self.scope_id())[*key] is Transient
            },
    {
        match self.resolve(c, key) {
            Some(f) => f.is_transient(),
            None => false,
        }
    }

    /// The registration of `key` found through slot `slot` (the slot the
    /// perfect hash function gives `key`; `None` if it gives none).
    pub fn resolve_at<'a, S, F>(&self, c: &'a Container<S, F>, slot: Option<u64>, key: &TypeId) -> (r:
        Option<&'a Factory<S, F>>)
        requires
            c.wf(),
            self.wf(),
        ensures
            r matches Some(f) ==> self.lookup(*c, slot, *key) == Some(*f),
            r is None <==> self.lookup(*c, slot, *key) is None,
    {
        match slot {
            None => None,
            Some(j) => {
                if j >= self.slot_keys.len() as u64 {
                    return None;
                }
                let ju = j as usize;
                if !same_key(&self.slot_keys[ju], key) {
                    return None;
                }
                if self.scope >= c.scope_len() {
                    return None;
                }
                let p = self.slot_positions[ju];
                proof {
                    c.lemma_local_keys(self.scope as int);
                }
                if p >= c.len(self.scope) {
                    return None;
                }
                let k = c.key_at(self.scope, p);
                if !same_key(&k, key) {
                    return None;
                }
                Some(c.factory_at(self.scope, p))
            },
        }
    }

    /// Whether slot `slot` holds `key`.
    pub fn contains_at(&self, slot: Option<u64>, key: &TypeId) -> (r: bool)
        requires
            self.wf(),
        ensures
            r == (slot matches Some(j) && j < self.keys_by_slot().len() && self.keys_by_slot()[j as int]
                == *key),
    {
        match slot {
            None => false,
            Some(j) => {
                if j >= self.slot_keys.len() as u64 {
                    false
                } else {
                    same_key(&self.slot_keys[j as usize], key)
                }
            },
        }
    }

    /// Whether the registration found through `slot` is transient.
    pub fn is_transient_at<S, F>(&self, c: &Container<S, F>, slot: Option<u64>, key: &TypeId) -> (r: bool)
        requires
            c.wf(),
            self.wf(),
        ensures
            r == (self.lookup(*c, slot, *key) matches Some(f) && f is Transient),
    {
        match self.resolve_at(c, slot, key) {
            Some(f) => f.is_transient(),
            None => false,
        }
    }

    /// Number of services in the table.
    pub fn len(&self) -> (r: usize)
        ensures
            r == self.keys_by_slot().len(),
    {
        self.slot_keys.len()
    }

    /// Whether the table is empty.
    pub fn is_empty(&self) -> (r: bool)
        ensures
            r == (self.keys_by_slot().len() == 0),
    {
        self.slot_keys.len() == 0
    }

    /// The registration of `key` found through the chain of tables: this
    /// table first, then its parent's, and so on. `slots[i]` is the slot of
    /// `key` in the `i`-th table of the chain (missing entries mean no slot).
    pub fn resolve_from_chain_at<'a, S, F>(
        &self,
        c: &'a Container<S, F>,
        slots: &[Option<u64>],
        key: &TypeId,
    ) -> (r: Option<&'a Factory<S, F>>)
        requires
            c.wf(),
            self.chain_wf(),
        ensures
            r matches Some(f) ==> self.chain_lookup(*c, slots@, *key) == Some(*f),
            r is None <==> self.chain_lookup(*c, slots@, *key) is None,
    {
        assert(slots@.subrange(0, slots@.len() as int) =~= slots@);
        self.resolve_chain_from(c, slots, 0, key)
    }

    /// Whether the chain of tables holds `key` in the slot given for each
    /// level.
    pub fn contains_in_chain_at<S, F>(
        &self,
        c: &Container<S, F>,
        slots: &[Option<u64>],
        key: &TypeId,
    ) -> (r: bool)
        requires
            c.wf(),
            self.chain_wf(),
        ensures
            r == self.chain_lookup(*c, slots@, *key) is Some,
    {
        self.resolve_from_chain_at(c, slots, key).is_some()
    }

    /// Whether some table of the chain (this one, then its parent's, and so
    /// on) indexes a scope of `c` whose registration of `key` is `f`.
    pub closed spec fn chain_finds<S, F>(self, c: Container<S, F>, key: TypeId, f: Factory<S, F>) -> bool
        decreases self,
    {
        ||| {
            &&& c.valid_scope(self.scope_id())
            &&& c.local(self.scope_id()).contains_key(key)
            &&& c.local(self.scope_id())[key] == f
        }
        ||| match self.parent {
            Some(p) => (*p).chain_finds(c, key, f),
            None => false,
        }
    }

    /// Whether some table of the chain holds `key` in one of its slots.
    pub closed spec fn chain_holds(self, key: TypeId) -> bool
        decreases self,
    {
        ||| self.keys_by_slot().contains(key)
        ||| match self.parent {
            Some(p) => (*p).chain_holds(key),
            None => false,
        }
    }

    /// The slots the tables of the chain give `key`, each by its own hash
    /// function: this table's first, then its parent's, and so on.
    pub open spec fn hashed_slots(self, key: TypeId) -> Seq<Option<u64>>
        decreases self,
    {
        seq![self.hashed(key)] + match self.parent_table() {
            Some(p) => p.hashed_slots(key),
            None => Seq::empty(),
        }
    }

    /// Whether some table of the chain holds `key` in the slot its own hash
    /// function gives `key`.
    pub open spec fn chain_holds_hashed(self, key: TypeId) -> bool
        decreases self,
    {
        ||| (self.hashed(key) matches Some(j) && j < self.keys_by_slot().len()
            && self.keys_by_slot()[j as int] == key)
        ||| match self.parent_table() {
            Some(p) => p.chain_holds_hashed(key),
            None => false,
        }
    }

    /// Every table of the chain finds each key its scope registers in the
    /// slot its own hash function gives that key (as every table that
    /// [`FrozenStorage::from_storage`] builds does).
    pub open spec fn hashes_completely<S, F>(self, c: Container<S, F>) -> bool
        decreases self,
    {
        &&& forall|k: TypeId|
            c.local(self.scope_id()).contains_key(k) ==> (#[trigger] self.lookup(c, self.hashed(k), k)) is Some
        &&& match self.parent_table() {
            Some(p) => p.hashes_completely(c),
            None => true,
        }
    }

    /// A chain whose every table hashes completely gives the lookup of
    /// `key` slots under which each table finds it when its scope registers
    /// it.
    pub proof fn lemma_hashed_slots_find<S, F>(self, c: Container<S, F>, key: TypeId)
        requires
            self.hashes_completely(c),
        ensures
            self.slots_find(c, self.hashed_slots(key), key),
        decreases self,
    {
        let slots = self.hashed_slots(key);
        assert(slots[0] == self.hashed(key));
        if c.local(self.scope_id()).contains_key(key) {
            assert(self.lookup(c, self.hashed(key), key) is Some);
        }
        match self.parent_table() {
            Some(p) => {
                assert(slots.drop_first() =~= p.hashed_slots(key));
                p.lemma_hashed_slots_find(c, key);
            },
            None => {},
        }
    }

    /// The registration of `key` found through the chain of tables: this
    /// table first, then its parent's, and so on, each asked through the
    /// slot its own perfect hash function gives `key`. When the tables
    /// follow the scope chain and each hashes completely, this is the
    /// registration that resolving `key` from the first table's scope finds.
    pub fn resolve_from_chain<'a, S, F>(&self, c: &'a Container<S, F>, key: &TypeId) -> (r: Option<
        &'a Factory<S, F>,
    >)
        requires
            c.wf(),
            self.chain_wf(),
        ensures
            r matches Some(f) ==> self.chain_lookup(*c, self.hashed_slots(*key), *key) == Some(*f),
            r is None <==> self.chain_lookup(*c, self.hashed_slots(*key), *key) is None,
            r matches Some(f) ==> self.chain_finds(*c, *key, *f),
            self.follows_chain(*c, self.scope_id()) && self.hashes_completely(*c) ==> {
                &&& r matches Some(f) ==> c.resolution(self.scope_id(), *key) matches Some((_, g)) && g
                    == *f
                &&& r is None <==> c.resolution(self.scope_id(), *key) is None
            },
        decreases self,
    {
        let ghost slots = self.hashed_slots(*key);
        assert(slots[0] == self.hashed(*key));
        let r = match self.resolve(c, key) {
            Some(f) => Some(f),
            None => match &self.parent {
                Some(p) => {
                    assert(slots.drop_first() =~= p.hashed_slots(*key));
                    p.resolve_from_chain(c, key)
                },
                None => None,
            },
        };
        proof {
            if self.follows_chain(*c, self.scope_id()) && self.hashes_completely(*c) {
                self.lemma_hashed_slots_find(*c, *key);
                law_frozen_chain_resolves_like_container(*self, *c, self.scope_id(), slots, *key);
            }
        }
        r
    }

    /// Whether some table of the chain holds `key` in the slot its perfect
    /// hash function gives it.
    pub fn contains_in_chain(&self, key: &TypeId) -> (r: bool)
        requires
            self.chain_wf(),
        ensures
            r == self.chain_holds_hashed(*key),
            r ==> self.chain_holds(*key),
        decreases self,
    {
        if self.contains(key) {
            return true;
        }
        match &self.parent {
            Some(p) => p.contains_in_chain(key),
            None => false,
        }
    }

    /// The chain of tables indexes scope `s` of `c`, then (through
    /// `parent`) each ancestor of `s` in turn, up to the root.
    pub open spec fn follows_chain<S, F>(self, c: Container<S, F>, s: int) -> bool
        decreases self,
    {
        &&& self.scope_id() == s
        &&& self.indexes(c)
        &&& match self.parent_table() {
            Some(p) => c.parent_of(s) matches Some(ps) && p.follows_chain(c, ps),
            None => c.parent_of(s) is None,
        }
    }

    /// `slots` gives every table of the chain a slot, and the slot under
    /// which the table finds `key` whenever its scope registers `key` (as
    /// the perfect hash function of each table does for the keys it was
    /// built from).
    pub open spec fn slots_find<S, F>(self, c: Container<S, F>, slots: Seq<Option<u64>>, key: TypeId) -> bool
        decreases self,
    {
        &&& slots.len() > 0
        &&& (c.local(self.scope_id()).contains_key(key) ==> self.lookup(c, slots[0], key) is Some)
        &&& match self.parent_table() {
            Some(p) => p.slots_find(c, slots.drop_first(), key),
            None => true,
        }
    }

    /// Every table of the chain has one position per slot.
    pub closed spec fn chain_wf(self) -> bool
        decreases self,
    {
        &&& self.wf()
        &&& match self.parent {
            Some(p) => (*p).chain_wf(),
            None => true,
        }
    }

    fn resolve_chain_from<'a, S, F>(
        &self,
        c: &'a Container<S, F>,
        slots: &[Option<u64>],
        level: usize,
        key: &TypeId,
    ) -> (r: Option<&'a Factory<S, F>>)
        requires
            c.wf(),
            self.chain_wf(),
            level <= slots@.len(),
        ensures
            r matches Some(f) ==> self.chain_lookup(*c, slots@.subrange(level as int, slots@.len() as int), *key)
                == Some(*f),
            r is None <==> self.chain_lookup(*c, slots@.subrange(level as int, slots@.len() as int), *key)
                is None,
        decreases self,
    {
        let ghost rest = slots@.subrange(level as int, slots@.len() as int);
        let here = if level < slots.len() {
            self.resolve_at(c, slots[level], key)
        } else {
            None
        };
        match here {
            Some(f) => Some(f),
            None => match &self.parent {
                Some(p) => {
                    if level < slots.len() {
                        proof {
                            assert(rest.drop_first() =~= slots@.subrange(level + 1, slots@.len() as int));
                        }
                        p.resolve_chain_from(c, slots, level + 1, key)
                    } else {
                        p.resolve_chain_from(c, slots, level, key)
                    }
                },
                None => None,
            },
        }
    }
}

/// Lock scope `scope` and build its frozen table around the perfect hash
/// function `mphf` (see [`FrozenStorage::from_storage`]): it succeeds
/// exactly when `mphf` hashes the scope's keys perfectly.
pub fn freeze<S, F>(c: &mut Container<S, F>, scope: ScopeId, mphf: Mphf<TypeId>) -> (r: Option<
    FrozenStorage,
>)
    requires
        old(c).wf(),
        old(c).valid_scope(scope as int),
    ensures
        final(c).wf(),
        final(c).locked(scope as int),
        final(c).scope_count() == old(c).scope_count(),
        forall|t: int| 0 <= t < old(c).scope_count() ==> #[trigger] final(c).local(t) == old(c).local(t),
        forall|t: int| 0 <= t < old(c).scope_count() ==> #[trigger] final(c).local_keys(t) == old(c).local_keys(t),
        r is Some <==> hashes_perfectly(mphf, old(c).local_keys(scope as int)),
        r matches Some(f) ==> f.indexes(*final(c)) && f.chain_wf() && f.scope_id() == scope,
        r matches Some(f) ==> f.hash_fn() == mphf && f.parent_table() is None,
        r matches Some(f) ==> forall|k: TypeId|
            final(c).local(scope as int).contains_key(k) ==> #[trigger] f.lookup(*final(c), f.hashed(k), k)
                == Some(final(c).local(scope as int)[k]),
{
    c.lock(scope);
    FrozenStorage::from_storage(c, scope, mphf)
}

/// Lock scope `scope` and build frozen tables for it and each of its
/// ancestors, chained child to parent, where `mphfs[i]` is the perfect hash
/// function for the `i`-th scope on the path from `scope` to the root. It
/// succeeds exactly when there is one hash function per scope of the path
/// and each hashes its scope's keys perfectly; the chain then resolves every
/// key as the container resolves it from `scope`.
pub fn freeze_chain<S, F>(c: &mut Container<S, F>, scope: ScopeId, mphfs: Vec<Mphf<TypeId>>) -> (r: Option<
    FrozenStorage,
>)
    requires
        old(c).wf(),
        old(c).valid_scope(scope as int),
    ensures
        final(c).wf(),
        final(c).locked(scope as int),
        final(c).scope_count() == old(c).scope_count(),
        forall|t: int| 0 <= t < old(c).scope_count() ==> #[trigger] final(c).local(t) == old(c).local(t),
        forall|t: int| 0 <= t < old(c).scope_count() ==> #[trigger] final(c).local_keys(t) == old(c).local_keys(t),
        forall|t: int| 0 <= t < old(c).scope_count() ==> #[trigger] final(c).parent_of(t) == old(c).parent_of(t),
        r is Some <==> {
            &&& mphfs@.len() == old(c).depth_of(scope as int) + 1
            &&& forall|i: int|
                0 <= i < mphfs@.len() ==> hashes_perfectly(
                    #[trigger] mphfs@[i],
                    old(c).local_keys(old(c).ancestor(scope as int, i as nat)),
                )
        },
        r matches Some(f) ==> {
            &&& f.follows_chain(*final(c), scope as int)
            &&& f.hashes_completely(*final(c))
            &&& f.chain_wf()
        },
{
    let ghost orig = mphfs@;
    let chain = c.scope_chain(scope);
    c.lock(scope);
    let n = chain.len();
    proof {
        assert(chain@.last() == chain@[n - 1]);
        assert forall|i: int| 0 <= i < n implies c.valid_scope(#[trigger] chain@[i] as int) by {
            assert(old(c).valid_scope(chain@[i] as int));
        }
        assert forall|i: int| 0 <= i < n - 1 implies c.parent_of(#[trigger] chain@[i] as int) == Some(
            chain@[i + 1] as int,
        ) by {
            assert(old(c).parent_of(chain@[i] as int) == Some(chain@[i + 1] as int));
        }
        assert(old(c).parent_of(chain@[n - 1] as int) is None);
    }
    if mphfs.len() != n {
        return None;
    }
    let mut pending = mphfs;
    let mut table: Option<FrozenStorage> = None;
    let mut idx: usize = n;
    while idx > 0
        invariant
            c.wf(),
            c.valid_scope(scope as int),
            c.scope_count() == old(c).scope_count(),
            c.locked(scope as int),
            forall|t: int| 0 <= t < old(c).scope_count() ==> #[trigger] c.local(t) == old(c).local(t),
            forall|t: int| 0 <= t < old(c).scope_count() ==> #[trigger] c.local_keys(t) == old(c).local_keys(t),
            forall|t: int| 0 <= t < old(c).scope_count() ==> #[trigger] c.parent_of(t) == old(c).parent_of(t),
            n == chain@.len(),
            n == old(c).depth_of(scope as int) + 1,
            n == orig.len(),
            idx <= n,
            pending@ == orig.take(idx as int),
            mphfs@ == orig,
            forall|i: int| 0 <= i < n ==> c.valid_scope(#[trigger] chain@[i] as int),
            forall|i: int| 0 <= i < n - 1 ==> c.parent_of(#[trigger] chain@[i] as int) == Some(chain@[i + 1] as int),
            c.parent_of(chain@[n - 1] as int) is None,
            forall|i: int| 0 <= i < n ==> #[trigger] chain@[i] as int == old(c).ancestor(scope as int, i as nat),
            forall|i: int|
                idx <= i < n ==> hashes_perfectly(
                    #[trigger] orig[i],
                    old(c).local_keys(old(c).ancestor(scope as int, i as nat)),
                ),
            idx == n ==> table is None,
            idx < n ==> (table matches Some(t) && t.follows_chain(*c, chain@[idx as int] as int)
                && t.hashes_completely(*c) && t.chain_wf()),
        decreases idx,
    {
        idx = idx - 1;
        let s = chain[idx];
        let mphf = pending.pop().unwrap();
        proof {
            assert(mphf == orig[idx as int]);
            assert(pending@ =~= orig.take(idx as int));
        }
        let built = FrozenStorage::from_storage(c, s, mphf);
        proof {
            assert(c.local_keys(s as int) == old(c).local_keys(s as int));
            assert(s as int == old(c).ancestor(scope as int, idx as nat));
        }
        let t = match built {
            Some(t) => t,
            None => {
                proof {
                    assert(!hashes_perfectly(orig[idx as int], old(c).local_keys(old(c).ancestor(scope as int, idx as nat))));
                }
                return None;
            },
        };
        let ghost t0 = t;
        table = Some(
            match table {
                Some(p) => t.with_parent(p),
                None => t,
            },
        );
        proof {
            let nt = table.unwrap();
            assert(nt.indexes(*c));
            assert forall|k: TypeId|
                c.local(nt.scope_id()).contains_key(k) implies (#[trigger] nt.lookup(*c, nt.hashed(k), k)) is Some by {
                assert(t0.lookup(*c, t0.hashed(k), k) == Some(c.local(s as int)[k]));
            }
        }
    }
    proof {
        assert(chain@[0] == scope);
        assert forall|i: int| 0 <= i < orig.len() implies hashes_perfectly(
            #[trigger] orig[i],
            old(c).local_keys(old(c).ancestor(scope as int, i as nat)),
        ) by {}
    }
    table
}

/// A frozen lookup never returns a registration made under another key, nor
/// one that is not in the indexed scope: whatever slot it is given, a hit is
/// exactly the scope's registration of the key asked for.
pub proof fn law_frozen_lookup_sound<S, F>(
    f: FrozenStorage,
    c: Container<S, F>,
    slot: Option<u64>,
    key: TypeId,
)
    requires
        c.wf(),
        f.lookup(c, slot, key) is Some,
    ensures
        c.local(f.scope_id()).contains_key(key),
        f.lookup(c, slot, key) == Some(c.local(f.scope_id())[key]),
{
    c.lemma_local_keys(f.scope_id());
    let j = slot.unwrap();
    let p = f.positions_by_slot()[j as int] as int;
    assert(c.local(f.scope_id()).contains_key(c.local_keys(f.scope_id())[p]));
}

/// A frozen table finds every registration of its scope through the slot
/// the perfect hash function gave its key at construction.
pub proof fn law_frozen_lookup_complete<S, F>(
    f: FrozenStorage,
    c: Container<S, F>,
    slots: Seq<u64>,
    i: int,
)
    requires
        f.indexes(c),
        is_permutation(slots, c.local_keys(f.scope_id()).len() as int),
        forall|a: int|
            0 <= a < slots.len() ==> f.keys_by_slot()[#[trigger] slots[a] as int] == c.local_keys(
                f.scope_id(),
            )[a] && f.positions_by_slot()[slots[a] as int] == a,
        0 <= i < slots.len(),
    ensures
        f.lookup(c, Some(slots[i]), c.local_keys(f.scope_id())[i]) == Some(
            c.local(f.scope_id())[c.local_keys(f.scope_id())[i]],
        ),
{
}

/// A frozen chain resolves like the container it was built from: when the
/// tables follow the scope chain of `s` and each is asked under the slot
/// its hash function gives a registered key, a lookup through the chain
/// finds exactly the registration that resolving `key` from `s` finds (the
/// nearest scope's), and nothing when the chain registers no `key`.
pub proof fn law_frozen_chain_resolves_like_container<S, F>(
    f: FrozenStorage,
    c: Container<S, F>,
    s: int,
    slots: Seq<Option<u64>>,
    key: TypeId,
)
    requires
        c.wf(),
        f.follows_chain(c, s),
        f.slots_find(c, slots, key),
    ensures
        f.chain_lookup(c, slots, key) == match c.resolution(s, key) {
            Some((_, g)) => Some(g),
            None => None,
        },
    decreases f,
{
    let here = f.lookup(c, slots[0], key);
    if here is Some {
        law_frozen_lookup_sound(f, c, slots[0], key);
    }
    c.lemma_depth_of_child(s);
    if !c.local(s).contains_key(key) {
        match f.parent_table() {
            Some(p) => {
                law_frozen_chain_resolves_like_container(p, c, c.parent_of(s).unwrap(), slots.drop_first(), key);
            },
            None => {},
        }
    }
}

} // verus!
