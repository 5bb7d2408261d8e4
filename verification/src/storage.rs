//! Storage of one scope: the factories registered in it, keyed by `TypeId`.
//!
//! A storage is a map from service key to [`Factory`]. It remembers the scope
//! it inherits from (its parent, as an index into the container's scopes) and
//! carries a generation stamp that changes on every mutation, so that cached
//! resolutions made before a mutation can be recognised as stale.

use crate::typeid::same_key;
use std::any::TypeId;
use vstd::prelude::*;

verus! {

/// How a registered service produces its instance.
pub enum Factory<S, F> {
    /// One instance, stored at registration time and shared by every resolve.
    Singleton(S),
    /// An instance created by `factory` on first resolution, then kept.
    Lazy { factory: F, instance: Option<S> },
    /// A fresh instance created by `factory` on every resolution.
    Transient(F),
}

impl<S, F> Factory<S, F> {
    /// A singleton factory holding `instance`.
    pub fn singleton(instance: S) -> (r: Self)
        ensures
            r == Factory::<S, F>::Singleton(instance),
    {
        Factory::Singleton(instance)
    }

    /// A lazy factory whose instance is not created yet.
    pub fn lazy(factory: F) -> (r: Self)
        ensures
            r == (Factory::<S, F>::Lazy { factory, instance: None }),
    {
        Factory::Lazy { factory, instance: None }
    }

    /// A transient factory.
    pub fn transient(factory: F) -> (r: Self)
        ensures
            r == Factory::<S, F>::Transient(factory),
    {
        Factory::Transient(factory)
    }

    /// Whether every resolution creates a new instance.
    pub fn is_transient(&self) -> (r: bool)
        ensures
            r == (*self is Transient),
    {
        match self {
            Factory::Transient(_) => true,
            _ => false,
        }
    }

    /// The instance a resolution returns without running a factory: the
    /// singleton's instance, or the lazy instance once it has been created.
    pub open spec fn ready(self) -> Option<S> {
        match self {
            Factory::Singleton(s) => Some(s),
            Factory::Lazy { instance, .. } => instance,
            Factory::Transient(_) => None,
        }
    }

    /// The factory a resolution has to run: that of a transient service, or
    /// that of a lazy service whose instance is not created yet.
    pub open spec fn pending(self) -> Option<F> {
        match self {
            Factory::Singleton(_) => None,
            Factory::Lazy { factory, instance } => if instance is Some {
                None
            } else {
                Some(factory)
            },
            Factory::Transient(f) => Some(f),
        }
    }

    /// The ready instance, if there is one (see [`Factory::ready`]).
    pub fn instance(&self) -> (r: Option<&S>)
        ensures
            r matches Some(s) ==> self.ready() == Some(*s),
            r is None <==> self.ready() is None,
    {
        match self {
            Factory::Singleton(s) => Some(s),
            Factory::Lazy { instance, .. } => match instance {
                Some(s) => Some(s),
                None => None,
            },
            Factory::Transient(_) => None,
        }
    }

    /// The factory that must run to produce an instance, if any (see
    /// [`Factory::pending`]).
    pub fn pending_factory(&self) -> (r: Option<&F>)
        ensures
            r matches Some(f) ==> self.pending() == Some(*f),
            r is None <==> self.pending() is None,
    {
        match self {
            Factory::Singleton(_) => None,
            Factory::Lazy { factory, instance } => match instance {
                Some(_) => None,
                None => Some(factory),
            },
            Factory::Transient(f) => Some(f),
        }
    }
}

/// The services registered in one scope.
pub struct ServiceStorage<S, F> {
    keys: Vec<TypeId>,
    factories: Vec<Factory<S, F>>,
    parent: Option<usize>,
    generation: u64,
}

impl<S, F> ServiceStorage<S, F> {
    /// Keys and factories line up, and no key occurs twice.
    pub closed spec fn wf(self) -> bool {
        &&& self.keys@.len() == self.factories@.len()
        &&& self.keys@.no_duplicates()
    }

    /// The registered keys, in storage order.
    pub closed spec fn key_seq(self) -> Seq<TypeId> {
        self.keys@
    }

    /// The factories, in the order of [`ServiceStorage::key_seq`].
    pub closed spec fn factory_seq(self) -> Seq<Factory<S, F>> {
        self.factories@
    }

    /// The map from key to factory.
    pub closed spec fn entries(self) -> Map<TypeId, Factory<S, F>> {
        Map::new(
            |k: TypeId| self.keys@.contains(k),
            |k: TypeId| self.factories@[self.keys@.index_of(k)],
        )
    }

    /// The scope this storage inherits from, if any.
    pub closed spec fn parent_scope(self) -> Option<usize> {
        self.parent
    }

    /// The current generation stamp.
    pub closed spec fn spec_generation(self) -> u64 {
        self.generation
    }

    /// Position `i` of the key sequence holds the entry for that key.
    pub proof fn lemma_entry_at(self, i: int)
        requires
            self.wf(),
            0 <= i < self.key_seq().len(),
        ensures
            self.entries().contains_key(self.key_seq()[i]),
            self.entries()[self.key_seq()[i]] == self.factory_seq()[i],
    {
        assert(self.keys@.contains(self.keys@[i]));
        let j = self.keys@.index_of(self.keys@[i]);
        assert(self.keys@[j] == self.keys@[i]);
    }

    /// The domain of the entries is the set of keys, and there are as many
    /// entries as keys.
    pub proof fn lemma_domain(self)
        requires
            self.wf(),
        ensures
            self.entries().dom() == self.key_seq().to_set(),
            self.entries().len() == self.key_seq().len(),
            self.key_seq().len() == self.factory_seq().len(),
            self.key_seq().no_duplicates(),
    {
        assert(self.entries().dom() =~= self.keys@.to_set());
        self.keys@.unique_seq_to_set();
    }

    /// An empty storage with no parent.
    pub fn new() -> (r: Self)
        ensures
            r.wf(),
            r.entries() == Map::<TypeId, Factory<S, F>>::empty(),
            r.parent_scope() is None,
    {
        let r = ServiceStorage {
            keys: Vec::new(),
            factories: Vec::new(),
            parent: None,
            generation: 0,
        };
        assert(r.entries() =~= Map::<TypeId, Factory<S, F>>::empty());
        r
    }

    /// An empty storage with no parent and room for `capacity` services.
    pub fn with_capacity(capacity: usize) -> (r: Self)
        ensures
            r.wf(),
            r.entries() == Map::<TypeId, Factory<S, F>>::empty(),
            r.parent_scope() is None,
    {
        let r = ServiceStorage {
            keys: Vec::with_capacity(capacity),
            factories: Vec::with_capacity(capacity),
            parent: None,
            generation: 0,
        };
        assert(r.entries() =~= Map::<TypeId, Factory<S, F>>::empty());
        r
    }

    /// An empty storage that inherits from the scope `parent`.
    pub fn with_parent(parent: usize) -> (r: Self)
        ensures
            r.wf(),
            r.entries() == Map::<TypeId, Factory<S, F>>::empty(),
            r.parent_scope() == Some(parent),
    {
        let r = ServiceStorage {
            keys: Vec::new(),
            factories: Vec::new(),
            parent: Some(parent),
            generation: 0,
        };
        assert(r.entries() =~= Map::<TypeId, Factory<S, F>>::empty());
        r
    }

    /// Position of `key`, if registered.
    fn find(&self, key: &TypeId) -> (r: Option<usize>)
        requires
            self.wf(),
        ensures
            r matches Some(i) ==> i < self.key_seq().len() && self.key_seq()[i as int] == *key,
            r is None <==> !self.entries().contains_key(*key),
    {
        let mut i: usize = 0;
        while i < self.keys.len()
            invariant
                i <= self.keys@.len(),
                forall|j: int| 0 <= j < i ==> self.keys@[j] != *key,
            decreases self.keys@.len() - i,
        {
            if same_key(&self.keys[i], key) {
                return Some(i);
            }
            i = i + 1;
        }
        None
    }

    /// Stamp a mutation.
    fn bump_generation(&mut self)
        ensures
            final(self).keys == old(self).keys,
            final(self).factories == old(self).factories,
            final(self).parent == old(self).parent,
            final(self).generation != old(self).generation,
    {
        self.generation = self.generation.wrapping_add(1);
    }

    /// Register `factory` under `key`, replacing an earlier registration.
    pub fn insert(&mut self, key: TypeId, factory: Factory<S, F>)
        requires
            old(self).wf(),
        ensures
            final(self).wf(),
            final(self).entries() == old(self).entries().insert(key, factory),
            final(self).parent_scope() == old(self).parent_scope(),
            final(self).spec_generation() != old(self).spec_generation(),
    {
        let ghost old_self = *self;
        match self.find(&key) {
            Some(i) => {
                self.factories.set(i, factory);
                proof {
                    assert forall|k: TypeId| #[trigger]
                        self.entries().contains_key(k) implies self.entries()[k] == old_self.entries().insert(
                        key,
                        factory,
                    )[k] by {
                        let j = self.keys@.index_of(k);
                        assert(self.keys@[j] == k);
                        if k == key {
                            assert(j == i);
                        } else {
                            old_self.lemma_entry_at(j);
                        }
                    }
                    assert(self.entries() =~= old_self.entries().insert(key, factory));
                }
            },
            None => {
                self.keys.push(key);
                self.factories.push(factory);
                proof {
                    assert forall|k: TypeId| #[trigger]
                        self.entries().contains_key(k) implies self.entries()[k] == old_self.entries().insert(
                        key,
                        factory,
                    )[k] by {
                        let j = self.keys@.index_of(k);
                        assert(self.keys@[j] == k);
                        if k == key {
                            assert(j == old_self.keys@.len());
                        } else {
                            assert(j < old_self.keys@.len());
                            old_self.lemma_entry_at(j);
                        }
                    }
                    assert forall|k: TypeId|
                        old_self.entries().insert(key, factory).contains_key(
                            k,
                        ) implies #[trigger] self.entries().contains_key(k) by {
                        if k != key {
                            let j = old_self.keys@.index_of(k);
                            assert(self.keys@[j] == k);
                        } else {
                            assert(self.keys@[old_self.keys@.len() as int] == k);
                        }
                    }
                    assert(self.entries() =~= old_self.entries().insert(key, factory));
                }
            },
        }
        self.bump_generation();
    }

    /// Whether `key` is registered in this storage (parents not consulted).
    pub fn contains(&self, key: &TypeId) -> (r: bool)
        requires
            self.wf(),
        ensures
            r == self.entries().contains_key(*key),
    {
        self.find(key).is_some()
    }

    /// The factory registered under `key` in this storage.
    pub fn get(&self, key: &TypeId) -> (r: Option<&Factory<S, F>>)
        requires
            self.wf(),
        ensures
            r matches Some(f) ==> self.entries().contains_key(*key) && self.entries()[*key] == *f,
            r is None <==> !self.entries().contains_key(*key),
    {
        match self.find(key) {
            Some(i) => {
                proof {
                    self.lemma_entry_at(i as int);
                }
                Some(&self.factories[i])
            },
            None => None,
        }
    }

    /// The factory registered under `key`, together with whether it is
    /// transient.
    pub fn get_with_transient_flag(&self, key: &TypeId) -> (r: Option<(&Factory<S, F>, bool)>)
        requires
            self.wf(),
        ensures
            r matches Some((f, t)) ==> self.entries().contains_key(*key) && self.entries()[*key]
                == *f && t == (*f is Transient),
            r is None <==> !self.entries().contains_key(*key),
    {
        match self.get(key) {
            Some(f) => Some((f, f.is_transient())),
            None => None,
        }
    }

    /// Whether the service registered under `key` here is transient; `false`
    /// when it is not registered here.
    pub fn is_transient(&self, key: &TypeId) -> (r: bool)
        requires
            self.wf(),
        ensures
            r == (self.entries().contains_key(*key) && self.entries()[*key] is Transient),
    {
        match self.get(key) {
            Some(f) => f.is_transient(),
            None => false,
        }
    }

    /// Number of services registered in this storage.
    pub fn len(&self) -> (r: usize)
        requires
            self.wf(),
        ensures
            r == self.entries().len(),
    {
        proof {
                        self.lemma_domain();
        }
        self.keys.len()
    }

    /// Whether nothing is registered in this storage.
    pub fn is_empty(&self) -> (r: bool)
        requires
            self.wf(),
        ensures
            r == (self.entries().len() == 0),
    {
        proof {
                        self.lemma_domain();
        }
        self.keys.len() == 0
    }

    /// The scope this storage inherits from.
    pub fn parent(&self) -> (r: Option<usize>)
        ensures
            r == self.parent_scope(),
    {
        self.parent
    }

    /// Whether this storage inherits from another scope.
    pub fn has_parent(&self) -> (r: bool)
        ensures
            r == self.parent_scope() is Some,
    {
        self.parent.is_some()
    }

    /// The generation stamp; it changes on every mutation.
    pub fn generation(&self) -> (r: u64)
        ensures
            r == self.spec_generation(),
    {
        self.generation
    }

    /// Remove every registration (the parent is kept).
    pub fn clear(&mut self)
        requires
            old(self).wf(),
        ensures
            final(self).wf(),
            final(self).entries() == Map::<TypeId, Factory<S, F>>::empty(),
            final(self).parent_scope() == old(self).parent_scope(),
            final(self).spec_generation() != old(self).spec_generation(),
    {
        self.keys.clear();
        self.factories.clear();
        self.bump_generation();
        assert(self.entries() =~= Map::<TypeId, Factory<S, F>>::empty());
    }

    /// Remove the registration of `key`; `true` if there was one. The
    /// generation changes only when something was removed.
    pub fn remove(&mut self, key: &TypeId) -> (r: bool)
        requires
            old(self).wf(),
        ensures
            final(self).wf(),
            r == old(self).entries().contains_key(*key),
            final(self).entries() == old(self).entries().remove(*key),
            final(self).parent_scope() == old(self).parent_scope(),
            r ==> final(self).spec_generation() != old(self).spec_generation(),
            !r ==> final(self).spec_generation() == old(self).spec_generation(),
    {
        let ghost old_self = *self;
        match self.find(key) {
            Some(i) => {
                self.keys.swap_remove(i);
                self.factories.swap_remove(i);
                proof {
                    let n = old_self.keys@.len() as int;
                    assert(self.keys@.no_duplicates()) by {
                        assert forall|a: int, b: int|
                            0 <= a < self.keys@.len() && 0 <= b < self.keys@.len() && a != b implies self.keys@[a]
                            != self.keys@[b] by {
                            let oa = if a == i { n - 1 } else { a };
                            let ob = if b == i { n - 1 } else { b };
                            assert(self.keys@[a] == old_self.keys@[oa]);
                            assert(self.keys@[b] == old_self.keys@[ob]);
                        }
                    }
                    assert forall|k: TypeId| #[trigger]
                        self.entries().contains_key(k) implies old_self.entries().remove(
                        *key,
                    ).contains_key(k) && self.entries()[k] == old_self.entries().remove(*key)[k] by {
                        let j = self.keys@.index_of(k);
                        assert(self.keys@[j] == k);
                        let oj = if j == i { n - 1 } else { j };
                        assert(old_self.keys@[oj] == k);
                        old_self.lemma_entry_at(oj);
                    }
                    assert forall|k: TypeId|
                        old_self.entries().remove(*key).contains_key(
                            k,
                        ) implies #[trigger] self.entries().contains_key(k) by {
                        let oj = old_self.keys@.index_of(k);
                        assert(old_self.keys@[oj] == k);
                        assert(oj != i);
                        let j = if oj == n - 1 { i as int } else { oj };
                        assert(self.keys@[j] == k);
                    }
                    assert(self.entries() =~= old_self.entries().remove(*key));
                }
                self.bump_generation();
                true
            },
            None => {
                assert(self.entries() =~= old_self.entries().remove(*key));
                false
            },
        }
    }

    /// The registered keys, each once.
    pub fn type_ids(&self) -> (r: Vec<TypeId>)
        requires
            self.wf(),
        ensures
            r@ == self.key_seq(),
            r@.no_duplicates(),
            r@.to_set() == self.entries().dom(),
    {
        proof {
                        self.lemma_domain();
        }
        let mut out: Vec<TypeId> = Vec::new();
        let mut i: usize = 0;
        while i < self.keys.len()
            invariant
                i <= self.keys@.len(),
                out@ == self.keys@.subrange(0, i as int),
            decreases self.keys@.len() - i,
        {
            out.push(self.keys[i]);
            i = i + 1;
        }
        assert(out@ =~= self.keys@);
        out
    }

    /// Record the instance of the lazy service registered under `key`, whose
    /// instance was not created yet. The generation is unchanged: creating a
    /// lazy instance is not a change of registrations.
    pub fn fill_lazy(&mut self, key: &TypeId, instance: S)
        requires
            old(self).wf(),
            old(self).entries().contains_key(*key),
            old(self).entries()[*key] matches Factory::Lazy { instance: None, .. },
        ensures
            final(self).wf(),
            old(self).entries()[*key] matches Factory::Lazy { factory, .. } && final(self).entries()
                == old(self).entries().insert(
                *key,
                Factory::Lazy { factory, instance: Some(instance) },
            ),
            final(self).parent_scope() == old(self).parent_scope(),
            final(self).spec_generation() == old(self).spec_generation(),
    {
        let ghost old_self = *self;
        match self.find(key) {
            Some(i) => {
                proof {
                    old_self.lemma_entry_at(i as int);
                }
                let old_f = self.factories.remove(i);
                let new_f = match old_f {
                    Factory::Lazy { factory, .. } => Factory::Lazy { factory, instance: Some(instance) },
                    other => other,
                };
                self.factories.insert(i, new_f);
                proof {
                    assert(self.factories@ =~= old_self.factories@.update(i as int, new_f));
                    assert forall|k: TypeId| #[trigger]
                        self.entries().contains_key(k) implies self.entries()[k]
                        == old_self.entries().insert(*key, new_f)[k] by {
                        let j = self.keys@.index_of(k);
                        assert(self.keys@[j] == k);
                        if k == *key {
                            assert(j == i);
                        } else {
                            old_self.lemma_entry_at(j);
                        }
                    }
                    assert(self.entries() =~= old_self.entries().insert(*key, new_f));
                }
            },
            None => {},
        }
    }

    /// The key at position `i` of the storage order.
    pub fn key_at(&self, i: usize) -> (r: TypeId)
        requires
            self.wf(),
            i < self.key_seq().len(),
        ensures
            r == self.key_seq()[i as int],
    {
        self.keys[i]
    }

    /// The factory at position `i` of the storage order, which is the one
    /// registered under [`ServiceStorage::key_at`]`(i)`.
    pub fn factory_at(&self, i: usize) -> (r: &Factory<S, F>)
        requires
            self.wf(),
            i < self.key_seq().len(),
        ensures
            *r == self.factory_seq()[i as int],
            *r == self.entries()[self.key_seq()[i as int]],
    {
        proof {
            self.lemma_entry_at(i as int);
        }
        &self.factories[i]
    }
}

} // verus!
