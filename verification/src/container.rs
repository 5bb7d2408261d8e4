//! The dependency injection container.
//!
//! A container holds a tree of scopes. Scope `0` is the root; every other
//! scope has a parent that was created before it. Each scope owns a
//! [`ServiceStorage`] and a lock flag. A service is resolved from the
//! nearest scope on the path from the requesting scope to the root that has
//! it registered, so a scope sees its ancestors' registrations (including
//! those made after the scope was created) and can override them, while
//! registrations in a scope are invisible to its ancestors and siblings.

use crate::error::DiError;
use crate::storage::{Factory, ServiceStorage};
use std::any::TypeId;
use vstd::prelude::*;

verus! {

/// Identifies a scope of a [`Container`].
pub type ScopeId = usize;

/// The next step of resolving a service.
pub enum Step<'a, S, F> {
    /// The instance to hand out (a singleton, or a lazy instance already
    /// created).
    Ready(&'a S),
    /// A lazy service whose instance is not created yet, registered in scope
    /// `owner` at generation `generation`: run `factory`, then record its
    /// instance with [`Container::complete_lazy_at`].
    RunAndRecord { factory: &'a F, owner: ScopeId, generation: u64 },
    /// A transient service: run `factory` for a fresh instance and record
    /// nothing.
    RunEachTime(&'a F),
    /// Nothing is registered under the key on the path to the root.
    Missing,
}

/// `m` with each registration of `regs` applied in order (a later one for
/// the same key replaces an earlier one).
pub open spec fn apply_all<S, F>(
    m: Map<TypeId, Factory<S, F>>,
    regs: Seq<(TypeId, Factory<S, F>)>,
) -> Map<TypeId, Factory<S, F>>
    decreases regs.len(),
{
    if regs.len() == 0 {
        m
    } else {
        apply_all(m, regs.drop_last()).insert(regs.last().0, regs.last().1)
    }
}

/// A tree of scopes holding service registrations.
///
/// `S` is the type of service instances, `F` that of the factories that
/// create instances for lazy and transient registrations.
pub struct Container<S, F> {
    storages: Vec<ServiceStorage<S, F>>,
    depths: Vec<u32>,
    locks: Vec<bool>,
}

impl<S, F> Container<S, F> {
    /// Number of scopes.
    pub closed spec fn scope_count(self) -> int {
        self.storages@.len() as int
    }

    /// The services registered locally in scope `s`.
    pub closed spec fn local(self, s: int) -> Map<TypeId, Factory<S, F>> {
        self.storages@[s].entries()
    }

    /// The parent of scope `s`.
    pub closed spec fn parent_of(self, s: int) -> Option<int> {
        match self.storages@[s].parent_scope() {
            Some(p) => Some(p as int),
            None => None,
        }
    }

    /// The depth of scope `s` (the root has depth 0).
    pub closed spec fn depth_of(self, s: int) -> int {
        self.depths@[s] as int
    }

    /// Whether scope `s` refuses registrations.
    pub closed spec fn locked(self, s: int) -> bool {
        self.locks@[s]
    }

    /// The generation stamp of scope `s`.
    pub closed spec fn generation_of(self, s: int) -> u64 {
        self.storages@[s].spec_generation()
    }

    /// The keys registered locally in scope `s`, in storage order.
    pub closed spec fn local_keys(self, s: int) -> Seq<TypeId> {
        self.storages@[s].key_seq()
    }

    /// Whether `s` names a scope of this container.
    pub open spec fn valid_scope(self, s: int) -> bool {
        0 <= s < self.scope_count()
    }

    /// Well-formedness: the root is scope 0, every other scope's parent was
    /// created before it and is one level shallower, and each storage is
    /// well formed.
    pub closed spec fn wf(self) -> bool {
        &&& self.storages@.len() >= 1
        &&& self.depths@.len() == self.storages@.len()
        &&& self.locks@.len() == self.storages@.len()
        &&& self.storages@[0].parent_scope() is None
        &&& forall|s: int| 0 <= s < self.storages@.len() ==> (#[trigger] self.storages@[s]).wf()
        &&& forall|s: int|
            0 <= s < self.storages@.len() ==> match (#[trigger] self.storages@[s]).parent_scope() {
                Some(p) => p < s && self.depths@[s] == self.depths@[p as int] + 1,
                None => self.depths@[s] == 0,
            }
    }

    /// The service that a resolution of `key` from scope `s` finds: the
    /// registration in the nearest scope on the path from `s` to the root,
    /// together with that scope.
    pub open spec fn resolution(self, s: int, key: TypeId) -> Option<(int, Factory<S, F>)>
        decreases s,
    {
        if 0 <= s < self.scope_count() {
            if self.local(s).contains_key(key) {
                Some((s, self.local(s)[key]))
            } else {
                match self.parent_of(s) {
                    Some(p) => if 0 <= p < s {
                        self.resolution(p, key)
                    } else {
                        None
                    },
                    None => None,
                }
            }
        } else {
            None
        }
    }

    /// The `i`-th scope on the path from `s` towards the root (`s` itself
    /// for `i == 0`); the root repeats once the path has reached it.
    pub open spec fn ancestor(self, s: int, i: nat) -> int
        decreases i,
    {
        if i == 0 {
            s
        } else {
            match self.parent_of(self.ancestor(s, (i - 1) as nat)) {
                Some(p) => p,
                None => self.ancestor(s, (i - 1) as nat),
            }
        }
    }

    /// Whether scope `a` is `t` or one of its ancestors.
    pub open spec fn in_chain(self, a: int, t: int) -> bool
        decreases t,
    {
        if 0 <= t < self.scope_count() {
            if a == t {
                true
            } else {
                match self.parent_of(t) {
                    Some(p) => if 0 <= p < t {
                        self.in_chain(a, p)
                    } else {
                        false
                    },
                    None => false,
                }
            }
        } else {
            false
        }
    }

    /// `other` is `self` with only the local services of scope `s` changed
    /// (parents, depths and locks of all scopes, and the services of every
    /// other scope, are the same).
    pub open spec fn same_except_local(self, other: Self, s: int) -> bool {
        &&& other.scope_count() == self.scope_count()
        &&& forall|t: int| 0 <= t < self.scope_count() ==> #[trigger] other.parent_of(t) == self.parent_of(t)
        &&& forall|t: int| 0 <= t < self.scope_count() ==> #[trigger] other.depth_of(t) == self.depth_of(t)
        &&& forall|t: int| 0 <= t < self.scope_count() ==> #[trigger] other.locked(t) == self.locked(t)
        &&& forall|t: int|
            0 <= t < self.scope_count() && t != s ==> #[trigger] other.local(t) == self.local(t)
    }

    /// `other` extends `self` with new scopes, leaving the existing ones
    /// untouched.
    pub open spec fn extends(self, other: Self) -> bool {
        &&& other.scope_count() >= self.scope_count()
        &&& forall|t: int| 0 <= t < self.scope_count() ==> #[trigger] other.parent_of(t) == self.parent_of(t)
        &&& forall|t: int| 0 <= t < self.scope_count() ==> #[trigger] other.depth_of(t) == self.depth_of(t)
        &&& forall|t: int| 0 <= t < self.scope_count() ==> #[trigger] other.locked(t) == self.locked(t)
        &&& forall|t: int| 0 <= t < self.scope_count() ==> #[trigger] other.local(t) == self.local(t)
    }

    /// A resolution finds a registration of `key` in a scope on the path
    /// from `s` to the root.
    pub proof fn lemma_resolution_found(self, s: int, key: TypeId)
        requires
            self.resolution(s, key) is Some,
        ensures
            self.resolution(s, key) matches Some((o, f)) && self.valid_scope(o)
                && self.local(o).contains_key(key) && self.local(o)[key] == f && self.in_chain(o, s),
        decreases s,
    {
        if !self.local(s).contains_key(key) {
            match self.parent_of(s) {
                Some(p) => {
                    self.lemma_resolution_found(p, key);
                },
                None => {},
            }
        }
    }

    /// A scope with a parent is one level deeper than its parent.
    pub proof fn lemma_depth_of_child(self, s: int)
        requires
            self.wf(),
            self.valid_scope(s),
        ensures
            self.parent_of(s) matches Some(p) ==> 0 <= p < s && self.depth_of(s) == self.depth_of(p) + 1,
            self.parent_of(s) is None ==> self.depth_of(s) == 0,
    {
        assert(self.storages@[s].wf());
    }

    /// A scope is never on the path from a scope created before it.
    pub proof fn lemma_chain_below(self, a: int, t: int)
        requires
            t < a,
        ensures
            !self.in_chain(a, t),
        decreases t,
    {
        if 0 <= t < self.scope_count() && a != t {
            match self.parent_of(t) {
                Some(p) => {
                    if 0 <= p < t {
                        self.lemma_chain_below(a, p);
                    }
                },
                None => {},
            }
        }
    }

    /// A container with an empty, unlocked root scope.
    pub fn new() -> (r: Self)
        ensures
            r.wf(),
            r.scope_count() == 1,
            r.local(0) == Map::<TypeId, Factory<S, F>>::empty(),
            r.parent_of(0) is None,
            r.depth_of(0) == 0,
            !r.locked(0),
    {
        let mut storages = Vec::new();
        storages.push(ServiceStorage::new());
        let mut depths = Vec::new();
        depths.push(0u32);
        let mut locks = Vec::new();
        locks.push(false);
        Container { storages, depths, locks }
    }

    /// Like [`Container::new`], with room for `capacity` root services.
    pub fn with_capacity(capacity: usize) -> (r: Self)
        ensures
            r.wf(),
            r.scope_count() == 1,
            r.local(0) == Map::<TypeId, Factory<S, F>>::empty(),
            r.parent_of(0) is None,
            r.depth_of(0) == 0,
            !r.locked(0),
    {
        let mut storages = Vec::new();
        storages.push(ServiceStorage::with_capacity(capacity));
        let mut depths = Vec::new();
        depths.push(0u32);
        let mut locks = Vec::new();
        locks.push(false);
        Container { storages, depths, locks }
    }

    /// The root scope.
    pub fn root(&self) -> (r: ScopeId)
        ensures
            r == 0,
    {
        0
    }

    /// Number of scopes.
    pub fn scope_len(&self) -> (r: usize)
        requires
            self.wf(),
        ensures
            r == self.scope_count(),
    {
        self.storages.len()
    }

    /// Create a child scope of `parent`. The child starts empty and
    /// unlocked, and sees every service of its ancestors.
    pub fn scope(&mut self, parent: ScopeId) -> (child: ScopeId)
        requires
            old(self).wf(),
            old(self).valid_scope(parent as int),
            old(self).depth_of(parent as int) < u32::MAX,
        ensures
            final(self).wf(),
            child == old(self).scope_count(),
            final(self).scope_count() == old(self).scope_count() + 1,
            old(self).extends(*final(self)),
            final(self).local(child as int) == Map::<TypeId, Factory<S, F>>::empty(),
            final(self).parent_of(child as int) == Some(parent as int),
            final(self).depth_of(child as int) == old(self).depth_of(parent as int) + 1,
            !final(self).locked(child as int),
    {
        let child = self.storages.len();
        let d = self.depths[parent];
        self.storages.push(ServiceStorage::with_parent(parent));
        self.depths.push(d + 1);
        self.locks.push(false);
        proof {
            assert forall|s: int| 0 <= s < self.storages@.len() implies (
            #[trigger] self.storages@[s]).wf() by {
                if s < child {
                    assert(self.storages@[s] == old(self).storages@[s]);
                }
            }
            assert forall|s: int| 0 <= s < self.storages@.len() implies match (
            #[trigger] self.storages@[s]).parent_scope() {
                Some(p) => p < s && self.depths@[s] == self.depths@[p as int] + 1,
                None => self.depths@[s] == 0,
            } by {
                if s < child {
                    assert(self.storages@[s] == old(self).storages@[s]);
                    assert(old(self).storages@[s].wf());
                }
            }
        }
        child
    }

    /// Alias of [`Container::scope`].
    pub fn create_scope(&mut self, parent: ScopeId) -> (child: ScopeId)
        requires
            old(self).wf(),
            old(self).valid_scope(parent as int),
            old(self).depth_of(parent as int) < u32::MAX,
        ensures
            final(self).wf(),
            child == old(self).scope_count(),
            final(self).scope_count() == old(self).scope_count() + 1,
            old(self).extends(*final(self)),
            final(self).local(child as int) == Map::<TypeId, Factory<S, F>>::empty(),
            final(self).parent_of(child as int) == Some(parent as int),
            final(self).depth_of(child as int) == old(self).depth_of(parent as int) + 1,
            !final(self).locked(child as int),
    {
        self.scope(parent)
    }

    /// Register `factory` under `key` in scope `s` (the lock is not checked).
    fn insert_factory(&mut self, s: ScopeId, key: TypeId, factory: Factory<S, F>)
        requires
            old(self).wf(),
            old(self).valid_scope(s as int),
        ensures
            final(self).wf(),
            old(self).same_except_local(*final(self), s as int),
            final(self).local(s as int) == old(self).local(s as int).insert(key, factory),
            final(self).generation_of(s as int) != old(self).generation_of(s as int),
    {
        self.storages[s].insert(key, factory);
        proof {
            assert forall|t: int| 0 <= t < self.storages@.len() implies (
            #[trigger] self.storages@[t]).wf() by {
                if t != s {
                    assert(self.storages@[t] == old(self).storages@[t]);
                }
            }
            assert forall|t: int| 0 <= t < self.storages@.len() implies match (
            #[trigger] self.storages@[t]).parent_scope() {
                Some(p) => p < t && self.depths@[t] == self.depths@[p as int] + 1,
                None => self.depths@[t] == 0,
            } by {
                if t != s {
                    assert(self.storages@[t] == old(self).storages@[t]);
                }
                assert(old(self).storages@[t].parent_scope() == self.storages@[t].parent_scope());
            }
            assert forall|t: int| 0 <= t < self.scope_count() implies #[trigger] self.parent_of(t)
                == old(self).parent_of(t) && self.depth_of(t) == old(self).depth_of(t)
                && self.locked(t) == old(self).locked(t) by {
                if t != s {
                    assert(self.storages@[t] == old(self).storages@[t]);
                }
            }
            assert forall|t: int| 0 <= t < self.scope_count() && t != s implies #[trigger] self.local(
                t,
            ) == old(self).local(t) by {
                assert(self.storages@[t] == old(self).storages@[t]);
            }
        }
    }

    /// Register a singleton: `instance` is stored now and shared by every
    /// resolve. A registration of `key` already in scope `s` is replaced.
    pub fn singleton(&mut self, s: ScopeId, key: TypeId, instance: S)
        requires
            old(self).wf(),
            old(self).valid_scope(s as int),
            !old(self).locked(s as int),
        ensures
            final(self).wf(),
            old(self).same_except_local(*final(self), s as int),
            final(self).local(s as int) == old(self).local(s as int).insert(
                key,
                Factory::Singleton(instance),
            ),
            final(self).generation_of(s as int) != old(self).generation_of(s as int),
    {
        self.insert_factory(s, key, Factory::singleton(instance));
    }

    /// Register a lazy singleton: `factory` runs on first resolution and its
    /// instance is kept.
    pub fn lazy(&mut self, s: ScopeId, key: TypeId, factory: F)
        requires
            old(self).wf(),
            old(self).valid_scope(s as int),
            !old(self).locked(s as int),
        ensures
            final(self).wf(),
            old(self).same_except_local(*final(self), s as int),
            final(self).local(s as int) == old(self).local(s as int).insert(
                key,
                Factory::Lazy { factory, instance: None },
            ),
            final(self).generation_of(s as int) != old(self).generation_of(s as int),
    {
        self.insert_factory(s, key, Factory::lazy(factory));
    }

    /// Register a transient service: `factory` runs on every resolution.
    pub fn transient(&mut self, s: ScopeId, key: TypeId, factory: F)
        requires
            old(self).wf(),
            old(self).valid_scope(s as int),
            !old(self).locked(s as int),
        ensures
            final(self).wf(),
            old(self).same_except_local(*final(self), s as int),
            final(self).local(s as int) == old(self).local(s as int).insert(
                key,
                Factory::Transient(factory),
            ),
            final(self).generation_of(s as int) != old(self).generation_of(s as int),
    {
        self.insert_factory(s, key, Factory::transient(factory));
    }

    /// Alias of [`Container::lazy`].
    pub fn register_factory(&mut self, s: ScopeId, key: TypeId, factory: F)
        requires
            old(self).wf(),
            old(self).valid_scope(s as int),
            !old(self).locked(s as int),
        ensures
            final(self).wf(),
            old(self).same_except_local(*final(self), s as int),
            final(self).local(s as int) == old(self).local(s as int).insert(
                key,
                Factory::Lazy { factory, instance: None },
            ),
            final(self).generation_of(s as int) != old(self).generation_of(s as int),
    {
        self.lazy(s, key, factory);
    }

    /// Alias of [`Container::singleton`].
    pub fn register(&mut self, s: ScopeId, key: TypeId, instance: S)
        requires
            old(self).wf(),
            old(self).valid_scope(s as int),
            !old(self).locked(s as int),
        ensures
            final(self).wf(),
            old(self).same_except_local(*final(self), s as int),
            final(self).local(s as int) == old(self).local(s as int).insert(
                key,
                Factory::Singleton(instance),
            ),
            final(self).generation_of(s as int) != old(self).generation_of(s as int),
    {
        self.singleton(s, key, instance);
    }

    /// Register a boxed instance as a singleton.
    pub fn register_boxed(&mut self, s: ScopeId, key: TypeId, instance: Box<S>)
        requires
            old(self).wf(),
            old(self).valid_scope(s as int),
            !old(self).locked(s as int),
        ensures
            final(self).wf(),
            old(self).same_except_local(*final(self), s as int),
            final(self).local(s as int) == old(self).local(s as int).insert(
                key,
                Factory::Singleton(*instance),
            ),
            final(self).generation_of(s as int) != old(self).generation_of(s as int),
    {
        self.singleton(s, key, *instance);
    }

    /// Register an instance that is already keyed, as a singleton.
    pub fn register_by_id(&mut self, s: ScopeId, type_id: TypeId, instance: S)
        requires
            old(self).wf(),
            old(self).valid_scope(s as int),
            !old(self).locked(s as int),
        ensures
            final(self).wf(),
            old(self).same_except_local(*final(self), s as int),
            final(self).local(s as int) == old(self).local(s as int).insert(
                type_id,
                Factory::Singleton(instance),
            ),
            final(self).generation_of(s as int) != old(self).generation_of(s as int),
    {
        self.singleton(s, type_id, instance);
    }

    /// Register several services in scope `s` at once, in order. The lock
    /// is checked once, before the first registration.
    pub fn register_batch(&mut self, s: ScopeId, regs: Vec<(TypeId, Factory<S, F>)>)
        requires
            old(self).wf(),
            old(self).valid_scope(s as int),
            !old(self).locked(s as int),
        ensures
            final(self).wf(),
            old(self).same_except_local(*final(self), s as int),
            final(self).local(s as int) == apply_all(old(self).local(s as int), regs@),
            forall|i: int|
                0 <= i < regs@.len() && (forall|j: int| i < j < regs@.len() ==> regs@[j].0 != regs@[i].0)
                    ==> final(self).local(s as int).contains_key(#[trigger] regs@[i].0) && final(self).local(
                    s as int,
                )[regs@[i].0] == regs@[i].1,
            forall|k: TypeId|
                (forall|i: int| 0 <= i < regs@.len() ==> regs@[i].0 != k) ==> (
                #[trigger] final(self).local(s as int).contains_key(k)
                    == old(self).local(s as int).contains_key(k)),
            forall|k: TypeId|
                (forall|i: int| 0 <= i < regs@.len() ==> regs@[i].0 != k) && #[trigger] old(self).local(
                    s as int).contains_key(k) ==> final(self).local(s as int)[k] == old(self).local(s as int)[k],
    {
        let ghost all = regs@;
        let mut rest = regs;
        let n = rest.len();
        let mut i: usize = 0;
        proof {
            assert(all.subrange(0, 0) =~= Seq::<(TypeId, Factory<S, F>)>::empty());
            assert(old(self).same_except_local(*self, s as int));
        }
        while rest.len() > 0
            invariant
                self.wf(),
                self.valid_scope(s as int),
                old(self).same_except_local(*self, s as int),
                i + rest@.len() == all.len(),
                all.len() == n,
                rest@ == all.subrange(i as int, all.len() as int),
                self.local(s as int) == apply_all(old(self).local(s as int), all.subrange(0, i as int)),
            decreases rest@.len(),
        {
            let (key, factory) = rest.remove(0);
            proof {
                assert(all[i as int] == (key, factory));
            }
            self.insert_factory(s, key, factory);
            proof {
                assert(all.subrange(0, i + 1).drop_last() =~= all.subrange(0, i as int));
                assert(rest@ =~= all.subrange(i + 1, all.len() as int));
            }
            i = i + 1;
        }
        proof {
            assert(all.subrange(0, i as int) =~= all);
            let m = old(self).local(s as int);
            assert forall|i: int|
                0 <= i < all.len() && (forall|j: int| i < j < all.len() ==> all[j].0 != all[i].0) implies self.local(
                s as int,
            ).contains_key(#[trigger] all[i].0) && self.local(s as int)[all[i].0] == all[i].1 by {
                law_batch_last_registration_wins(m, all, all[i].0);
            }
            assert forall|k: TypeId|
                (forall|i: int| 0 <= i < all.len() ==> all[i].0 != k) implies (#[trigger] self.local(
                s as int).contains_key(k) == m.contains_key(k)) by {
                law_batch_last_registration_wins(m, all, k);
            }
            assert forall|k: TypeId|
                (forall|i: int| 0 <= i < all.len() ==> all[i].0 != k) && #[trigger] m.contains_key(k) implies self.local(
                s as int)[k] == m[k] by {
                law_batch_last_registration_wins(m, all, k);
            }
        }
    }

    /// The scope whose registration a resolution of `key` from `s` uses.
    pub fn owner(&self, s: ScopeId, key: &TypeId) -> (r: Option<ScopeId>)
        requires
            self.wf(),
            self.valid_scope(s as int),
        ensures
            r matches Some(o) ==> self.resolution(s as int, *key) matches Some((o2, _)) && o2
                == o as int,
            r matches Some(o) ==> self.valid_scope(o as int) && self.local(o as int).contains_key(
                *key,
            ),
            r is None <==> self.resolution(s as int, *key) is None,
    {
        let mut cur: usize = s;
        loop
            invariant
                self.wf(),
                self.valid_scope(cur as int),
                self.resolution(cur as int, *key) == self.resolution(s as int, *key),
            decreases cur,
        {
            assert(self.storages@[cur as int].wf());
            if self.storages[cur].contains(key) {
                return Some(cur);
            }
            match self.storages[cur].parent() {
                Some(p) => {
                    cur = p;
                },
                None => {
                    return None;
                },
            }
        }
    }

    /// The factory a resolution of `key` from scope `s` uses: the
    /// registration in the nearest scope from `s` towards the root.
    pub fn get(&self, s: ScopeId, key: &TypeId) -> (r: Option<&Factory<S, F>>)
        requires
            self.wf(),
            self.valid_scope(s as int),
        ensures
            r matches Some(f) ==> self.resolution(s as int, *key) matches Some((_, g)) && g == *f,
            r is None <==> self.resolution(s as int, *key) is None,
    {
        match self.owner(s, key) {
            Some(o) => {
                proof {
                    self.lemma_resolution_found(s as int, *key);
                }
                assert(self.storages@[o as int].wf());
                self.storages[o].get(key)
            },
            None => None,
        }
    }

    /// The factory a resolution of `key` from scope `s` uses, or, when no
    /// scope on the path to the root registers `key`, a `NotFound` error
    /// that names the service `service` and carries `key`.
    pub fn require(&self, s: ScopeId, key: &TypeId, service: &'static str) -> (r: Result<
        &Factory<S, F>,
        DiError,
    >)
        requires
            self.wf(),
            self.valid_scope(s as int),
        ensures
            r matches Ok(f) ==> self.resolution(s as int, *key) matches Some((_, g)) && g == *f,
            r matches Err(e) ==> e == (DiError::NotFound { service, type_id: *key }),
            r is Err <==> self.resolution(s as int, *key) is None,
    {
        match self.get(s, key) {
            Some(f) => Ok(f),
            None => Err(DiError::NotFound { service, type_id: *key }),
        }
    }

    /// Alias of [`Container::get`].
    pub fn resolve(&self, s: ScopeId, key: &TypeId) -> (r: Option<&Factory<S, F>>)
        requires
            self.wf(),
            self.valid_scope(s as int),
        ensures
            r matches Some(f) ==> self.resolution(s as int, *key) matches Some((_, g)) && g == *f,
            r is None <==> self.resolution(s as int, *key) is None,
    {
        self.get(s, key)
    }

    /// Whether `key` resolves from scope `s` (in `s` or an ancestor).
    pub fn contains(&self, s: ScopeId, key: &TypeId) -> (r: bool)
        requires
            self.wf(),
            self.valid_scope(s as int),
        ensures
            r == self.resolution(s as int, *key) is Some,
    {
        self.owner(s, key).is_some()
    }

    /// Alias of [`Container::contains`].
    pub fn has(&self, s: ScopeId, key: &TypeId) -> (r: bool)
        requires
            self.wf(),
            self.valid_scope(s as int),
        ensures
            r == self.resolution(s as int, *key) is Some,
    {
        self.contains(s, key)
    }

    /// What resolving `key` from scope `s` has to do next, decided by the
    /// registration the resolution finds.
    pub fn resolution_step(&self, s: ScopeId, key: &TypeId) -> (r: Step<'_, S, F>)
        requires
            self.wf(),
            self.valid_scope(s as int),
        ensures
            r is Missing <==> self.resolution(s as int, *key) is None,
            r matches Step::Ready(v) ==> self.resolution(s as int, *key) matches Some((_, f))
                && f.ready() == Some(*v),
            r matches Step::RunAndRecord { factory, owner, generation } ==> {
                &&& self.resolution(s as int, *key) == Some(
                    (owner as int, Factory::<S, F>::Lazy { factory: *factory, instance: None }),
                )
                &&& generation == self.generation_of(owner as int)
                &&& self.valid_scope(owner as int)
            },
            r matches Step::RunEachTime(factory) ==> self.resolution(s as int, *key) matches Some((_, f))
                && f == Factory::<S, F>::Transient(*factory),
    {
        let o = match self.owner(s, key) {
            Some(o) => o,
            None => {
                return Step::Missing;
            },
        };
        let f = match self.get(s, key) {
            Some(f) => f,
            None => {
                return Step::Missing;
            },
        };
        match f {
            Factory::Singleton(v) => Step::Ready(v),
            Factory::Lazy { factory, instance } => match instance {
                Some(v) => Step::Ready(v),
                None => Step::RunAndRecord { factory, owner: o, generation: self.generation(o) },
            },
            Factory::Transient(g) => Step::RunEachTime(g),
        }
    }

    /// Record `instance` as the instance of the lazy service that `key`
    /// resolves to from scope `s`, only if that is still the registration
    /// a [`Step::RunAndRecord`] named: it lives in scope `owner`, that
    /// scope's registrations are still at `generation`, and its instance is
    /// not created yet. `true` if it was recorded; otherwise nothing changes
    /// (a registration made meanwhile never receives another factory's
    /// instance).
    pub fn complete_lazy_at(
        &mut self,
        s: ScopeId,
        key: TypeId,
        owner: ScopeId,
        generation: u64,
        instance: S,
    ) -> (r: bool)
        requires
            old(self).wf(),
            old(self).valid_scope(s as int),
        ensures
            final(self).wf(),
            r == (old(self).resolution(s as int, key) matches Some((o, f)) && o == owner as int
                && old(self).generation_of(o) == generation && f matches Factory::Lazy {
                instance: None,
                ..
            }),
            r ==> (old(self).resolution(s as int, key) matches Some((o, f)) && f matches Factory::Lazy {
                factory,
                ..
            } && old(self).same_except_local(*final(self), o) && final(self).local(o) == old(
                self,
            ).local(o).insert(key, Factory::Lazy { factory, instance: Some(instance) })
                && final(self).generation_of(o) == old(self).generation_of(o)),
            !r ==> *final(self) == *old(self),
    {
        match self.owner(s, &key) {
            Some(o) => {
                if o != owner {
                    return false;
                }
                proof {
                    self.lemma_resolution_found(s as int, key);
                }
                if self.generation(o) != generation {
                    return false;
                }
                self.complete_lazy(s, key, instance)
            },
            None => false,
        }
    }

    /// Record `instance` as the instance of the lazy service that `key`
    /// resolves to from scope `s`, if that service's instance is not created
    /// yet; `true` if it was recorded. Otherwise nothing changes, so the
    /// first recorded instance is the one every later resolve shares.
    pub fn complete_lazy(&mut self, s: ScopeId, key: TypeId, instance: S) -> (r: bool)
        requires
            old(self).wf(),
            old(self).valid_scope(s as int),
        ensures
            final(self).wf(),
            r == (old(self).resolution(s as int, key) matches Some((_, f)) && f matches Factory::Lazy {
                instance: None,
                ..
            }),
            r ==> (old(self).resolution(s as int, key) matches Some((o, f)) && f matches Factory::Lazy {
                factory,
                ..
            } && old(self).same_except_local(*final(self), o) && final(self).local(o) == old(
                self,
            ).local(o).insert(key, Factory::Lazy { factory, instance: Some(instance) })
                && final(self).generation_of(o) == old(self).generation_of(o)),
            !r ==> *final(self) == *old(self),
    {
        match self.owner(s, &key) {
            Some(o) => {
                proof {
                    self.lemma_resolution_found(s as int, key);
                }
                assert(self.storages@[o as int].wf());
                let is_pending_lazy = match self.storages[o].get(&key) {
                    Some(Factory::Lazy { instance: None, .. }) => true,
                    _ => false,
                };
                if is_pending_lazy {
                    self.storages[o].fill_lazy(&key, instance);
                    proof {
                        let ghost oo = o as int;
                        assert forall|t: int| 0 <= t < self.storages@.len() implies (
                        #[trigger] self.storages@[t]).wf() by {
                            if t != oo {
                                assert(self.storages@[t] == old(self).storages@[t]);
                            }
                        }
                        assert forall|t: int| 0 <= t < self.storages@.len() implies match (
                        #[trigger] self.storages@[t]).parent_scope() {
                            Some(p) => p < t && self.depths@[t] == self.depths@[p as int] + 1,
                            None => self.depths@[t] == 0,
                        } by {
                            if t != oo {
                                assert(self.storages@[t] == old(self).storages@[t]);
                            }
                            assert(old(self).storages@[t].parent_scope()
                                == self.storages@[t].parent_scope());
                        }
                        assert forall|t: int| 0 <= t < self.scope_count() implies #[trigger] self.parent_of(t)
                            == old(self).parent_of(t) && self.depth_of(t) == old(self).depth_of(t)
                            && self.locked(t) == old(self).locked(t) by {
                            if t != oo {
                                assert(self.storages@[t] == old(self).storages@[t]);
                            }
                        }
                        assert forall|t: int| 0 <= t < self.scope_count() && t != oo implies #[trigger] self.local(
                            t,
                        ) == old(self).local(t) by {
                            assert(self.storages@[t] == old(self).storages@[t]);
                        }
                    }
                    true
                } else {
                    false
                }
            },
            None => {
                false
            },
        }
    }

    /// Changing only the storage of scope `s` (keeping its parent) keeps the
    /// container well formed and changes only the local services of `s`.
    proof fn lemma_frame_storage(self, new: Self, s: int)
        requires
            self.wf(),
            self.valid_scope(s),
            new.storages@.len() == self.storages@.len(),
            new.depths@ == self.depths@,
            new.locks@ == self.locks@,
            forall|t: int| 0 <= t < self.storages@.len() && t != s ==> new.storages@[t] == self.storages@[t],
            new.storages@[s].wf(),
            new.storages@[s].parent_scope() == self.storages@[s].parent_scope(),
        ensures
            new.wf(),
            self.same_except_local(new, s),
            forall|t: int| 0 <= t < self.storages@.len() && t != s ==> new.generation_of(t) == self.generation_of(t),
    {
        assert forall|t: int| 0 <= t < new.storages@.len() implies (#[trigger] new.storages@[t]).wf() by {
            if t != s {
                assert(new.storages@[t] == self.storages@[t]);
            }
        }
        assert forall|t: int| 0 <= t < new.storages@.len() implies match (
        #[trigger] new.storages@[t]).parent_scope() {
            Some(p) => p < t && new.depths@[t] == new.depths@[p as int] + 1,
            None => new.depths@[t] == 0,
        } by {
            if t != s {
                assert(new.storages@[t] == self.storages@[t]);
            }
            assert(self.storages@[t].parent_scope() == new.storages@[t].parent_scope());
        }
        assert forall|t: int| 0 <= t < self.scope_count() implies #[trigger] new.parent_of(t)
            == self.parent_of(t) && new.depth_of(t) == self.depth_of(t) && new.locked(t) == self.locked(t) by {
            if t != s {
                assert(new.storages@[t] == self.storages@[t]);
            }
        }
        assert forall|t: int| 0 <= t < self.scope_count() && t != s implies #[trigger] new.local(t)
            == self.local(t) by {
            assert(new.storages@[t] == self.storages@[t]);
        }
    }

    /// Number of services registered in scope `s` (ancestors not counted).
    pub fn len(&self, s: ScopeId) -> (r: usize)
        requires
            self.wf(),
            self.valid_scope(s as int),
        ensures
            r == self.local(s as int).len(),
    {
        assert(self.storages@[s as int].wf());
        self.storages[s].len()
    }

    /// Whether nothing is registered in scope `s` itself.
    pub fn is_empty(&self, s: ScopeId) -> (r: bool)
        requires
            self.wf(),
            self.valid_scope(s as int),
        ensures
            r == (self.local(s as int).len() == 0),
    {
        assert(self.storages@[s as int].wf());
        self.storages[s].is_empty()
    }

    /// The keys registered in scope `s` itself, each once.
    pub fn registered_types(&self, s: ScopeId) -> (r: Vec<TypeId>)
        requires
            self.wf(),
            self.valid_scope(s as int),
        ensures
            r@ == self.local_keys(s as int),
            r@.no_duplicates(),
            r@.to_set() == self.local(s as int).dom(),
    {
        assert(self.storages@[s as int].wf());
        self.storages[s].type_ids()
    }

    /// Depth of scope `s` (0 for the root).
    pub fn depth(&self, s: ScopeId) -> (r: u32)
        requires
            self.wf(),
            self.valid_scope(s as int),
        ensures
            r == self.depth_of(s as int),
    {
        self.depths[s]
    }

    /// The parent of scope `s`.
    pub fn parent(&self, s: ScopeId) -> (r: Option<ScopeId>)
        requires
            self.wf(),
            self.valid_scope(s as int),
        ensures
            r matches Some(p) ==> self.parent_of(s as int) == Some(p as int),
            r is None <==> self.parent_of(s as int) is None,
    {
        self.storages[s].parent()
    }

    /// The scopes on the path from `s` to the root: `s`, its parent, its
    /// grandparent, ..., the root. A resolution from `s` looks at them in
    /// this order.
    pub fn scope_chain(&self, s: ScopeId) -> (r: Vec<ScopeId>)
        requires
            self.wf(),
            self.valid_scope(s as int),
        ensures
            r@.len() == self.depth_of(s as int) + 1,
            r@.len() >= 1,
            r@[0] == s,
            forall|i: int| 0 <= i < r@.len() ==> #[trigger] r@[i] as int == self.ancestor(s as int, i as nat),
            forall|i: int| 0 <= i < r@.len() ==> self.valid_scope(#[trigger] r@[i] as int),
            forall|i: int|
                0 <= i < r@.len() - 1 ==> self.parent_of(#[trigger] r@[i] as int) == Some(r@[i + 1] as int),
            self.parent_of(r@.last() as int) is None,
    {
        let mut r: Vec<ScopeId> = Vec::new();
        r.push(s);
        let mut cur = s;
        loop
            invariant
                self.wf(),
                self.valid_scope(cur as int),
                r@.len() >= 1,
                r@[0] == s,
                r@.last() == cur,
                r@.len() + self.depth_of(cur as int) == self.depth_of(s as int) + 1,
                forall|i: int| 0 <= i < r@.len() ==> #[trigger] r@[i] as int == self.ancestor(s as int, i as nat),
                forall|i: int| 0 <= i < r@.len() ==> self.valid_scope(#[trigger] r@[i] as int),
                forall|i: int|
                    0 <= i < r@.len() - 1 ==> self.parent_of(#[trigger] r@[i] as int) == Some(
                        r@[i + 1] as int,
                    ),
            ensures
                self.parent_of(cur as int) is None,
            decreases self.depth_of(cur as int),
        {
            proof {
                self.lemma_depth_of_child(cur as int);
            }
            match self.parent(cur) {
                Some(p) => {
                    let ghost before = r@;
                    r.push(p);
                    proof {
                        assert forall|i: int| 0 <= i < r@.len() - 1 implies self.parent_of(
                            #[trigger] r@[i] as int,
                        ) == Some(r@[i + 1] as int) by {
                            if i < before.len() - 1 {
                                assert(r@[i] == before[i] && r@[i + 1] == before[i + 1]);
                            } else {
                                assert(r@[i] == cur);
                            }
                        }
                        assert forall|i: int| 0 <= i < r@.len() implies #[trigger] r@[i] as int
                            == self.ancestor(s as int, i as nat) by {
                            if i < before.len() {
                                assert(r@[i] == before[i]);
                            } else {
                                assert(before[i - 1] == cur);
                                assert(self.ancestor(s as int, (i - 1) as nat) == cur as int);
                            }
                        }
                    }
                    cur = p;
                },
                None => {
                    break;
                },
            }
        }
        proof {
            self.lemma_depth_of_child(cur as int);
        }
        r
    }

    /// Whether scope `s` has a parent.
    pub fn has_parent(&self, s: ScopeId) -> (r: bool)
        requires
            self.wf(),
            self.valid_scope(s as int),
        ensures
            r == self.parent_of(s as int) is Some,
    {
        self.storages[s].has_parent()
    }

    /// The generation stamp of scope `s`; it changes whenever the
    /// registrations of `s` change.
    pub fn generation(&self, s: ScopeId) -> (r: u64)
        requires
            self.wf(),
            self.valid_scope(s as int),
        ensures
            r == self.generation_of(s as int),
    {
        self.storages[s].generation()
    }

    /// Whether the service registered under `key` in scope `s` itself is
    /// transient.
    pub fn is_transient(&self, s: ScopeId, key: &TypeId) -> (r: bool)
        requires
            self.wf(),
            self.valid_scope(s as int),
        ensures
            r == (self.local(s as int).contains_key(*key) && self.local(s as int)[*key] is Transient),
    {
        assert(self.storages@[s as int].wf());
        self.storages[s].is_transient(key)
    }

    /// The local keys of scope `s` are its registered keys, each once, and
    /// each maps to its registration.
    pub proof fn lemma_local_keys(self, s: int)
        requires
            self.wf(),
            self.valid_scope(s),
        ensures
            self.local_keys(s).no_duplicates(),
            self.local(s).dom() == self.local_keys(s).to_set(),
            self.local(s).len() == self.local_keys(s).len(),
            forall|i: int|
                0 <= i < self.local_keys(s).len() ==> self.local(s).contains_key(
                    #[trigger] self.local_keys(s)[i],
                ),
    {
        assert(self.storages@[s].wf());
        self.storages@[s].lemma_domain();
        assert forall|i: int| 0 <= i < self.local_keys(s).len() implies self.local(s).contains_key(
            #[trigger] self.local_keys(s)[i],
        ) by {
            self.storages@[s].lemma_entry_at(i);
        }
    }

    /// The key at position `i` of scope `s`'s storage order.
    pub fn key_at(&self, s: ScopeId, i: usize) -> (r: TypeId)
        requires
            self.wf(),
            self.valid_scope(s as int),
            i < self.local_keys(s as int).len(),
        ensures
            r == self.local_keys(s as int)[i as int],
    {
        assert(self.storages@[s as int].wf());
        self.storages[s].key_at(i)
    }

    /// The factory registered locally in scope `s` under the key at
    /// position `i`.
    pub fn factory_at(&self, s: ScopeId, i: usize) -> (r: &Factory<S, F>)
        requires
            self.wf(),
            self.valid_scope(s as int),
            i < self.local_keys(s as int).len(),
        ensures
            *r == self.local(s as int)[self.local_keys(s as int)[i as int]],
    {
        assert(self.storages@[s as int].wf());
        self.storages[s].factory_at(i)
    }

    /// Refuse further registrations in scope `s`. Other scopes, including
    /// children of `s`, keep their own lock state.
    pub fn lock(&mut self, s: ScopeId)
        requires
            old(self).wf(),
            old(self).valid_scope(s as int),
        ensures
            final(self).wf(),
            final(self).scope_count() == old(self).scope_count(),
            final(self).locked(s as int),
            forall|t: int| 0 <= t < old(self).scope_count() ==> #[trigger] final(self).local_keys(t)
                == old(self).local_keys(t),
            forall|t: int| 0 <= t < old(self).scope_count() ==> #[trigger] final(self).local(t)
                == old(self).local(t),
            forall|t: int| 0 <= t < old(self).scope_count() ==> #[trigger] final(self).parent_of(t)
                == old(self).parent_of(t),
            forall|t: int| 0 <= t < old(self).scope_count() ==> #[trigger] final(self).depth_of(t)
                == old(self).depth_of(t),
            forall|t: int| 0 <= t < old(self).scope_count() ==> #[trigger] final(self).generation_of(t)
                == old(self).generation_of(t),
            forall|t: int|
                0 <= t < old(self).scope_count() && t != s ==> #[trigger] final(self).locked(t)
                    == old(self).locked(t),
    {
        self.locks.set(s, true);
    }

    /// Whether scope `s` refuses registrations.
    pub fn is_locked(&self, s: ScopeId) -> (r: bool)
        requires
            self.wf(),
            self.valid_scope(s as int),
        ensures
            r == self.locked(s as int),
    {
        self.locks[s]
    }

    /// Allow registrations in scope `s` again.
    pub(crate) fn unlock(&mut self, s: ScopeId)
        requires
            old(self).wf(),
            old(self).valid_scope(s as int),
        ensures
            final(self).wf(),
            final(self).scope_count() == old(self).scope_count(),
            !final(self).locked(s as int),
            forall|t: int| 0 <= t < old(self).scope_count() ==> #[trigger] final(self).local(t)
                == old(self).local(t),
            forall|t: int| 0 <= t < old(self).scope_count() ==> #[trigger] final(self).parent_of(t)
                == old(self).parent_of(t),
            forall|t: int| 0 <= t < old(self).scope_count() ==> #[trigger] final(self).depth_of(t)
                == old(self).depth_of(t),
            forall|t: int| 0 <= t < old(self).scope_count() ==> #[trigger] final(self).generation_of(t)
                == old(self).generation_of(t),
            forall|t: int|
                0 <= t < old(self).scope_count() && t != s ==> #[trigger] final(self).locked(t)
                    == old(self).locked(t),
    {
        self.locks.set(s, false);
    }

    /// Remove every service registered in scope `s`. Ancestors and
    /// descendants keep theirs, so resolutions from `s` fall through to its
    /// ancestors.
    pub fn clear(&mut self, s: ScopeId)
        requires
            old(self).wf(),
            old(self).valid_scope(s as int),
        ensures
            final(self).wf(),
            old(self).same_except_local(*final(self), s as int),
            final(self).local(s as int) == Map::<TypeId, Factory<S, F>>::empty(),
            final(self).generation_of(s as int) != old(self).generation_of(s as int),
    {
        assert(self.storages@[s as int].wf());
        self.storages[s].clear();
        proof {
            old(self).lemma_frame_storage(*self, s as int);
        }
    }

    /// Remove the registration of `key` from scope `s` itself; `true` if
    /// there was one.
    pub fn remove(&mut self, s: ScopeId, key: &TypeId) -> (r: bool)
        requires
            old(self).wf(),
            old(self).valid_scope(s as int),
        ensures
            final(self).wf(),
            r == old(self).local(s as int).contains_key(*key),
            old(self).same_except_local(*final(self), s as int),
            final(self).local(s as int) == old(self).local(s as int).remove(*key),
            r ==> final(self).generation_of(s as int) != old(self).generation_of(s as int),
    {
        assert(self.storages@[s as int].wf());
        let r = self.storages[s].remove(key);
        proof {
            old(self).lemma_frame_storage(*self, s as int);
        }
        r
    }
}


/// Changes to the services of scope `s` are invisible to every scope that
/// does not have `s` on its path to the root (its ancestors, siblings and
/// unrelated scopes), and invisible for every key whose registration in `s`
/// did not change.
pub proof fn law_local_change_invisible_outside_subtree<S, F>(
    before: Container<S, F>,
    after: Container<S, F>,
    s: int,
    t: int,
    key: TypeId,
)
    requires
        before.same_except_local(after, s),
        before.valid_scope(t),
        !before.in_chain(s, t) || (before.local(s).contains_key(key) == after.local(s).contains_key(key)
            && (before.local(s).contains_key(key) ==> before.local(s)[key] == after.local(s)[key])),
    ensures
        after.resolution(t, key) == before.resolution(t, key),
    decreases t,
{
    if t != s {
        assert(after.local(t) == before.local(t));
    }
    assert(after.parent_of(t) == before.parent_of(t));
    if !before.local(t).contains_key(key) {
        match before.parent_of(t) {
            Some(p) => {
                if 0 <= p < t {
                    law_local_change_invisible_outside_subtree(before, after, s, p, key);
                }
            },
            None => {},
        }
    }
}

/// A registration in scope `s` is what `s` itself resolves from then on, and
/// it changes nothing that scopes outside the subtree of `s` resolve, nor
/// anything resolved under another key.
pub proof fn law_registration_scoped<S, F>(
    before: Container<S, F>,
    after: Container<S, F>,
    s: int,
    key: TypeId,
    factory: Factory<S, F>,
)
    requires
        before.valid_scope(s),
        before.same_except_local(after, s),
        after.local(s) == before.local(s).insert(key, factory),
    ensures
        after.resolution(s, key) == Some((s, factory)),
        forall|t: int, k: TypeId|
            before.valid_scope(t) && (!before.in_chain(s, t) || k != key) ==> #[trigger] after.resolution(t, k)
                == before.resolution(t, k),
{
    assert forall|t: int, k: TypeId|
        before.valid_scope(t) && (!before.in_chain(s, t) || k != key) implies #[trigger] after.resolution(t, k)
        == before.resolution(t, k) by {
        law_local_change_invisible_outside_subtree(before, after, s, t, k);
    }
}

/// A scope resolves every key it has registered to its own registration,
/// overriding those of its ancestors; a key it has not registered resolves
/// as from its parent.
pub proof fn law_nearest_scope_wins<S, F>(c: Container<S, F>, s: int, key: TypeId)
    requires
        c.wf(),
        c.valid_scope(s),
    ensures
        c.local(s).contains_key(key) ==> c.resolution(s, key) == Some((s, c.local(s)[key])),
        !c.local(s).contains_key(key) ==> match c.parent_of(s) {
            Some(p) => c.resolution(s, key) == c.resolution(p, key),
            None => c.resolution(s, key) is None,
        },
{
    reveal_with_fuel(Container::resolution, 1);
    if !c.local(s).contains_key(key) {
        match c.parent_of(s) {
            Some(p) => {
                assert(c.storages@[s].wf());
            },
            None => {},
        }
    }
}

/// Adding scopes changes nothing that existing scopes resolve.
pub proof fn law_new_scopes_invisible<S, F>(
    before: Container<S, F>,
    after: Container<S, F>,
    t: int,
    key: TypeId,
)
    requires
        before.extends(after),
        before.valid_scope(t),
    ensures
        after.resolution(t, key) == before.resolution(t, key),
    decreases t,
{
    if !before.local(t).contains_key(key) {
        match before.parent_of(t) {
            Some(p) => {
                if 0 <= p < t {
                    law_new_scopes_invisible(before, after, p, key);
                }
            },
            None => {},
        }
    }
}

/// After a registration changes the factory of `key` in scope `o`, every
/// scope whose resolution of `key` found `o` before finds the new factory
/// of `o`: scopes share the registration they resolve to.
pub proof fn law_shared_registration<S, F>(
    before: Container<S, F>,
    after: Container<S, F>,
    o: int,
    t: int,
    key: TypeId,
)
    requires
        before.same_except_local(after, o),
        after.local(o).contains_key(key),
        before.resolution(t, key) matches Some((o2, _)) && o2 == o,
    ensures
        after.resolution(t, key) == Some((o, after.local(o)[key])),
    decreases t,
{
    if t != o {
        assert(after.local(t) == before.local(t));
        assert(after.parent_of(t) == before.parent_of(t));
        match before.parent_of(t) {
            Some(p) => {
                if 0 <= p < t {
                    law_shared_registration(before, after, o, p, key);
                }
            },
            None => {},
        }
    }
}

/// Once the instance of a lazy service has been recorded, every scope that
/// resolves to that registration gets that instance, and no factory has to
/// run again for it.
pub proof fn law_lazy_instance_shared<S, F>(
    before: Container<S, F>,
    after: Container<S, F>,
    s: int,
    t: int,
    key: TypeId,
    factory: F,
    instance: S,
)
    requires
        before.resolution(s, key) matches Some((o, f)) && f == (Factory::<S, F>::Lazy {
            factory,
            instance: None,
        }) && before.same_except_local(after, o) && after.local(o) == before.local(o).insert(
            key,
            Factory::Lazy { factory, instance: Some(instance) },
        ),
        before.resolution(t, key) == before.resolution(s, key),
    ensures
        after.resolution(t, key) matches Some((_, g)) && g.ready() == Some(instance) && g.pending()
            is None,
{
    let o = before.resolution(s, key).unwrap().0;
    law_shared_registration(before, after, o, t, key);
}

/// A cleared scope resolves every key as its parent does (the root then
/// resolves nothing), while scopes outside its subtree are unaffected.
pub proof fn law_clear_falls_through<S, F>(
    before: Container<S, F>,
    after: Container<S, F>,
    s: int,
    key: TypeId,
)
    requires
        before.wf(),
        after.wf(),
        before.valid_scope(s),
        before.same_except_local(after, s),
        after.local(s) == Map::<TypeId, Factory<S, F>>::empty(),
    ensures
        match after.parent_of(s) {
            Some(p) => after.resolution(s, key) == before.resolution(p, key),
            None => after.resolution(s, key) is None,
        },
        forall|t: int|
            before.valid_scope(t) && !before.in_chain(s, t) ==> #[trigger] after.resolution(t, key)
                == before.resolution(t, key),
{
    law_nearest_scope_wins(after, s, key);
    match after.parent_of(s) {
        Some(p) => {
            assert(after.storages@[s].wf());
            assert(p < s);
            assert(!before.in_chain(s, p)) by {
                before.lemma_chain_below(s, p);
            }
            law_local_change_invisible_outside_subtree(before, after, s, p, key);
        },
        None => {},
    }
    assert forall|t: int| before.valid_scope(t) && !before.in_chain(s, t) implies #[trigger] after.resolution(
        t,
        key,
    ) == before.resolution(t, key) by {
        law_local_change_invisible_outside_subtree(before, after, s, t, key);
    }
}

/// Locking refuses registrations and nothing else: a container that differs
/// from another only in which scopes are locked resolves every key from
/// every scope the same way.
pub proof fn law_lock_changes_no_resolution<S, F>(
    before: Container<S, F>,
    after: Container<S, F>,
    t: int,
    key: TypeId,
)
    requires
        after.scope_count() == before.scope_count(),
        forall|u: int| 0 <= u < before.scope_count() ==> #[trigger] after.local(u) == before.local(u),
        forall|u: int| 0 <= u < before.scope_count() ==> #[trigger] after.parent_of(u) == before.parent_of(u),
    ensures
        after.resolution(t, key) == before.resolution(t, key),
    decreases t,
{
    if before.valid_scope(t) {
        assert(after.local(t) == before.local(t));
        assert(after.parent_of(t) == before.parent_of(t));
        if !before.local(t).contains_key(key) {
            match before.parent_of(t) {
                Some(p) => {
                    if 0 <= p < t {
                        law_lock_changes_no_resolution(before, after, p, key);
                    }
                },
                None => {},
            }
        }
    }
}

/// A batch registers every key it names, the last registration of a key in
/// the batch winning (as registering them one by one would), and leaves
/// every key it does not name as it was.
pub proof fn law_batch_last_registration_wins<S, F>(
    m: Map<TypeId, Factory<S, F>>,
    regs: Seq<(TypeId, Factory<S, F>)>,
    k: TypeId,
)
    ensures
        (forall|i: int| 0 <= i < regs.len() ==> regs[i].0 != k) ==> apply_all(m, regs).contains_key(k)
            == m.contains_key(k) && (m.contains_key(k) ==> apply_all(m, regs)[k] == m[k]),
        forall|i: int|
            0 <= i < regs.len() && (#[trigger] regs[i]).0 == k && (forall|j: int| i < j < regs.len() ==> regs[j].0
                != k) ==> apply_all(m, regs).contains_key(k) && apply_all(m, regs)[k] == regs[i].1,
    decreases regs.len(),
{
    if regs.len() > 0 {
        let pre = regs.drop_last();
        let n = regs.len() - 1;
        law_batch_last_registration_wins(m, pre, k);
        if regs[n].0 != k {
            assert forall|i: int|
                0 <= i < regs.len() && (#[trigger] regs[i]).0 == k && (forall|j: int|
                    i < j < regs.len() ==> regs[j].0 != k) implies apply_all(m, regs).contains_key(k)
                && apply_all(m, regs)[k] == regs[i].1 by {
                assert(i < n);
                assert(pre[i] == regs[i]);
                assert forall|j: int| i < j < pre.len() implies pre[j].0 != k by {
                    assert(pre[j] == regs[j]);
                }
            }
            if forall|i: int| 0 <= i < regs.len() ==> regs[i].0 != k {
                assert forall|i: int| 0 <= i < pre.len() implies pre[i].0 != k by {
                    assert(pre[i] == regs[i]);
                }
            }
        } else {
            assert forall|i: int|
                0 <= i < regs.len() && (#[trigger] regs[i]).0 == k && (forall|j: int|
                    i < j < regs.len() ==> regs[j].0 != k) implies apply_all(m, regs).contains_key(k)
                && apply_all(m, regs)[k] == regs[i].1 by {
                if i < n {
                    assert(regs[n].0 == k);
                }
            }
        }
    }
}

} // verus!
