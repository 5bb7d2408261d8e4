//! A pool of reusable child scopes.
//!
//! Creating a scope allocates its storage. A [`ScopePool`] keeps child
//! scopes of one parent that are not in use; [`ScopePool::acquire`] hands
//! one out (creating a new one when the pool is empty) and
//! [`ScopePool::release`] clears it, unlocks it and puts it back.

use crate::container::{law_nearest_scope_wins, Container, ScopeId};
use crate::storage::Factory;
use std::any::TypeId;
use vstd::prelude::*;

verus! {

/// Child scopes of one parent scope that are ready for reuse.
pub struct ScopePool {
    parent: ScopeId,
    available: Vec<ScopeId>,
    parent_depth: u32,
}

impl ScopePool {
    /// The scope whose children the pool holds.
    pub closed spec fn parent_scope(self) -> int {
        self.parent as int
    }

    /// The scopes ready to be handed out.
    pub closed spec fn available_scopes(self) -> Seq<ScopeId> {
        self.available@
    }

    /// Whether scope `s` is a clean child of the pool's parent: it has the
    /// pool's parent as parent, nothing registered, and no lock.
    pub open spec fn is_clean_child<S, F>(self, c: Container<S, F>, s: int) -> bool {
        &&& c.valid_scope(s)
        &&& c.parent_of(s) == Some(self.parent_scope())
        &&& c.local(s) == Map::<TypeId, Factory<S, F>>::empty()
        &&& !c.locked(s)
    }

    /// The pool belongs to container `c`: its parent is a scope of `c` one
    /// level above the scopes it hands out, and every available scope is a
    /// distinct clean child of that parent.
    pub closed spec fn wf_for<S, F>(self, c: Container<S, F>) -> bool {
        &&& c.wf()
        &&& c.valid_scope(self.parent as int)
        &&& c.depth_of(self.parent as int) == self.parent_depth
        &&& self.available@.no_duplicates()
        &&& forall|i: int|
            0 <= i < self.available@.len() ==> self.is_clean_child(c, #[trigger] self.available@[i] as int)
    }

    /// A pool of `capacity` fresh child scopes of `parent`.
    pub fn new<S, F>(container: &mut Container<S, F>, parent: ScopeId, capacity: usize) -> (r: Self)
        requires
            old(container).wf(),
            old(container).valid_scope(parent as int),
            capacity > 0 ==> old(container).depth_of(parent as int) < u32::MAX,
        ensures
            final(container).wf(),
            r.wf_for(*final(container)),
            r.parent_scope() == parent,
            r.available_scopes().len() == capacity,
            old(container).extends(*final(container)),
    {
        let parent_depth = container.depth(parent);
        let mut available: Vec<ScopeId> = Vec::with_capacity(capacity);
        let mut i: usize = 0;
        while i < capacity
            invariant
                container.wf(),
                old(container).extends(*container),
                container.valid_scope(parent as int),
                container.depth_of(parent as int) == parent_depth,
                capacity > 0 ==> parent_depth < u32::MAX,
                i <= capacity,
                available@.len() == i,
                available@.no_duplicates(),
                forall|j: int|
                    0 <= j < available@.len() ==> (#[trigger] available@[j]) < container.scope_count(),
                forall|j: int|
                    0 <= j < available@.len() ==> {
                        let s = #[trigger] available@[j] as int;
                        &&& container.valid_scope(s)
                        &&& container.parent_of(s) == Some(parent as int)
                        &&& container.local(s) == Map::<TypeId, Factory<S, F>>::empty()
                        &&& !container.locked(s)
                    },
            decreases capacity - i,
        {
            let ghost before = *container;
            let child = container.scope(parent);
            available.push(child);
            i = i + 1;
            proof {
                assert(before.extends(*container));
                assert(available@.no_duplicates()) by {
                    assert forall|a: int, b: int|
                        0 <= a < available@.len() && 0 <= b < available@.len() && a != b implies available@[a]
                        != available@[b] by {
                        if a == available@.len() - 1 {
                            assert(available@[b] < before.scope_count());
                        }
                        if b == available@.len() - 1 {
                            assert(available@[a] < before.scope_count());
                        }
                    }
                }
                assert forall|j: int| 0 <= j < available@.len() implies {
                    let s = #[trigger] available@[j] as int;
                    &&& container.valid_scope(s)
                    &&& container.parent_of(s) == Some(parent as int)
                    &&& container.local(s) == Map::<TypeId, Factory<S, F>>::empty()
                    &&& !container.locked(s)
                } by {
                    let s = available@[j] as int;
                    if j < available@.len() - 1 {
                        assert(before.local(s) == container.local(s));
                    }
                }
            }
        }
        let r = ScopePool { parent, available, parent_depth };
        assert forall|j: int| 0 <= j < r.available@.len() implies r.is_clean_child(
            *container,
            #[trigger] r.available@[j] as int,
        ) by {
            let s = r.available@[j] as int;
        }
        r
    }

    /// Hand out a clean child scope of the pool's parent: one from the pool
    /// if any is available, else a newly created one.
    pub fn acquire<S, F>(&mut self, container: &mut Container<S, F>) -> (r: ScopeId)
        requires
            old(self).wf_for(*old(container)),
            old(container).depth_of(old(self).parent_scope()) < u32::MAX,
        ensures
            final(container).wf(),
            final(self).wf_for(*final(container)),
            final(self).parent_scope() == old(self).parent_scope(),
            old(self).is_clean_child(*final(container), r as int),
            old(self).parent_scope() < r,
            forall|key: TypeId|
                #[trigger] final(container).resolution(r as int, key) == final(container).resolution(
                    old(self).parent_scope(),
                    key,
                ),
            final(container).depth_of(r as int) == final(container).depth_of(old(self).parent_scope()) + 1,
            !final(self).available_scopes().contains(r),
            old(container).extends(*final(container)),
            old(self).available_scopes().len() > 0 ==> r == old(self).available_scopes().last()
                && final(self).available_scopes() == old(self).available_scopes().drop_last()
                && *final(container) == *old(container),
            old(self).available_scopes().len() == 0 ==> r == old(container).scope_count()
                && final(self).available_scopes().len() == 0,
    {
        proof {
            assert(container.extends(*container));
        }
        let r = match self.available.pop() {
            Some(s) => {
                proof {
                    let n = old(self).available@.len() - 1;
                    assert(old(self).available@[n] == s);
                    assert(old(self).is_clean_child(*container, old(self).available@[n] as int));
                    assert(self.available@ =~= old(self).available@.drop_last());
                    assert(!self.available@.contains(s)) by {
                        if self.available@.contains(s) {
                            let k = choose|k: int| 0 <= k < self.available@.len() && self.available@[k] == s;
                            assert(old(self).available@[k] == old(self).available@[n]);
                        }
                    }
                    assert forall|i: int| 0 <= i < self.available@.len() implies self.is_clean_child(
                        *container,
                        #[trigger] self.available@[i] as int,
                    ) by {
                        assert(old(self).available@[i] == self.available@[i]);
                    }
                    assert(container.wf());
                    container.lemma_depth_of_child(s as int);
                }
                s
            },
            None => {
                let ghost before = *container;
                let child = container.scope(self.parent);
                proof {
                    assert(self.available@.len() == 0);
                    assert(self.available@ =~= old(self).available@);
                }
                child
            },
        };
        proof {
            assert forall|key: TypeId|
                #[trigger] container.resolution(r as int, key) == container.resolution(
                    old(self).parent_scope(),
                    key,
                ) by {
                law_nearest_scope_wins(*container, r as int, key);
            }
        }
        r
    }

    /// Return scope `s` to the pool: its registrations are removed and its
    /// lock is lifted, so the next [`ScopePool::acquire`] gets a clean scope.
    pub fn release<S, F>(&mut self, container: &mut Container<S, F>, s: ScopeId)
        requires
            old(self).wf_for(*old(container)),
            old(container).valid_scope(s as int),
            old(container).parent_of(s as int) == Some(old(self).parent_scope()),
            !old(self).available_scopes().contains(s),
        ensures
            final(container).wf(),
            final(self).wf_for(*final(container)),
            final(self).parent_scope() == old(self).parent_scope(),
            final(self).available_scopes() == old(self).available_scopes().push(s),
            final(container).scope_count() == old(container).scope_count(),
            final(container).local(s as int) == Map::<TypeId, Factory<S, F>>::empty(),
            !final(container).locked(s as int),
            forall|t: int|
                0 <= t < old(container).scope_count() && t != s ==> #[trigger] final(container).local(t)
                    == old(container).local(t) && final(container).locked(t) == old(container).locked(t),
            forall|t: int|
                0 <= t < old(container).scope_count() ==> #[trigger] final(container).parent_of(t)
                    == old(container).parent_of(t) && final(container).depth_of(t) == old(
                    container,
                ).depth_of(t),
    {
        container.clear(s);
        container.unlock(s);
        self.available.push(s);
        proof {
            assert(self.available@.no_duplicates()) by {
                assert forall|a: int, b: int|
                    0 <= a < self.available@.len() && 0 <= b < self.available@.len() && a != b implies self.available@[a]
                    != self.available@[b] by {
                    let n = self.available@.len() - 1;
                    if a == n {
                        assert(old(self).available@.contains(self.available@[b]));
                    }
                    if b == n {
                        assert(old(self).available@.contains(self.available@[a]));
                    }
                }
            }
            assert forall|i: int| 0 <= i < self.available@.len() implies self.is_clean_child(
                *container,
                #[trigger] self.available@[i] as int,
            ) by {
                if i < self.available@.len() - 1 {
                    let t = self.available@[i] as int;
                    assert(old(self).available@[i] == self.available@[i]);
                    assert(old(self).is_clean_child(*old(container), t));
                    assert(t != s);
                }
            }
        }
    }

    /// The pool stays valid for a container changed only outside the scopes
    /// it holds: new scopes may be added, and scopes that are not available
    /// in the pool (the ones handed out, among others) may change freely.
    pub proof fn lemma_wf_for_frame<S, F>(self, before: Container<S, F>, after: Container<S, F>)
        requires
            self.wf_for(before),
            after.wf(),
            before.scope_count() <= after.scope_count(),
            after.depth_of(self.parent_scope()) == before.depth_of(self.parent_scope()),
            forall|s: ScopeId|
                #![trigger self.available_scopes().contains(s)]
                self.available_scopes().contains(s) ==> {
                    &&& after.local(s as int) == before.local(s as int)
                    &&& after.parent_of(s as int) == before.parent_of(s as int)
                    &&& after.locked(s as int) == before.locked(s as int)
                },
        ensures
            self.wf_for(after),
    {
        assert forall|i: int| 0 <= i < self.available@.len() implies self.is_clean_child(
            after,
            #[trigger] self.available@[i] as int,
        ) by {
            assert(self.available_scopes().contains(self.available@[i]));
            assert(self.is_clean_child(before, self.available@[i] as int));
        }
    }

    /// Number of scopes ready to be handed out.
    pub fn available_count(&self) -> (r: usize)
        ensures
            r == self.available_scopes().len(),
    {
        self.available.len()
    }

    /// The scope whose children the pool holds.
    pub fn parent(&self) -> (r: ScopeId)
        ensures
            r == self.parent_scope(),
    {
        self.parent
    }
}

} // verus!
