//! A small direct-mapped cache of resolved services.
//!
//! The cache has four slots. A service is cached under the hash of its key
//! and the identity of the scope it was resolved from; the slot is chosen by
//! mixing the two with a rotation and a multiplication by the 64-bit golden
//! ratio. A lookup hits only when the slot holds an entry with the same hash
//! and scope identity.

use vstd::prelude::*;

verus! {

/// Number of slots (a power of two, so that a mask selects the slot).
pub const HOT_CACHE_SLOTS: usize = 4;

/// The 64-bit golden ratio constant used to spread slot indices.
pub const GOLDEN_RATIO_64: u64 = 0x9e3779b97f4a7c15;

/// `x` rotated left by 32 bits.
pub open spec fn rotate_left_32(x: u64) -> u64 {
    (x << 32u64) | (x >> 32u64)
}

/// The slot that caches the service with key hash `type_hash` resolved from
/// the scope identified by `storage_ptr`.
pub open spec fn slot_of(type_hash: u64, storage_ptr: usize) -> int {
    let mixed = type_hash ^ rotate_left_32(storage_ptr as u64);
    let spread = ((mixed as int * GOLDEN_RATIO_64 as int) % 0x1_0000_0000_0000_0000) as u64;
    ((spread as usize) & 3usize) as int
}

/// Every slot index is one of the four slots.
pub proof fn lemma_slot_in_range(type_hash: u64, storage_ptr: usize)
    ensures
        0 <= slot_of(type_hash, storage_ptr) < HOT_CACHE_SLOTS,
{
    let mixed = type_hash ^ rotate_left_32(storage_ptr as u64);
    let spread = ((mixed as int * GOLDEN_RATIO_64 as int) % 0x1_0000_0000_0000_0000) as u64;
    assert((spread as usize) & 3usize < 4usize) by (bit_vector);
}

/// A cached service.
pub struct CacheEntry<S> {
    /// Hash of the service's key.
    pub type_hash: u64,
    /// Identity of the scope the service was resolved from.
    pub storage_ptr: usize,
    /// The cached service.
    pub service: S,
}

/// A four-slot direct-mapped cache. Its entries belong to one epoch: moving
/// it to another epoch empties it.
pub struct HotCache<S> {
    entries: [Option<CacheEntry<S>>; 4],
    epoch: u64,
}

/// One operation on a cache.
pub enum CacheOp<S> {
    /// Cache `service` for `(type_hash, storage_ptr)`.
    Insert { type_hash: u64, storage_ptr: usize, service: S },
    /// Empty the cache.
    Clear,
}

/// What a lookup of `(h, p)` finds after the operations `ops`, applied to
/// an empty cache: the service of the latest insert into the slot of
/// `(h, p)` since the last clear, when that insert was for `(h, p)` itself;
/// nothing otherwise.
pub open spec fn replay<S>(ops: Seq<CacheOp<S>>, h: u64, p: usize) -> Option<S>
    decreases ops.len(),
{
    if ops.len() == 0 {
        None
    } else {
        match ops.last() {
            CacheOp::Clear => None,
            CacheOp::Insert { type_hash, storage_ptr, service } => if slot_of(type_hash, storage_ptr)
                == slot_of(h, p) {
                if type_hash == h && storage_ptr == p {
                    Some(service)
                } else {
                    None
                }
            } else {
                replay(ops.drop_last(), h, p)
            },
        }
    }
}

/// The slot index for a key hash and a scope identity.
pub fn slot_for_hash(type_hash: u64, storage_ptr: usize) -> (r: usize)
    ensures
        r == slot_of(type_hash, storage_ptr),
        r < HOT_CACHE_SLOTS,
{
    let p = storage_ptr as u64;
    let rotated = (p << 32u64) | (p >> 32u64);
    let mixed = type_hash ^ rotated;
    let spread = mixed.wrapping_mul(GOLDEN_RATIO_64);
    let r = (spread as usize) & (HOT_CACHE_SLOTS - 1);
    assert(r < 4) by (bit_vector)
        requires
            r == (spread as usize) & 3usize,
    ;
    r
}

impl<S> HotCache<S> {
    /// The service cached for `(type_hash, storage_ptr)`, if any.
    pub closed spec fn lookup(self, type_hash: u64, storage_ptr: usize) -> Option<S> {
        match self.entries[slot_of(type_hash, storage_ptr)] {
            Some(e) => if e.type_hash == type_hash && e.storage_ptr == storage_ptr {
                Some(e.service)
            } else {
                None
            },
            None => None,
        }
    }

    /// The epoch the cached entries belong to.
    pub closed spec fn cache_epoch(self) -> u64 {
        self.epoch
    }

    /// Whether nothing is cached.
    pub open spec fn holds_nothing(self) -> bool {
        forall|h: u64, p: usize| #[trigger] self.lookup(h, p) is None
    }

    /// `next` is what operation `op` makes of `self`, as far as lookups
    /// see: an insert caches its service, evicts the other entries of its
    /// slot and leaves the other slots alone; a clear empties the cache.
    pub open spec fn step(self, op: CacheOp<S>, next: Self) -> bool {
        match op {
            CacheOp::Insert { type_hash, storage_ptr, service } => {
                &&& next.lookup(type_hash, storage_ptr) == Some(service)
                &&& forall|h: u64, p: usize|
                    slot_of(h, p) == slot_of(type_hash, storage_ptr) && (h != type_hash || p != storage_ptr)
                        ==> #[trigger] next.lookup(h, p) is None
                &&& forall|h: u64, p: usize|
                    slot_of(h, p) != slot_of(type_hash, storage_ptr) ==> #[trigger] next.lookup(h, p)
                        == self.lookup(h, p)
            },
            CacheOp::Clear => next.holds_nothing(),
        }
    }

    /// An empty cache, in epoch 0.
    pub fn new() -> (r: Self)
        ensures
            forall|h: u64, p: usize| #[trigger] r.lookup(h, p) is None,
            r.cache_epoch() == 0,
    {
        let r = HotCache { entries: [None, None, None, None], epoch: 0 };
        assert forall|h: u64, p: usize| #[trigger] r.lookup(h, p) is None by {
            lemma_slot_in_range(h, p);
        }
        r
    }

    /// The service cached for `(type_hash, storage_ptr)`.
    pub fn get(&self, type_hash: u64, storage_ptr: usize) -> (r: Option<&S>)
        ensures
            r matches Some(s) ==> self.lookup(type_hash, storage_ptr) == Some(*s),
            r is None <==> self.lookup(type_hash, storage_ptr) is None,
    {
        let slot = slot_for_hash(type_hash, storage_ptr);
        match &self.entries[slot] {
            Some(e) => {
                if e.type_hash == type_hash && e.storage_ptr == storage_ptr {
                    Some(&e.service)
                } else {
                    None
                }
            },
            None => None,
        }
    }

    /// Cache `service` for `(type_hash, storage_ptr)`. This evicts whatever
    /// occupied the same slot and leaves the other slots alone.
    pub fn insert(&mut self, type_hash: u64, storage_ptr: usize, service: S)
        ensures
            old(self).step(CacheOp::Insert { type_hash, storage_ptr, service }, *final(self)),
            final(self).cache_epoch() == old(self).cache_epoch(),
            final(self).lookup(type_hash, storage_ptr) == Some(service),
            forall|h: u64, p: usize|
                slot_of(h, p) == slot_of(type_hash, storage_ptr) && (h != type_hash || p != storage_ptr)
                    ==> #[trigger] final(self).lookup(h, p) is None,
            forall|h: u64, p: usize|
                slot_of(h, p) != slot_of(type_hash, storage_ptr) ==> #[trigger] final(self).lookup(h, p)
                    == old(self).lookup(h, p),
    {
        let slot = slot_for_hash(type_hash, storage_ptr);
        self.entries[slot] = Some(CacheEntry { type_hash, storage_ptr, service });
        assert forall|h: u64, p: usize|
            slot_of(h, p) != slot_of(type_hash, storage_ptr) implies #[trigger] self.lookup(h, p)
            == old(self).lookup(h, p) by {
            lemma_slot_in_range(h, p);
        }
    }

    /// Empty the cache.
    pub fn clear(&mut self)
        ensures
            forall|h: u64, p: usize| #[trigger] final(self).lookup(h, p) is None,
            old(self).step(CacheOp::Clear, *final(self)),
            final(self).cache_epoch() == old(self).cache_epoch(),
    {
        self.entries = [None, None, None, None];
        assert forall|h: u64, p: usize| #[trigger] self.lookup(h, p) is None by {
            lemma_slot_in_range(h, p);
        }
    }

    /// Move the cache to epoch `epoch`: entries of another epoch are
    /// dropped (as by a clear); in the same epoch nothing changes.
    pub fn sync_epoch(&mut self, epoch: u64)
        ensures
            final(self).cache_epoch() == epoch,
            old(self).cache_epoch() != epoch ==> old(self).step(CacheOp::Clear, *final(self)),
            old(self).cache_epoch() == epoch ==> *final(self) == *old(self),
    {
        if self.epoch != epoch {
            self.clear();
            let ghost cleared = *self;
            self.epoch = epoch;
            assert forall|h: u64, p: usize| #[trigger] self.lookup(h, p) is None by {
                assert(self.entries == cleared.entries);
                assert(cleared.lookup(h, p) is None);
            }
        }
    }

    /// Cache `service` for `(type_hash, storage_ptr)` if the cache is still
    /// in epoch `epoch` (the epoch in which the service was resolved);
    /// `true` if it was cached. Otherwise nothing changes.
    pub fn insert_in_epoch(&mut self, epoch: u64, type_hash: u64, storage_ptr: usize, service: S) -> (r: bool)
        ensures
            r == (old(self).cache_epoch() == epoch),
            r ==> old(self).step(CacheOp::Insert { type_hash, storage_ptr, service }, *final(self)),
            !r ==> *final(self) == *old(self),
            final(self).cache_epoch() == old(self).cache_epoch(),
    {
        if self.epoch == epoch {
            self.insert(type_hash, storage_ptr, service);
            true
        } else {
            false
        }
    }
}

/// Whatever sequence of inserts and clears a cache went through since it
/// was empty, a lookup finds the service of the latest insert into the
/// slot of the key since the last clear, when that insert was for the same
/// key hash and scope identity, and nothing otherwise.
pub proof fn law_cache_history<S>(ops: Seq<CacheOp<S>>, caches: Seq<HotCache<S>>)
    requires
        caches.len() == ops.len() + 1,
        caches[0].holds_nothing(),
        forall|i: int| 0 <= i < ops.len() ==> #[trigger] caches[i].step(ops[i], caches[i + 1]),
    ensures
        forall|h: u64, p: usize| #[trigger] caches.last().lookup(h, p) == replay(ops, h, p),
    decreases ops.len(),
{
    if ops.len() > 0 {
        let n = ops.len() - 1;
        let pre_ops = ops.drop_last();
        let pre = caches.drop_last();
        assert forall|i: int| 0 <= i < pre_ops.len() implies #[trigger] pre[i].step(pre_ops[i], pre[i + 1]) by {
            assert(caches[i].step(ops[i], caches[i + 1]));
        }
        law_cache_history(pre_ops, pre);
        assert(caches[n].step(ops[n], caches[n + 1]));
        assert forall|h: u64, p: usize| #[trigger] caches.last().lookup(h, p) == replay(ops, h, p) by {
            assert(pre.last() == caches[n]);
            assert(pre.last().lookup(h, p) == replay(pre_ops, h, p));
            lemma_slot_in_range(h, p);
        }
    } else {
        assert forall|h: u64, p: usize| #[trigger] caches.last().lookup(h, p) == replay(ops, h, p) by {
            assert(caches[0].lookup(h, p) is None);
        }
    }
}

} // verus!
