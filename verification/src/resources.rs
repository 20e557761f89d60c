use vstd::prelude::*;

verus! {

/// A bitset over resource kinds: one bit per kind, used for both `reads`
/// and `writes` declarations.
pub type ResourceMask = u64;

/// How many distinct resource kinds a mask can tell apart.
pub const MASK_CAPACITY: usize = 64;

/// Implemented by values that can say which resource kind they belong to,
/// as the single mask bit assigned to that kind.
pub trait Resource {
    /// The mask bit under which this value is stored in a world.
    fn mask(&self) -> ResourceMask;
}

/// The caller-owned table that assigns each distinct resource kind a unique
/// bit of a [`ResourceMask`], lazily, the first time the kind is requested.
///
/// A kind is named by an arbitrary caller-chosen key. A key's bit is stable
/// for the life of the table once assigned, and assignment is idempotent.
pub struct ResourceAccess {
    pub(crate) kinds: Vec<u64>,
}

impl ResourceAccess {
    /// The keys that have been assigned bits, in assignment order: the key
    /// at position `i` owns bit `i`.
    pub open(crate) spec fn view_keys(self) -> Seq<u64> {
        self.kinds@
    }

    /// No key is assigned two bits, and no more kinds exist than a mask has
    /// bits.
    pub open(crate) spec fn wf(self) -> bool {
        &&& forall|i: int, j: int|
            0 <= i < j < self.kinds@.len() ==> self.kinds@[i] != self.kinds@[j]
        &&& self.kinds@.len() <= MASK_CAPACITY
    }

    /// Whether `key` has been assigned a bit.
    pub open(crate) spec fn spec_contains(self, key: u64) -> bool {
        self.view_keys().contains(key)
    }

    /// The mask bit assigned to `key`, assuming it has one.
    pub open(crate) spec fn mask_of(self, key: u64) -> ResourceMask {
        1u64 << self.view_keys().index_of(key)
    }

    /// An empty table: no kind has a bit yet.
    pub fn new() -> (r: ResourceAccess)
        ensures
            r.view_keys().len() == 0,
            r.wf(),
    {
        ResourceAccess { kinds: Vec::new() }
    }

    /// The mask bit assigned to the kind named `key`, assigning the next
    /// free bit on first use. `None` once more distinct kinds are requested
    /// than the mask has bits: capacity is exhausted and the configuration
    /// cannot be completed.
    pub fn kind_mask(&mut self, key: u64) -> (m: Option<ResourceMask>)
        requires
            old(self).wf(),
        ensures
            final(self).wf(),
            old(self).spec_contains(key) ==> {
                &&& *final(self) == *old(self)
                &&& m == Some(old(self).mask_of(key))
            },
            !old(self).spec_contains(key) && old(self).view_keys().len() < MASK_CAPACITY ==> {
                &&& final(self).view_keys() == old(self).view_keys().push(key)
                &&& m == Some(1u64 << old(self).view_keys().len())
            },
            !old(self).spec_contains(key) && old(self).view_keys().len() >= MASK_CAPACITY ==> {
                &&& *final(self) == *old(self)
                &&& m == None::<ResourceMask>
            },
            m matches Some(b) ==> final(self).spec_contains(key) && b == final(self).mask_of(key),
    {
        let n = self.kinds.len();
        let mut i: usize = 0;
        while i < n
            invariant
                0 <= i <= n,
                n == self.kinds@.len(),
                forall|k: int| 0 <= k < i ==> self.kinds@[k] != key,
                self.wf(),
            decreases n - i,
        {
            if self.kinds[i] == key {
                proof {
                    assert(self.view_keys()[i as int] == key);
                    assert(self.spec_contains(key));
                    lemma_index_of_unique(self.view_keys(), key, i as int);
                }
                return Some(1u64 << i);
            }
            i += 1;
        }
        proof {
            assert forall|k: int| 0 <= k < self.kinds@.len() implies self.kinds@[k] != key by {}
            assert(!self.spec_contains(key));
        }
        if n >= MASK_CAPACITY {
            return None;
        }
        self.kinds.push(key);
        proof {
            assert(self.view_keys()[n as int] == key);
            assert(self.spec_contains(key));
            lemma_index_of_unique(self.view_keys(), key, n as int);
        }
        Some(1u64 << n)
    }
}

/// In a sequence with no duplicates, an index holding `key` is the index
/// that `index_of` names.
proof fn lemma_index_of_unique(s: Seq<u64>, key: u64, i: int)
    requires
        forall|a: int, b: int| 0 <= a < b < s.len() ==> s[a] != s[b],
        0 <= i < s.len(),
        s[i] == key,
    ensures
        s.index_of(key) == i,
{
    assert(s.contains(key));
    let j = s.index_of(key);
    assert(s[j] == key);
    if i < j {
        assert(s[i] != s[j]);
    } else if j < i {
        assert(s[j] != s[i]);
    }
}

} // verus!
