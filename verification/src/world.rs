use vstd::prelude::*;
use crate::error::{WorldBorrowError, WorldBorrowMutError};
use crate::resources::ResourceMask;

verus! {

/// The access rights under which store lookups run. Inside a dispatch
/// pass the dispatcher builds one from the running system's declared
/// masks; outside a pass the unrestricted context applies, and then only
/// absence can fail a lookup.
#[derive(Clone, Copy, Debug)]
pub struct Context {
    pub(crate) reads: ResourceMask,
    pub(crate) writes: ResourceMask,
    pub(crate) active: bool,
}

impl Context {
    /// The mask this context may read under.
    pub open(crate) spec fn spec_reads(self) -> ResourceMask {
        self.reads
    }

    /// The mask this context may write under.
    pub open(crate) spec fn spec_writes(self) -> ResourceMask {
        self.writes
    }

    /// Whether this context belongs to a system running inside a pass.
    pub open(crate) spec fn spec_active(self) -> bool {
        self.active
    }

    /// The context of code running outside any dispatch pass: every
    /// access is allowed.
    pub fn unrestricted() -> (c: Context)
        ensures
            c.spec_reads() == ResourceMask::MAX,
            c.spec_writes() == ResourceMask::MAX,
            !c.spec_active(),
    {
        Context { reads: ResourceMask::MAX, writes: ResourceMask::MAX, active: false }
    }

    /// The context of a system that declared `reads` and `writes`.
    pub fn masked(reads: ResourceMask, writes: ResourceMask) -> (c: Context)
        ensures
            c.spec_reads() == reads,
            c.spec_writes() == writes,
            c.spec_active(),
    {
        Context { reads, writes, active: true }
    }
}

/// The shared resource store: one independently replaceable slot per
/// resource kind, each kind a single mask bit. Lookups check the calling
/// context's masks before touching the slot, so a system only ever
/// reaches what it declared.
pub struct World<V> {
    pub(crate) slots: Vec<(ResourceMask, V)>,
}

/// The store's contents as a map from kind to instance: a later insert of
/// a kind overwrites an earlier one.
pub open(crate) spec fn slots_map<V>(s: Seq<(ResourceMask, V)>) -> Map<ResourceMask, V>
    decreases s.len(),
{
    if s.len() == 0 {
        Map::empty()
    } else {
        slots_map(s.drop_last()).insert(s.last().0, s.last().1)
    }
}

/// Each slot of a store with distinct kinds is in the map.
pub(crate) proof fn lemma_slots_map_index<V>(s: Seq<(ResourceMask, V)>, i: int)
    requires
        forall|a: int, b: int| 0 <= a < b < s.len() ==> (#[trigger] s[a]).0 != (#[trigger] s[b]).0,
        0 <= i < s.len(),
    ensures
        slots_map(s).dom().contains(s[i].0),
        slots_map(s)[s[i].0] == s[i].1,
    decreases s.len(),
{
    if i < s.len() - 1 {
        lemma_slots_map_index(s.drop_last(), i);
        assert(s.drop_last()[i] == s[i]);
        assert(s[s.len() - 1].0 != s[i].0);
    }
}

/// A kind held by no slot is not in the map.
pub(crate) proof fn lemma_slots_map_absent<V>(s: Seq<(ResourceMask, V)>, kind: ResourceMask)
    requires
        forall|i: int| 0 <= i < s.len() ==> (#[trigger] s[i]).0 != kind,
    ensures
        !slots_map(s).dom().contains(kind),
    decreases s.len(),
{
    if s.len() > 0 {
        lemma_slots_map_absent(s.drop_last(), kind);
    }
}

/// Replacing the instance in one slot inserts into the map.
pub(crate) proof fn lemma_slots_map_update<V>(s: Seq<(ResourceMask, V)>, i: int, v: V)
    requires
        forall|a: int, b: int| 0 <= a < b < s.len() ==> (#[trigger] s[a]).0 != (#[trigger] s[b]).0,
        0 <= i < s.len(),
    ensures
        slots_map(s.update(i, (s[i].0, v))) =~= slots_map(s).insert(s[i].0, v),
    decreases s.len(),
{
    let u = s.update(i, (s[i].0, v));
    if i == s.len() - 1 {
        assert(u.drop_last() =~= s.drop_last());
        assert(u.last() == (s[i].0, v));
    } else {
        assert(u.drop_last() =~= s.drop_last().update(i, (s[i].0, v)));
        assert(s.drop_last()[i] == s[i]);
        lemma_slots_map_update(s.drop_last(), i, v);
        assert(u.last() == s.last());
        assert(s.last().0 != s[i].0);
        assert(slots_map(u) =~= slots_map(s).insert(s[i].0, v));
    }
}

impl<V> World<V> {
    /// The stored instances, by kind.
    pub open(crate) spec fn view_map(self) -> Map<ResourceMask, V> {
        slots_map(self.slots@)
    }

    /// No kind owns two slots.
    pub open(crate) spec fn wf(self) -> bool {
        forall|a: int, b: int|
            0 <= a < b < self.slots@.len() ==> (#[trigger] self.slots@[a]).0 != (
            #[trigger] self.slots@[b]).0
    }

    /// An empty store.
    pub fn new() -> (w: World<V>)
        ensures
            w.view_map() == Map::<ResourceMask, V>::empty(),
            w.wf(),
    {
        World { slots: Vec::new() }
    }

    /// Registers one instance under `kind`, overwriting any previous
    /// instance of the same kind.
    pub fn insert(&mut self, kind: ResourceMask, resource: V)
        requires
            old(self).wf(),
        ensures
            final(self).wf(),
            final(self).view_map() == old(self).view_map().insert(kind, resource),
    {
        let n = self.slots.len();
        let mut i: usize = 0;
        while i < n
            invariant
                *self == *old(self),
                n == self.slots@.len(),
                i <= n,
                old(self).wf(),
                forall|k: int| 0 <= k < i ==> (#[trigger] self.slots@[k]).0 != kind,
            decreases n - i,
        {
            if self.slots[i].0 == kind {
                proof {
                    lemma_slots_map_update(self.slots@, i as int, resource);
                }
                self.slots[i].1 = resource;
                proof {
                    assert(self.slots@ =~= old(self).slots@.update(
                        i as int,
                        (old(self).slots@[i as int].0, resource),
                    ));
                }
                return ;
            }
            i += 1;
        }
        self.slots.push((kind, resource));
        proof {
            assert(self.slots@.drop_last() =~= old(self).slots@);
            assert forall|a: int, b: int|
                0 <= a < b < self.slots@.len() implies (#[trigger] self.slots@[a]).0 != (
            #[trigger] self.slots@[b]).0 by {
                if b < self.slots@.len() - 1 {
                    assert(old(self).slots@[a] == self.slots@[a]);
                }
            }
        }
    }

    /// Whether an instance of `kind` is present. Presence is not an
    /// access: no mask is checked.
    pub fn contains(&self, kind: ResourceMask) -> (r: bool)
        requires
            self.wf(),
        ensures
            r == self.view_map().dom().contains(kind),
    {
        let n = self.slots.len();
        let mut i: usize = 0;
        while i < n
            invariant
                self.wf(),
                n == self.slots@.len(),
                i <= n,
                forall|k: int| 0 <= k < i ==> (#[trigger] self.slots@[k]).0 != kind,
            decreases n - i,
        {
            if self.slots[i].0 == kind {
                proof {
                    lemma_slots_map_index(self.slots@, i as int);
                }
                return true;
            }
            i += 1;
        }
        proof {
            lemma_slots_map_absent(self.slots@, kind);
        }
        false
    }

    /// A shared borrow of the instance of `kind`. Fails with
    /// `InvalidAccess` when the context's read mask misses `kind`, and
    /// otherwise with `NotPresent` when no instance was inserted.
    pub fn get(&self, ctx: &Context, kind: ResourceMask) -> (r: Result<&V, WorldBorrowError>)
        requires
            self.wf(),
        ensures
            ctx.spec_reads() & kind == 0 ==> (r matches Err(e) && e
                == WorldBorrowError::InvalidAccess),
            ctx.spec_reads() & kind != 0 && !self.view_map().dom().contains(kind) ==> (r matches
                Err(e) && e == WorldBorrowError::NotPresent),
            ctx.spec_reads() & kind != 0 && self.view_map().dom().contains(kind) ==> (r matches
                Ok(v) && *v == self.view_map()[kind]),
    {
        if ctx.reads & kind == 0 {
            return Err(WorldBorrowError::InvalidAccess);
        }
        let n = self.slots.len();
        let mut i: usize = 0;
        while i < n
            invariant
                self.wf(),
                ctx.spec_reads() & kind != 0,
                n == self.slots@.len(),
                i <= n,
                forall|k: int| 0 <= k < i ==> (#[trigger] self.slots@[k]).0 != kind,
            decreases n - i,
        {
            if self.slots[i].0 == kind {
                proof {
                    lemma_slots_map_index(self.slots@, i as int);
                }
                return Ok(&self.slots[i].1);
            }
            i += 1;
        }
        proof {
            lemma_slots_map_absent(self.slots@, kind);
        }
        Err(WorldBorrowError::NotPresent)
    }

    /// An exclusive borrow of the instance of `kind`. Fails with
    /// `InvalidAccess` when the context's write mask misses `kind`, and
    /// otherwise with `NotPresent` when no instance was inserted.
    pub fn get_mut(&mut self, ctx: &Context, kind: ResourceMask) -> (r: Result<
        &mut V,
        WorldBorrowMutError,
    >)
        requires
            old(self).wf(),
        ensures
            final(self).wf(),
            ctx.spec_writes() & kind == 0 ==> (r matches Err(e) && e
                == WorldBorrowMutError::InvalidAccess && *final(self) == *old(self)),
            ctx.spec_writes() & kind != 0 && !old(self).view_map().dom().contains(kind) ==> (
            r matches Err(e) && e == WorldBorrowMutError::NotPresent && *final(self) == *old(
                self,
            )),
            ctx.spec_writes() & kind != 0 && old(self).view_map().dom().contains(kind) ==> (
            r matches Ok(v) && *v == old(self).view_map()[kind] && final(self).view_map() == old(
                self,
            ).view_map().insert(kind, *final(v))),
    {
        if ctx.writes & kind == 0 {
            return Err(WorldBorrowMutError::InvalidAccess);
        }
        let n = self.slots.len();
        let mut i: usize = 0;
        while i < n
            invariant
                *self == *old(self),
                ctx.spec_writes() & kind != 0,
                n == self.slots@.len(),
                i <= n,
                old(self).wf(),
                forall|k: int| 0 <= k < i ==> (#[trigger] self.slots@[k]).0 != kind,
            decreases n - i,
        {
            if self.slots[i].0 == kind {
                proof {
                    lemma_slots_map_index(self.slots@, i as int);
                    lemma_slots_map_update(
                        self.slots@,
                        i as int,
                        self.slots@[i as int].1,
                    );
                }
                let slot = &mut self.slots[i].1;
                proof {
                    lemma_slots_map_update(old(self).slots@, i as int, *final(slot));
                }
                return Ok(slot);
            }
            i += 1;
        }
        proof {
            lemma_slots_map_absent(self.slots@, kind);
        }
        Err(WorldBorrowMutError::NotPresent)
    }

    /// Whether the given context belongs to a system running inside a
    /// dispatch pass.
    pub fn dispatched(&self, ctx: &Context) -> (r: bool)
        ensures
            r == ctx.spec_active(),
    {
        ctx.active
    }
}

impl<V> Default for World<V> {
    /// An empty store.
    fn default() -> (w: World<V>)
        ensures
            w.view_map() == Map::<ResourceMask, V>::empty(),
            w.wf(),
    {
        World::new()
    }
}

} // verus!
