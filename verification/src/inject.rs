use vstd::prelude::*;
use crate::resources::ResourceMask;
use crate::rules::{default_rules, default_rules_spec, InjectionRule};
use crate::stage::StageId;

verus! {

/// One registered system: its identity, its callable body, its ordering
/// rules and its declared resource access. `Registry::insert` returns a
/// mutable borrow of the freshly added entry, so rules and masks can be
/// declared fluently right after registration.
pub struct InjectionOrder<S> {
    pub(crate) id: StageId,
    pub(crate) system: S,
    pub(crate) rules: Vec<InjectionRule>,
    pub(crate) reads: ResourceMask,
    pub(crate) writes: ResourceMask,
    pub(crate) default: bool,
}

impl<S> InjectionOrder<S> {
    /// The identity this entry was registered under.
    pub open(crate) spec fn spec_id(self) -> StageId {
        self.id
    }

    /// The callable body this entry was registered with.
    pub open(crate) spec fn spec_system(self) -> S {
        self.system
    }

    /// The ordering rules attached so far.
    pub open(crate) spec fn spec_rules(self) -> Seq<InjectionRule> {
        self.rules@
    }

    /// The declared read mask.
    pub open(crate) spec fn spec_reads(self) -> ResourceMask {
        self.reads
    }

    /// The declared write mask.
    pub open(crate) spec fn spec_writes(self) -> ResourceMask {
        self.writes
    }

    /// Whether the entry still carries only its implicit default rules.
    pub open(crate) spec fn spec_default(self) -> bool {
        self.default
    }

    /// What an entry looks like right after registration.
    pub open(crate) spec fn is_fresh(self, id: StageId) -> bool {
        &&& self.id == id
        &&& self.rules@ == default_rules_spec()
        &&& self.reads == 0
        &&& self.writes == 0
        &&& self.default
    }

    /// Everything but the callable body is kept: identity, rules and
    /// masks agree.
    pub open(crate) spec fn keeps_shape(self, other: InjectionOrder<S>) -> bool {
        &&& self.id == other.id
        &&& self.rules@ == other.rules@
        &&& self.reads == other.reads
        &&& self.writes == other.writes
        &&& self.default == other.default
    }

    /// Everything but the access masks is kept.
    pub open(crate) spec fn same_but_masks(self, other: InjectionOrder<S>) -> bool {
        &&& self.id == other.id
        &&& self.system == other.system
        &&& self.rules@ == other.rules@
        &&& self.default == other.default
    }

    /// Everything but the rules is kept.
    pub open(crate) spec fn same_but_rules(self, other: InjectionOrder<S>) -> bool {
        &&& self.id == other.id
        &&& self.system == other.system
        &&& self.reads == other.reads
        &&& self.writes == other.writes
    }

    pub(crate) fn new(id: StageId, system: S) -> (r: InjectionOrder<S>)
        ensures
            r.is_fresh(id),
            r.system == system,
    {
        InjectionOrder {
            id,
            system,
            rules: default_rules(),
            reads: 0,
            writes: 0,
            default: true,
        }
    }

    /// Declares that this system writes (and therefore may exclusively
    /// borrow) every resource kind set in `mask`. Accumulates with earlier
    /// declarations and never resets.
    pub fn writes_mask(&mut self, mask: ResourceMask) -> (ret: &mut InjectionOrder<S>)
        ensures
            ret.same_but_masks(*old(self)),
            ret.spec_reads() == old(self).spec_reads(),
            ret.spec_writes() == old(self).spec_writes() | mask,
            *final(self) == *final(ret),
    {
        self.writes = self.writes | mask;
        self
    }

    /// Declares that this system reads (and therefore may share-borrow)
    /// every resource kind set in `mask`. Accumulates with earlier
    /// declarations and never resets.
    pub fn reads_mask(&mut self, mask: ResourceMask) -> (ret: &mut InjectionOrder<S>)
        ensures
            ret.same_but_masks(*old(self)),
            ret.spec_reads() == old(self).spec_reads() | mask,
            ret.spec_writes() == old(self).spec_writes(),
            *final(self) == *final(ret),
    {
        self.reads = self.reads | mask;
        self
    }

    /// Clears the implicit default rules the first time an explicit
    /// `before`/`after` rule arrives.
    fn reset_defaults(&mut self)
        ensures
            final(self).same_but_rules(*old(self)),
            !final(self).default,
            old(self).default ==> final(self).rules@ == Seq::<InjectionRule>::empty(),
            !old(self).default ==> final(self).rules@ == old(self).rules@,
    {
        if self.default {
            self.default = false;
            self.rules.clear();
        }
    }

    /// Pins this system strictly before `target`. The first explicit
    /// `before`/`after` rule replaces the implicit default rules.
    pub fn before(&mut self, target: StageId) -> (ret: &mut InjectionOrder<S>)
        ensures
            ret.same_but_rules(*old(self)),
            !ret.spec_default(),
            old(self).spec_default() ==> ret.spec_rules() == seq![
                InjectionRule::Before(target),
            ],
            !old(self).spec_default() ==> ret.spec_rules() == old(self).spec_rules().push(
                InjectionRule::Before(target),
            ),
            *final(self) == *final(ret),
    {
        self.reset_defaults();
        self.rules.push(InjectionRule::Before(target));
        self
    }

    /// Pins this system strictly after `target`. The first explicit
    /// `before`/`after` rule replaces the implicit default rules.
    pub fn after(&mut self, target: StageId) -> (ret: &mut InjectionOrder<S>)
        ensures
            ret.same_but_rules(*old(self)),
            !ret.spec_default(),
            old(self).spec_default() ==> ret.spec_rules() == seq![
                InjectionRule::After(target),
            ],
            !old(self).spec_default() ==> ret.spec_rules() == old(self).spec_rules().push(
                InjectionRule::After(target),
            ),
            *final(self) == *final(ret),
    {
        self.reset_defaults();
        self.rules.push(InjectionRule::After(target));
        self
    }

    /// Demands that this system share an execution group with `target`.
    /// Unlike `before`/`after` this does not clear the implicit default
    /// rules.
    pub fn parallel(&mut self, target: StageId) -> (ret: &mut InjectionOrder<S>)
        ensures
            ret.same_but_rules(*old(self)),
            ret.spec_default() == old(self).spec_default(),
            ret.spec_rules() == old(self).spec_rules().push(InjectionRule::Parallel(target)),
            *final(self) == *final(ret),
    {
        self.rules.push(InjectionRule::Parallel(target));
        self
    }
}

} // verus!
