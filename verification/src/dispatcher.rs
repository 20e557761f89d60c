use vstd::prelude::*;
use crate::inject::InjectionOrder;
use crate::world::{Context, World};

verus! {

/// A unit of work: the dispatcher hands it the shared world and the
/// access context carrying the masks the system declared at registration.
/// The store refuses any access the context does not allow.
pub trait System<V> {
    /// One run of this system's body.
    fn run(&mut self, world: &mut World<V>, ctx: &Context);
}

/// Executes a balanced plan: each pass walks the groups in order and runs
/// every member of a group before any member of the next group starts,
/// publishing each member's declared access masks for the duration of its
/// run.
pub struct Dispatcher<S> {
    pub(crate) systems: Vec<InjectionOrder<S>>,
    pub(crate) rows: Vec<Vec<Option<usize>>>,
}

impl<S> Dispatcher<S> {
    /// The entries the plan was compiled from.
    pub open(crate) spec fn entries(self) -> Seq<InjectionOrder<S>> {
        self.systems@
    }

    /// The per-thread layout: one row per worker, one optional entry per
    /// group.
    pub open(crate) spec fn layout(self) -> Seq<Seq<Option<usize>>> {
        self.rows@.map_values(|r: Vec<Option<usize>>| r@)
    }

    /// Every slot of the layout points at an entry.
    pub open(crate) spec fn wf(self) -> bool {
        forall|r: int, c: int|
            0 <= r < self.layout().len() && 0 <= c < self.layout()[r].len() ==> ((#[trigger]
            self.layout()[r][c]) matches Some(i) ==> i < self.entries().len())
    }
}

} // verus!
verus! {

impl<S> Dispatcher<S> {
    /// Runs one full pass of the plan: every group in order, and within a
    /// group every worker row's entry, each system under a context built
    /// from its declared masks. The layout and every entry's identity,
    /// rules and masks are untouched; only the callable bodies and the
    /// world change.
    pub fn dispatch<V>(&mut self, world: &mut World<V>) where S: System<V>
        requires
            old(self).wf(),
        ensures
            final(self).wf(),
            final(self).layout() == old(self).layout(),
            final(self).entries().len() == old(self).entries().len(),
            forall|i: int|
                0 <= i < final(self).entries().len() ==> (#[trigger] final(self).entries()[
                i]).keeps_shape(old(self).entries()[i]),
    {
        let rl = self.rows.len();
        let mut cols: usize = 0;
        let mut r: usize = 0;
        while r < rl
            invariant
                *self == *old(self),
                rl == self.rows@.len(),
                r <= rl,
            decreases rl - r,
        {
            if self.rows[r].len() > cols {
                cols = self.rows[r].len();
            }
            r += 1;
        }
        let mut c: usize = 0;
        while c < cols
            invariant
                old(self).wf(),
                rl == self.rows@.len(),
                c <= cols,
                self.rows@ == old(self).rows@,
                self.systems@.len() == old(self).systems@.len(),
                forall|i: int|
                    0 <= i < self.systems@.len() ==> (#[trigger] self.systems@[i]).keeps_shape(
                        old(self).systems@[i],
                    ),
            decreases cols - c,
        {
            let mut r2: usize = 0;
            while r2 < rl
                invariant
                    old(self).wf(),
                    rl == self.rows@.len(),
                    r2 <= rl,
                    self.rows@ == old(self).rows@,
                    self.systems@.len() == old(self).systems@.len(),
                    forall|i: int|
                        0 <= i < self.systems@.len() ==> (#[trigger] self.systems@[i]).keeps_shape(
                            old(self).systems@[i],
                        ),
                decreases rl - r2,
            {
                if c < self.rows[r2].len() {
                    match self.rows[r2][c] {
                        Some(idx) => {
                            proof {
                                assert(old(self).layout()[r2 as int][c as int] == Some(idx));
                            }
                            let ctx = Context::masked(
                                self.systems[idx].reads,
                                self.systems[idx].writes,
                            );
                            System::run(&mut self.systems[idx].system, world, &ctx);
                        },
                        None => {},
                    }
                }
                r2 += 1;
            }
            c += 1;
        }
    }
}

} // verus!
