use vstd::prelude::*;
use crate::inject::InjectionOrder;
use crate::stage::StageId;

verus! {

/// The compiled execution plan: an ordered sequence of groups, each group
/// the systems that may run concurrently, column-major; plus, once
/// balanced, the same plan re-expressed row-major as one list of optional
/// entries per worker thread.
pub struct DispatchBuilder<S> {
    pub(crate) execution_matrix_cm: Vec<Vec<StageId>>,
    pub(crate) systems: Vec<InjectionOrder<S>>,
    pub(crate) per_thread: Vec<Vec<Option<usize>>>,
    pub(crate) balanced_thread_count: usize,
    pub(crate) thread_count_default: Option<usize>,
}

impl<S> DispatchBuilder<S> {
    /// The column-major execution matrix: groups in execution order.
    pub open(crate) spec fn matrix(self) -> Seq<Seq<StageId>> {
        self.execution_matrix_cm@.map_values(|g: Vec<StageId>| g@)
    }

    /// The entries the plan was compiled from, in registration order.
    pub open(crate) spec fn plan_systems(self) -> Seq<InjectionOrder<S>> {
        self.systems@
    }

    /// The row-major per-thread layout (indices into the entries).
    pub open(crate) spec fn layout(self) -> Seq<Seq<Option<usize>>> {
        self.per_thread@.map_values(|r: Vec<Option<usize>>| r@)
    }

    /// The thread-count override carried over from the registry.
    pub open(crate) spec fn default_thread_count(self) -> Option<usize> {
        self.thread_count_default
    }

    /// The thread count the layout was last balanced for; zero before the
    /// first balancing.
    pub open(crate) spec fn spec_balanced(self) -> usize {
        self.balanced_thread_count
    }

    /// The plan's entries are well-formed (distinct, non-reserved
    /// identities) and every layout slot points at an entry.
    pub open(crate) spec fn wf(self) -> bool {
        &&& crate::registry::entries_wf(self.systems@)
        &&& forall|r: int, c: int|
            0 <= r < self.layout().len() && 0 <= c < self.layout()[r].len() ==> ((#[trigger]
            self.layout()[r][c]) matches Some(i) ==> i < self.systems@.len())
    }

    /// The ordered member list of one group of the plan, or `None` past
    /// the last group.
    pub fn group(&self, group: usize) -> (r: Option<&Vec<StageId>>)
        ensures
            group < self.matrix().len() ==> (r matches Some(v) && v@ == self.matrix()[group as int]),
            group >= self.matrix().len() ==> r is None,
    {
        if group < self.execution_matrix_cm.len() {
            Some(&self.execution_matrix_cm[group])
        } else {
            None
        }
    }

    /// The stage that slot `thread` of group `group` would run, or `None`
    /// when the group does not exist or has fewer members.
    pub fn stage_at(&self, group: usize, thread: usize) -> (r: Option<StageId>)
        ensures
            group < self.matrix().len() && thread < self.matrix()[group as int].len() ==> r
                == Some(self.matrix()[group as int][thread as int]),
            !(group < self.matrix().len() && thread < self.matrix()[group as int].len()) ==> r
                is None,
    {
        if group < self.execution_matrix_cm.len() {
            let row = &self.execution_matrix_cm[group];
            if thread < row.len() {
                Some(row[thread])
            } else {
                None
            }
        } else {
            None
        }
    }
}

} // verus!
verus! {

/// One group, split into runs of at most `t` members: the first `t` stay
/// together, the remainder spills into new groups placed immediately
/// after, in order.
pub open(crate) spec fn chunk_group(g: Seq<StageId>, t: int) -> Seq<Seq<StageId>>
    decreases g.len(),
{
    if t < 1 || g.len() <= t {
        seq![g]
    } else {
        seq![g.take(t)] + chunk_group(g.skip(t), t)
    }
}

/// The whole matrix, every group split to at most `t` members, group
/// order kept.
pub open(crate) spec fn chunk_matrix(m: Seq<Seq<StageId>>, t: int) -> Seq<Seq<StageId>>
    decreases m.len(),
{
    if m.len() == 0 {
        Seq::empty()
    } else {
        chunk_group(m[0], t) + chunk_matrix(m.skip(1), t)
    }
}

/// Every group that chunking produces has at most `t` members.
pub(crate) proof fn lemma_chunk_group_bounded(g: Seq<StageId>, t: int)
    requires
        t >= 1,
    ensures
        forall|c: int|
            0 <= c < chunk_group(g, t).len() ==> (#[trigger] chunk_group(g, t)[c]).len() <= t,
    decreases g.len(),
{
    if g.len() > t {
        lemma_chunk_group_bounded(g.skip(t), t);
        assert forall|c: int|
            0 <= c < chunk_group(g, t).len() implies (#[trigger] chunk_group(g, t)[c]).len()
            <= t by {
            if c > 0 {
                assert(chunk_group(g, t)[c] == chunk_group(g.skip(t), t)[c - 1]);
            }
        }
    }
}

pub(crate) proof fn lemma_chunk_matrix_bounded(m: Seq<Seq<StageId>>, t: int)
    requires
        t >= 1,
    ensures
        forall|c: int|
            0 <= c < chunk_matrix(m, t).len() ==> (#[trigger] chunk_matrix(m, t)[c]).len() <= t,
    decreases m.len(),
{
    if m.len() > 0 {
        lemma_chunk_group_bounded(m[0], t);
        lemma_chunk_matrix_bounded(m.skip(1), t);
        let head = chunk_group(m[0], t);
        assert forall|c: int|
            0 <= c < chunk_matrix(m, t).len() implies (#[trigger] chunk_matrix(m, t)[c]).len()
            <= t by {
            if c < head.len() {
                assert(chunk_matrix(m, t)[c] == head[c]);
            } else {
                assert(chunk_matrix(m, t)[c] == chunk_matrix(m.skip(1), t)[c - head.len()]);
            }
        }
    }
}

/// Chunking a matrix whose groups already fit leaves it unchanged.
pub(crate) proof fn lemma_chunk_matrix_fixed(m: Seq<Seq<StageId>>, t: int)
    requires
        t >= 1,
        forall|c: int| 0 <= c < m.len() ==> (#[trigger] m[c]).len() <= t,
    ensures
        chunk_matrix(m, t) == m,
    decreases m.len(),
{
    if m.len() > 0 {
        assert(chunk_group(m[0], t) == seq![m[0]]);
        assert forall|c: int| 0 <= c < m.skip(1).len() implies (#[trigger] m.skip(1)[c]).len()
            <= t by {
            assert(m.skip(1)[c] == m[c + 1]);
        }
        lemma_chunk_matrix_fixed(m.skip(1), t);
        assert(chunk_matrix(m, t) =~= m);
    }
}

/// Balancing is idempotent: splitting a matrix whose groups already obey
/// the thread bound changes nothing, so a second `balance` with the same
/// thread count reproduces the same matrix and therefore the same
/// per-thread layout.
pub proof fn lemma_chunk_matrix_idempotent(m: Seq<Seq<StageId>>, t: int)
    requires
        t >= 1,
    ensures
        chunk_matrix(chunk_matrix(m, t), t) == chunk_matrix(m, t),
{
    lemma_chunk_matrix_bounded(m, t);
    lemma_chunk_matrix_fixed(chunk_matrix(m, t), t);
}

/// The longest group length of the matrix.
pub open(crate) spec fn max_group_len(m: Seq<Seq<StageId>>) -> int
    decreases m.len(),
{
    if m.len() == 0 {
        0
    } else {
        let rest = max_group_len(m.skip(1));
        if m[0].len() > rest {
            m[0].len() as int
        } else {
            rest
        }
    }
}

/// Row `r` of the row-major layout: one optional entry per group, the
/// `r`-th member of that group, as an index into the entries.
pub open(crate) spec fn row_of<S>(
    m: Seq<Seq<StageId>>,
    s: Seq<InjectionOrder<S>>,
    r: int,
) -> Seq<Option<usize>> {
    Seq::new(
        m.len(),
        |c: int|
            if r < m[c].len() && crate::registry::is_registered(s, m[c][r]) {
                Some(crate::registry::stage_index_of(s, m[c][r]) as usize)
            } else {
                None
            },
    )
}

/// The column-major matrix re-expressed row-major: one row per thread
/// that has anything to do, each row as long as the matrix.
pub open(crate) spec fn row_major_spec<S>(
    m: Seq<Seq<StageId>>,
    s: Seq<InjectionOrder<S>>,
    t: int,
) -> Seq<Seq<Option<usize>>> {
    Seq::new(
        if t < max_group_len(m) {
            t as nat
        } else {
            max_group_len(m) as nat
        },
        |r: int| row_of(m, s, r),
    )
}

} // verus!
verus! {

/// Chunking distributes over concatenation of matrices.
pub(crate) proof fn lemma_chunk_matrix_concat(m1: Seq<Seq<StageId>>, m2: Seq<Seq<StageId>>, t: int)
    ensures
        chunk_matrix(m1 + m2, t) == chunk_matrix(m1, t) + chunk_matrix(m2, t),
    decreases m1.len(),
{
    if m1.len() == 0 {
        assert(m1 + m2 =~= m2);
        assert(chunk_matrix(m1, t) + chunk_matrix(m2, t) =~= chunk_matrix(m2, t));
    } else {
        assert((m1 + m2)[0] == m1[0]);
        assert((m1 + m2).skip(1) =~= m1.skip(1) + m2);
        lemma_chunk_matrix_concat(m1.skip(1), m2, t);
        assert(chunk_matrix(m1 + m2, t) =~= chunk_matrix(m1, t) + chunk_matrix(m2, t));
    }
}

/// What is still to chunk of one group, once the members before `start`
/// are done.
pub open(crate) spec fn chunk_tail(g: Seq<StageId>, start: int, t: int) -> Seq<Seq<StageId>> {
    if start < g.len() {
        chunk_group(g.skip(start), t)
    } else {
        Seq::empty()
    }
}

/// Relies on num_cpus::get: the number of logical CPUs of the machine,
/// documented to always be at least one.
#[verifier::external_body]
fn detected_parallelism() -> (n: usize)
    ensures
        n >= 1,
{
    num_cpus::get()
}

impl<S> DispatchBuilder<S> {
    /// The thread count to balance for: the explicit argument, else the
    /// registry's override, else one less than the machine's parallelism;
    /// always at least one.
    fn resolve_thread_count(&self, thread_count: Option<usize>) -> (t: usize)
        ensures
            t >= 1,
            thread_count matches Some(c) ==> t == (if c >= 1 {
                c
            } else {
                1usize
            }),
            thread_count is None ==> (self.default_thread_count() matches Some(c) ==> t == (
            if c >= 1 {
                c
            } else {
                1usize
            })),
    {
        let chosen = match thread_count {
            Some(c) => Some(c),
            None => self.thread_count_default,
        };
        match chosen {
            Some(c) => if c >= 1 {
                c
            } else {
                1
            },
            None => {
                let cpus = detected_parallelism();
                if cpus >= 2 {
                    cpus - 1
                } else {
                    1
                }
            },
        }
    }

    /// Re-derives the plan for `thread_count` workers: any group with more
    /// members than threads spills its overflow into new groups placed
    /// immediately after it, and the split matrix is re-expressed
    /// row-major, one row per worker that has anything to run.
    ///
    /// Balancing twice with the same thread count yields an identical
    /// matrix and layout: see `lemma_chunk_matrix_idempotent`.
    pub fn balance(&mut self, thread_count: Option<usize>)
        requires
            old(self).wf(),
        ensures
            final(self).wf(),
            final(self).plan_systems() == old(self).plan_systems(),
            final(self).default_thread_count() == old(self).default_thread_count(),
            final(self).spec_balanced() >= 1,
            thread_count matches Some(c) ==> final(self).spec_balanced() == (if c >= 1 {
                c
            } else {
                1usize
            }),
            thread_count is None ==> (old(self).default_thread_count() matches Some(c)
                ==> final(self).spec_balanced() == (if c >= 1 {
                c
            } else {
                1usize
            })),
            final(self).matrix() == chunk_matrix(
                old(self).matrix(),
                final(self).spec_balanced() as int,
            ),
            final(self).layout() == row_major_spec(
                final(self).matrix(),
                old(self).plan_systems(),
                final(self).spec_balanced() as int,
            ),
            forall|r: int, c: int|
                0 <= r < final(self).layout().len() && 0 <= c < final(self).layout()[r].len()
                    ==> ((#[trigger] final(self).layout()[r][c]) matches Some(i)
                    ==> i < final(self).plan_systems().len()),
    {
        let t = self.resolve_thread_count(thread_count);
        let ghost m0 = self.matrix();
        let ghost s = self.systems@;
        let gl = self.execution_matrix_cm.len();
        let mut newm: Vec<Vec<StageId>> = Vec::new();
        let mut c: usize = 0;
        while c < gl
            invariant
                *self == *old(self),
                old(self).wf(),
                t >= 1,
                m0 == self.matrix(),
                gl == self.execution_matrix_cm@.len(),
                c <= gl,
                newm@.map_values(|v: Vec<StageId>| v@) == chunk_matrix(m0.take(c as int), t as int),
            decreases gl - c,
        {
            let glen = self.execution_matrix_cm[c].len();
            let ghost grp = m0[c as int];
            let ghost base = newm@.map_values(|v: Vec<StageId>| v@);
            proof {
                assert(grp == self.execution_matrix_cm@[c as int]@);
                assert(grp.skip(0) =~= grp);
            }
            if glen == 0 {
                let row: Vec<StageId> = Vec::new();
                let ghost before = newm@;
                newm.push(row);
                proof {
                    assert(chunk_group(grp, t as int) =~= seq![grp]);
                    let mapped = newm@.map_values(|v: Vec<StageId>| v@);
                    assert(mapped.len() == base.len() + 1);
                    assert forall|k: int| 0 <= k < mapped.len() implies mapped[k] == (base + seq![
                        grp,
                    ])[k] by {
                        if k < base.len() {
                            assert(newm@[k] == before[k]);
                            assert(mapped[k] == before[k]@);
                        } else {
                            assert(newm@[k]@ =~= grp);
                        }
                    }
                    assert(mapped =~= base + chunk_group(grp, t as int));
                }
            } else {
                let mut start: usize = 0;
                while start < glen
                    invariant
                        *self == *old(self),
                        t >= 1,
                        m0 == self.matrix(),
                        gl == self.execution_matrix_cm@.len(),
                        c < gl,
                        grp == m0[c as int],
                        grp == self.execution_matrix_cm@[c as int]@,
                        glen == grp.len(),
                        start <= glen,
                        newm@.map_values(|v: Vec<StageId>| v@) + chunk_tail(
                            grp,
                            start as int,
                            t as int,
                        ) == base + chunk_group(grp, t as int),
                    decreases glen - start,
                {
                    let end = if glen - start > t {
                        start + t
                    } else {
                        glen
                    };
                    let mut row: Vec<StageId> = Vec::new();
                    let mut j = start;
                    while j < end
                        invariant
                            *self == *old(self),
                            gl == self.execution_matrix_cm@.len(),
                            c < gl,
                            grp == self.execution_matrix_cm@[c as int]@,
                            start <= j <= end <= glen,
                            glen == grp.len(),
                            row@ == grp.subrange(start as int, j as int),
                        decreases end - j,
                    {
                        let v = self.execution_matrix_cm[c][j];
                        row.push(v);
                        proof {
                            assert(row@ =~= grp.subrange(start as int, j as int + 1));
                        }
                        j += 1;
                    }
                    let ghost beforev = newm@;
                    let ghost before = newm@.map_values(|v: Vec<StageId>| v@);
                    newm.push(row);
                    proof {
                        let mapped = newm@.map_values(|v: Vec<StageId>| v@);
                        assert forall|k: int| 0 <= k < mapped.len() implies mapped[k]
                            == before.push(grp.subrange(start as int, end as int))[k] by {
                            if k < before.len() {
                                assert(newm@[k] == beforev[k]);
                                assert(mapped[k] == beforev[k]@);
                            } else {
                                assert(newm@[k]@ == row@);
                            }
                        }
                        assert(mapped =~= before.push(
                            grp.subrange(start as int, end as int),
                        ));
                        if end < glen {
                            // this chunk is full: peel it off the tail
                            assert(grp.skip(start as int).len() > t);
                            assert(grp.skip(start as int).take(t as int) =~= grp.subrange(
                                start as int,
                                end as int,
                            ));
                            assert(grp.skip(start as int).skip(t as int) =~= grp.skip(end as int));
                            assert(chunk_tail(grp, start as int, t as int) =~= seq![
                                grp.subrange(start as int, end as int),
                            ] + chunk_tail(grp, end as int, t as int));
                            assert((before.push(grp.subrange(start as int, end as int)))
                                + chunk_tail(grp, end as int, t as int) =~= before + chunk_tail(
                                grp,
                                start as int,
                                t as int,
                            ));
                        } else {
                            // the rest fits in one chunk
                            assert(grp.skip(start as int).len() <= t);
                            assert(grp.skip(start as int) =~= grp.subrange(start as int, end as int));
                            assert(chunk_tail(grp, start as int, t as int) =~= seq![
                                grp.subrange(start as int, end as int),
                            ]);
                            assert((before.push(grp.subrange(start as int, end as int)))
                                + chunk_tail(grp, end as int, t as int) =~= before + chunk_tail(
                                grp,
                                start as int,
                                t as int,
                            ));
                        }
                    }
                    start = end;
                }
            }
            proof {
                assert(m0.take(c as int + 1) =~= m0.take(c as int) + seq![grp]);
                lemma_chunk_matrix_concat(m0.take(c as int), seq![grp], t as int);
                assert(chunk_matrix(seq![grp], t as int) =~= chunk_group(grp, t as int)) by {
                    assert(seq![grp].skip(1) =~= Seq::<Seq<StageId>>::empty());
                    assert(chunk_group(grp, t as int) + chunk_matrix(
                        Seq::<Seq<StageId>>::empty(),
                        t as int,
                    ) =~= chunk_group(grp, t as int));
                }
                assert(newm@.map_values(|v: Vec<StageId>| v@) =~= chunk_matrix(
                    m0.take(c as int + 1),
                    t as int,
                ));
            }
            c += 1;
        }
        proof {
            assert(m0.take(gl as int) =~= m0);
        }
        self.execution_matrix_cm = newm;
        self.balanced_thread_count = t;
        let ghost m1 = self.matrix();
        // how many rows the layout needs: the longest group, capped by the
        // thread count
        let mlen = self.execution_matrix_cm.len();
        let mut maxlen: usize = 0;
        let mut c2: usize = mlen;
        proof {
            assert(m1.skip(mlen as int) =~= Seq::<Seq<StageId>>::empty());
        }
        while c2 > 0
            invariant
                mlen == self.execution_matrix_cm@.len(),
                c2 <= mlen,
                m1 == self.matrix(),
                maxlen == max_group_len(m1.skip(c2 as int)),
            decreases c2,
        {
            c2 -= 1;
            let l = self.execution_matrix_cm[c2].len();
            proof {
                assert(m1.skip(c2 as int)[0] == m1[c2 as int]);
                assert(m1.skip(c2 as int).skip(1) =~= m1.skip(c2 as int + 1));
            }
            if l > maxlen {
                maxlen = l;
            }
        }
        proof {
            assert(m1.skip(0) =~= m1);
            assert(maxlen == max_group_len(m1));
        }
        let rows = if t < maxlen {
            t
        } else {
            maxlen
        };
        let mut per_thread: Vec<Vec<Option<usize>>> = Vec::new();
        let mut r: usize = 0;
        while r < rows
            invariant
                mlen == self.execution_matrix_cm@.len(),
                m1 == self.matrix(),
                s == self.systems@,
                crate::registry::entries_wf(s),
                r <= rows,
                per_thread@.map_values(|v: Vec<Option<usize>>| v@) == Seq::new(
                    r as nat,
                    |rr: int| row_of(m1, s, rr),
                ),
                forall|rr: int, cc: int|
                    0 <= rr < per_thread@.len() && 0 <= cc < per_thread@[rr]@.len() ==> ((
                    #[trigger] per_thread@[rr]@[cc]) matches Some(i) ==> i < s.len()),
            decreases rows - r,
        {
            let mut row: Vec<Option<usize>> = Vec::new();
            let mut c3: usize = 0;
            while c3 < mlen
                invariant
                    mlen == self.execution_matrix_cm@.len(),
                    m1 == self.matrix(),
                    s == self.systems@,
                    crate::registry::entries_wf(s),
                    c3 <= mlen,
                    row@.len() == c3,
                    forall|cc: int|
                        0 <= cc < c3 ==> (#[trigger] row@[cc]) == row_of(m1, s, r as int)[cc],
                    forall|cc: int|
                        0 <= cc < c3 ==> ((#[trigger] row@[cc]) matches Some(i) ==> i < s.len()),
                decreases mlen - c3,
            {
                let grp_len = self.execution_matrix_cm[c3].len();
                if r < grp_len {
                    let id = self.execution_matrix_cm[c3][r];
                    proof {
                        assert(m1[c3 as int][r as int] == id);
                    }
                    match crate::registry::Registry::<S>::find_node(&self.systems, id) {
                        Some(i) => {
                            proof {
                                assert(crate::registry::is_registered(s, id));
                                crate::registry::lemma_stage_entry(s, id, i as int);
                            }
                            row.push(Some(i));
                        },
                        None => {
                            proof {
                                assert(!crate::registry::is_registered(s, id));
                            }
                            row.push(None);
                        },
                    }
                } else {
                    row.push(None);
                }
                c3 += 1;
            }
            proof {
                assert(row@ =~= row_of(m1, s, r as int));
            }
            let ghost beforev = per_thread@;
            let ghost before = per_thread@.map_values(|v: Vec<Option<usize>>| v@);
            per_thread.push(row);
            proof {
                let mapped = per_thread@.map_values(|v: Vec<Option<usize>>| v@);
                assert(before.len() == r);
                assert(beforev.len() == before.len());
                assert(per_thread@.len() == beforev.len() + 1);
                assert(mapped.len() == r + 1);
                assert forall|rr: int| 0 <= rr < mapped.len() implies mapped[rr] == row_of(
                    m1,
                    s,
                    rr,
                ) by {
                    if rr < r {
                        assert(per_thread@[rr] == beforev[rr]);
                        assert(mapped[rr] == beforev[rr]@);
                        assert(before[rr] == row_of(m1, s, rr));
                    } else {
                        assert(per_thread@[rr]@ == row@);
                    }
                }
                assert(mapped =~= Seq::new((r + 1) as nat, |rr: int| row_of(m1, s, rr)));
            }
            r += 1;
        }
        self.per_thread = per_thread;
        proof {
            assert(self.layout() =~= row_major_spec(m1, s, t as int));
        }
    }
}

} // verus!
verus! {

/// `tb` is the thread count that balancing resolves from an explicit
/// argument and the registry's override.
pub open(crate) spec fn resolved_thread_count(
    tb: int,
    thread_count: Option<usize>,
    dflt: Option<usize>,
) -> bool {
    &&& tb >= 1
    &&& (thread_count matches Some(c) ==> tb == (if c >= 1 {
        c as int
    } else {
        1
    }))
    &&& (thread_count is None ==> (dflt matches Some(c) ==> tb == (if c >= 1 {
        c as int
    } else {
        1
    })))
}

impl<S> DispatchBuilder<S> {
    /// Hands the balanced layout and the entries to a dispatcher,
    /// balancing for `thread_count` first unless `balance` already ran.
    pub fn build(self, thread_count: Option<usize>) -> (d: crate::dispatcher::Dispatcher<S>)
        requires
            self.wf(),
        ensures
            d.entries() == self.plan_systems(),
            d.wf(),
            self.layout().len() > 0 ==> d.layout() == self.layout(),
            self.layout().len() == 0 ==> exists|tb: int|
                #![trigger row_major_spec(chunk_matrix(self.matrix(), tb), self.plan_systems(), tb)]
                resolved_thread_count(tb, thread_count, self.default_thread_count()) && d.layout()
                    == row_major_spec(
                    chunk_matrix(self.matrix(), tb),
                    self.plan_systems(),
                    tb,
                ),
    {
        let mut this = self;
        if this.per_thread.len() == 0 {
            let ghost m0 = this.matrix();
            this.balance(thread_count);
            proof {
                let tb = this.spec_balanced() as int;
                assert(resolved_thread_count(tb, thread_count, this.default_thread_count()));
                assert(this.layout() == row_major_spec(chunk_matrix(m0, tb), this.systems@, tb));
            }
        }
        crate::dispatcher::Dispatcher { systems: this.systems, rows: this.per_thread }
    }
}

} // verus!
verus! {

/// Splitting one group spills members into new groups but loses none and
/// reorders none: the chunks, concatenated, are the group again.
pub(crate) proof fn lemma_chunk_group_flatten(g: Seq<StageId>, t: int)
    ensures
        chunk_group(g, t).flatten() == g,
    decreases g.len(),
{
    if t < 1 || g.len() <= t {
        seq![g].lemma_flatten_singleton();
        assert(chunk_group(g, t).flatten() =~= g);
    } else {
        lemma_chunk_group_flatten(g.skip(t), t);
        vstd::seq_lib::lemma_flatten_concat(seq![g.take(t)], chunk_group(g.skip(t), t));
        seq![g.take(t)].lemma_flatten_singleton();
        assert(chunk_group(g, t).flatten() =~= g.take(t) + g.skip(t));
        assert(g.take(t) + g.skip(t) =~= g);
    }
}

/// Balancing keeps the plan's members and their order: the balanced
/// matrix, concatenated group by group, reads exactly as the original
/// matrix concatenated. In particular a plan that held every registered
/// stage exactly once still does so after balancing.
pub proof fn lemma_chunk_matrix_flatten(m: Seq<Seq<StageId>>, t: int)
    ensures
        chunk_matrix(m, t).flatten() == m.flatten(),
    decreases m.len(),
{
    if m.len() == 0 {
        assert(chunk_matrix(m, t).flatten() =~= m.flatten());
    } else {
        lemma_chunk_matrix_flatten(m.skip(1), t);
        lemma_chunk_group_flatten(m[0], t);
        vstd::seq_lib::lemma_flatten_concat(chunk_group(m[0], t), chunk_matrix(m.skip(1), t));
        assert(m.flatten() == m.first().add(m.drop_first().flatten()));
        assert(m.drop_first() =~= m.skip(1));
        assert(chunk_matrix(m, t).flatten() =~= m.flatten());
    }
}

} // verus!
