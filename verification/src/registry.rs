use vstd::prelude::*;
use crate::error::{RegistrySortingError, StageError};
use crate::inject::InjectionOrder;
use crate::resources::ResourceMask;
use crate::rules::{post_user_stage, user_stage, InjectionRule};
use crate::sorted::DispatchBuilder;
use crate::stage::StageId;

verus! {

/// The builder that accumulates systems, their declared access masks and
/// their ordering rules, and compiles them into an execution plan.
pub struct Registry<S> {
    pub(crate) systems: Vec<InjectionOrder<S>>,
    pub(crate) thread_count: Option<usize>,
}

// ---------------------------------------------------------------------
// The mathematical model of a registered rule set.
//
// The dependency graph has one node per registered system, in registration
// order, plus the two anchors: node `len` is `user` and node `len + 1` is
// `post_user`.
// ---------------------------------------------------------------------

/// How many nodes the dependency graph of `s` has.
pub open(crate) spec fn node_count<S>(s: Seq<InjectionOrder<S>>) -> int {
    s.len() as int + 2
}

/// The stage identity sitting at graph node `x`.
pub open(crate) spec fn node_stage<S>(s: Seq<InjectionOrder<S>>, x: int) -> StageId {
    if x < s.len() {
        s[x].spec_id()
    } else if x == s.len() {
        user_stage()
    } else {
        post_user_stage()
    }
}

/// Whether a rule's target resolves to no node at all: it is neither an
/// anchor nor a registered system.
pub open(crate) spec fn is_dangling<S>(s: Seq<InjectionOrder<S>>, t: StageId) -> bool {
    &&& t != user_stage()
    &&& t != post_user_stage()
    &&& forall|i: int| 0 <= i < s.len() ==> (#[trigger] s[i]).spec_id() != t
}

/// System `a` carries some rule whose target is `t`.
pub open(crate) spec fn names_rule_target<S>(s: Seq<InjectionOrder<S>>, a: StageId, t: StageId) -> bool {
    exists|i: int, k: int|
        0 <= i < s.len() && 0 <= k < s[i].spec_rules().len() && (#[trigger] s[i].spec_rules()[
        k]).reference() == t && s[i].spec_id() == a
}

/// Whether some rule of some system references a stage that was never
/// registered.
pub open(crate) spec fn has_dangling<S>(s: Seq<InjectionOrder<S>>) -> bool {
    exists|i: int, k: int|
        0 <= i < s.len() && 0 <= k < s[i].spec_rules().len() && is_dangling(
            s,
            (#[trigger] s[i].spec_rules()[k]).reference(),
        )
}

/// The dependency edge relation: `a` must complete before `b` starts.
/// The anchor edge `user -> post_user` always exists; a `Before` rule on a
/// system points forwards, an `After` rule points backwards.
pub open(crate) spec fn is_edge<S>(s: Seq<InjectionOrder<S>>, a: int, b: int) -> bool {
    &&& 0 <= a < node_count(s)
    &&& 0 <= b < node_count(s)
    &&& {
        ||| (a == s.len() && b == s.len() + 1)
        ||| (0 <= a < s.len() && s[a].spec_rules().contains(
            InjectionRule::Before(node_stage(s, b)),
        ))
        ||| (0 <= b < s.len() && s[b].spec_rules().contains(
            InjectionRule::After(node_stage(s, a)),
        ))
    }
}

/// A rule set is acyclic exactly when some depth assignment makes every
/// dependency edge point strictly downwards.
pub open(crate) spec fn rules_acyclic<S>(s: Seq<InjectionOrder<S>>) -> bool {
    exists|depth: Seq<int>|
        depth.len() == node_count(s) && forall|a: int, b: int|
            #[trigger] is_edge(s, a, b) ==> depth[a] < depth[b]
}

/// Whether any system carries a `Parallel` rule.
pub open(crate) spec fn has_parallel_rule<S>(s: Seq<InjectionOrder<S>>) -> bool {
    exists|i: int, k: int|
        0 <= i < s.len() && 0 <= k < s[i].spec_rules().len() && (#[trigger] s[i].spec_rules()[k])
            is Parallel
}

/// Two systems may share an execution group only when neither may write
/// what the other touches: each one's combined access misses the other's
/// writes.
pub open spec fn masks_compatible(
    reads_a: ResourceMask,
    writes_a: ResourceMask,
    reads_b: ResourceMask,
    writes_b: ResourceMask,
) -> bool {
    &&& (reads_a | writes_a) & writes_b == 0
    &&& (reads_b | writes_b) & writes_a == 0
}

/// Every identity is registered at most once and never shadows an anchor;
/// the registry is small enough that its graph's node count fits the
/// machine.
pub open(crate) spec fn entries_wf<S>(s: Seq<InjectionOrder<S>>) -> bool {
    &&& forall|i: int, j: int|
        0 <= i < j < s.len() ==> (#[trigger] s[i]).spec_id() != (#[trigger] s[j]).spec_id()
    &&& forall|i: int|
        0 <= i < s.len() ==> (#[trigger] s[i]).spec_id() != user_stage() && s[i].spec_id()
            != post_user_stage()
    &&& s.len() + 3 <= usize::MAX
}

/// Distinct graph nodes carry distinct stage identities.
pub(crate) proof fn lemma_node_stage_inj<S>(s: Seq<InjectionOrder<S>>, a: int, b: int)
    requires
        entries_wf(s),
        0 <= a < node_count(s),
        0 <= b < node_count(s),
        node_stage(s, a) == node_stage(s, b),
    ensures
        a == b,
{
    if a < b {
        if b < s.len() {
            assert(s[a].spec_id() != s[b].spec_id());
        }
    } else if b < a {
        if a < s.len() {
            assert(s[b].spec_id() != s[a].spec_id());
        }
    }
}

impl<S> Registry<S> {
    /// The registered entries, in registration order.
    pub open(crate) spec fn entries(self) -> Seq<InjectionOrder<S>> {
        self.systems@
    }

    /// The configured thread-count override.
    pub open(crate) spec fn spec_thread_count(self) -> Option<usize> {
        self.thread_count
    }

    /// Every identity is registered at most once and never shadows an
    /// anchor; the registry is small enough that its graph's node count
    /// fits the machine.
    pub open(crate) spec fn wf(self) -> bool {
        entries_wf(self.systems@)
    }

    /// An empty registry with no thread-count override.
    pub fn new() -> (r: Registry<S>)
        ensures
            r.entries().len() == 0,
            r.spec_thread_count() is None,
            r.wf(),
    {
        Registry { systems: Vec::new(), thread_count: None }
    }

    /// Overrides how many worker threads the compiled plan is balanced
    /// for; `None` falls back to the machine's parallelism.
    pub fn set_thread_count(&mut self, thread_count: Option<usize>)
        ensures
            final(self).entries() == old(self).entries(),
            final(self).spec_thread_count() == thread_count,
            old(self).wf() ==> final(self).wf(),
    {
        self.thread_count = thread_count;
    }

    /// Registers `system` under the identity `id`, with the default rules
    /// (pinned between the anchors) and empty access masks. Fails with
    /// `Overlapping` when the identity is already taken and with
    /// `InvalidName` when it names a reserved anchor. On success the
    /// returned borrow configures the fresh entry in place.
    pub fn insert(&mut self, id: StageId, system: S) -> (r: Result<
        &mut InjectionOrder<S>,
        StageError,
    >)
        requires
            old(self).entries().len() + 4 <= usize::MAX,
        ensures
            (exists|i: int|
                0 <= i < old(self).entries().len() && (#[trigger] old(self).entries()[i]).spec_id()
                    == id) ==> (r matches Err(e) && e == StageError::Overlapping && *final(self)
                == *old(self)),
            (forall|i: int|
                0 <= i < old(self).entries().len() ==> (#[trigger] old(self).entries()[
                i]).spec_id() != id) && (id == user_stage() || id == post_user_stage()) ==> (
            r matches Err(e) && e == StageError::InvalidName && *final(self) == *old(self)),
            (forall|i: int|
                0 <= i < old(self).entries().len() ==> (#[trigger] old(self).entries()[
                i]).spec_id() != id) && id != user_stage() && id != post_user_stage() ==> (
            r matches Ok(b) && {
                &&& b.is_fresh(id)
                &&& b.spec_system() == system
                &&& final(self).entries() == old(self).entries().push(*final(b))
                &&& final(self).spec_thread_count() == old(self).spec_thread_count()
                &&& (old(self).wf() && final(b).spec_id() == id ==> final(self).wf())
            }),
    {
        let n = self.systems.len();
        let mut i: usize = 0;
        while i < n
            invariant
                *self == *old(self),
                n == self.systems@.len(),
                i <= n,
                forall|k: int| 0 <= k < i ==> (#[trigger] self.systems@[k]).spec_id() != id,
        decreases n - i,
        {
            if self.systems[i].id == id {
                proof {
                    assert(old(self).entries()[i as int].spec_id() == id);
                }
                return Err(StageError::Overlapping);
            }
            i += 1;
        }
        if id == crate::rules::user() || id == crate::rules::post_user() {
            return Err(StageError::InvalidName);
        }
        self.systems.push(InjectionOrder::new(id, system));
        let last = self.systems.len() - 1;
        Ok(&mut self.systems[last])
    }
}

impl<S> Default for Registry<S> {
    /// An empty registry with no thread-count override.
    fn default() -> (r: Registry<S>)
        ensures
            r.entries().len() == 0,
            r.spec_thread_count() is None,
            r.wf(),
    {
        Registry::new()
    }
}

} // verus!
verus! {

/// Whether the edge list holds the edge `a -> b`.
pub open(crate) spec fn edge_listed(edges: Seq<(usize, usize)>, a: int, b: int) -> bool {
    exists|j: int|
        0 <= j < edges.len() && (#[trigger] edges[j]).0 as int == a && edges[j].1 as int == b
}

/// The flat co-membership table built from `Parallel` rules: each element
/// pairs a stage with the co-membership list it belongs to.
pub open(crate) spec fn listed_together(flat: Seq<(StageId, usize)>, a: StageId, b: StageId) -> bool {
    exists|p: int, q: int|
        0 <= p < flat.len() && 0 <= q < flat.len() && (#[trigger] flat[p]).0 == a && (
        #[trigger] flat[q]).0 == b && flat[p].1 == flat[q].1
}

impl<S> Registry<S> {
    /// The first registered entry with identity `t`, if any.
    pub(crate) fn find_node(systems: &Vec<InjectionOrder<S>>, t: StageId) -> (r: Option<usize>)
        ensures
            r matches Some(i) ==> i < systems@.len() && systems@[i as int].spec_id() == t,
            r is None ==> forall|i: int|
                0 <= i < systems@.len() ==> (#[trigger] systems@[i]).spec_id() != t,
    {
        let n = systems.len();
        let mut i: usize = 0;
        while i < n
            invariant
                n == systems@.len(),
                i <= n,
                forall|k: int| 0 <= k < i ==> (#[trigger] systems@[k]).spec_id() != t,
            decreases n - i,
        {
            if systems[i].id == t {
                return Some(i);
            }
            i += 1;
        }
        None
    }

    /// Builds the dependency edges and the `Parallel` co-membership table
    /// from the registered rules. Fails with `MissingStage` exactly when
    /// some rule references an identity that is neither an anchor nor
    /// registered.
    fn build_edges(systems: &Vec<InjectionOrder<S>>) -> (r: Result<
        (Vec<(usize, usize)>, Vec<(StageId, usize)>),
        RegistrySortingError,
    >)
        requires
            entries_wf(systems@),
        ensures
            r matches Err(e) ==> has_dangling(systems@) && (e matches
                RegistrySortingError::MissingStage(a, t) && is_dangling(systems@, t)
                && names_rule_target(systems@, a, t)),
            r matches Ok(built) ==> {
                &&& !has_dangling(systems@)
                &&& crate::graph::edges_wf(node_count(systems@), built.0@)
                &&& forall|j: int|
                    0 <= j < built.0@.len() ==> is_edge(
                        systems@,
                        (#[trigger] built.0@[j]).0 as int,
                        built.0@[j].1 as int,
                    )
                &&& forall|a: int, b: int|
                    #[trigger] is_edge(systems@, a, b) ==> edge_listed(built.0@, a, b)
                &&& forall|i: int, k: int|
                    0 <= i < systems@.len() && 0 <= k < systems@[i].spec_rules().len() && (
                    #[trigger] systems@[i].spec_rules()[k]) is Parallel ==> listed_together(
                        built.1@,
                        systems@[i].spec_id(),
                        systems@[i].spec_rules()[k].reference(),
                    )
                &&& (built.1@.len() > 0 ==> has_parallel_rule(systems@))
            },
    {
        let n = systems.len();
        let mut edges: Vec<(usize, usize)> = Vec::new();
        let mut flat: Vec<(StageId, usize)> = Vec::new();
        let mut next_list: usize = 0;
        edges.push((n, n + 1));
        proof {
            assert(edges@[0] == (n, (n + 1) as usize));
            assert(is_edge(systems@, n as int, n as int + 1));
        }
        let mut i: usize = 0;
        while i < n
            invariant
                n == systems@.len(),
                n + 3 <= usize::MAX,
                entries_wf(systems@),
                i <= n,
                forall|j: int|
                    0 <= j < edges@.len() ==> is_edge(
                        systems@,
                        (#[trigger] edges@[j]).0 as int,
                        edges@[j].1 as int,
                    ),
                edge_listed(edges@, n as int, n as int + 1),
                forall|ii: int, kk: int|
                    0 <= ii < i && 0 <= kk < systems@[ii].spec_rules().len() ==> rule_recorded(
                        systems@,
                        edges@,
                        flat@,
                        ii,
                        kk,
                    ),
                forall|ii: int, kk: int|
                    0 <= ii < i && 0 <= kk < systems@[ii].spec_rules().len() ==> !is_dangling(
                        systems@,
                        (#[trigger] systems@[ii].spec_rules()[kk]).reference(),
                    ),
                flat@.len() > 0 ==> has_parallel_rule(systems@),
            decreases n - i,
        {
            let rules_len = systems[i].rules.len();
            let mut k: usize = 0;
            while k < rules_len
                invariant
                    n == systems@.len(),
                    n + 3 <= usize::MAX,
                    entries_wf(systems@),
                    i < n,
                    k <= rules_len,
                    rules_len == systems@[i as int].spec_rules().len(),
                    forall|j: int|
                        0 <= j < edges@.len() ==> is_edge(
                            systems@,
                            (#[trigger] edges@[j]).0 as int,
                            edges@[j].1 as int,
                        ),
                    edge_listed(edges@, n as int, n as int + 1),
                    forall|ii: int, kk: int|
                        0 <= ii < i && 0 <= kk < systems@[ii].spec_rules().len() ==> rule_recorded(
                            systems@,
                            edges@,
                            flat@,
                            ii,
                            kk,
                        ),
                    forall|kk: int| 0 <= kk < k ==> rule_recorded(systems@, edges@, flat@, i as int, kk),
                    forall|ii: int, kk: int|
                        0 <= ii < i && 0 <= kk < systems@[ii].spec_rules().len() ==> !is_dangling(
                            systems@,
                            (#[trigger] systems@[ii].spec_rules()[kk]).reference(),
                        ),
                    forall|kk: int|
                        0 <= kk < k ==> !is_dangling(
                            systems@,
                            (#[trigger] systems@[i as int].spec_rules()[kk]).reference(),
                        ),
                    flat@.len() > 0 ==> has_parallel_rule(systems@),
                decreases rules_len - k,
            {
                let rule = systems[i].rules[k];
                let target = match rule {
                    InjectionRule::Before(t) => t,
                    InjectionRule::After(t) => t,
                    InjectionRule::Parallel(t) => t,
                };
                let node: usize = if target == crate::rules::user() {
                    n
                } else if target == crate::rules::post_user() {
                    n + 1
                } else {
                    match Self::find_node(systems, target) {
                        Some(x) => x,
                        None => {
                            proof {
                                assert(systems@[i as int].spec_rules()[k as int].reference()
                                    == target);
                                assert(names_rule_target(
                                    systems@,
                                    systems@[i as int].spec_id(),
                                    target,
                                ));
                            }
                            return Err(RegistrySortingError::MissingStage(systems[i].id, target));
                        },
                    }
                };
                proof {
                    assert(node_stage(systems@, node as int) == target);
                }
                match rule {
                    InjectionRule::Before(_) => {
                        let ghost edges_before = edges@;
                        edges.push((i, node));
                        proof {
                            assert(edges@[edges_before.len() as int] == (i, node));
                            lemma_listed_grows(edges_before, edges@, flat@, flat@, systems@, i as int);
                            assert(edge_listed(edges@, i as int, node as int));
                            assert forall|b: int|
                                0 <= b < node_count(systems@) && node_stage(systems@, b)
                                    == target implies edge_listed(edges@, i as int, b) by {
                                lemma_node_stage_inj(systems@, b, node as int);
                            }
                            assert(is_edge(systems@, i as int, node as int)) by {
                                assert(systems@[i as int].spec_rules()[k as int]
                                    == InjectionRule::Before(target));
                                assert(systems@[i as int].spec_rules().contains(
                                    InjectionRule::Before(node_stage(systems@, node as int)),
                                ));
                            }
                        }
                    },
                    InjectionRule::After(_) => {
                        let ghost edges_before = edges@;
                        edges.push((node, i));
                        proof {
                            assert(edges@[edges_before.len() as int] == (node, i));
                            lemma_listed_grows(edges_before, edges@, flat@, flat@, systems@, i as int);
                            assert(edge_listed(edges@, node as int, i as int));
                            assert forall|a: int|
                                0 <= a < node_count(systems@) && node_stage(systems@, a)
                                    == target implies edge_listed(edges@, a, i as int) by {
                                lemma_node_stage_inj(systems@, a, node as int);
                            }
                            assert(is_edge(systems@, node as int, i as int)) by {
                                assert(systems@[i as int].spec_rules()[k as int]
                                    == InjectionRule::After(target));
                                assert(systems@[i as int].spec_rules().contains(
                                    InjectionRule::After(node_stage(systems@, node as int)),
                                ));
                            }
                        }
                    },
                    InjectionRule::Parallel(_) => {
                        let ghost flat_before = flat@;
                        let own = systems[i].id;
                        let mut p: usize = 0;
                        let m = flat.len();
                        let mut found: Option<usize> = None;
                        while p < m
                            invariant
                                m == flat@.len(),
                                p <= m,
                                found matches Some(l) ==> exists|q: int|
                                    0 <= q < flat@.len() && (#[trigger] flat@[q]).0 == target
                                        && flat@[q].1 == l,
                            decreases m - p,
                        {
                            if flat[p].0 == target {
                                found = Some(flat[p].1);
                                proof {
                                    assert(flat@[p as int].0 == target);
                                }
                            }
                            p += 1;
                        }
                        match found {
                            Some(l) => {
                                flat.push((own, l));
                                proof {
                                    assert(flat@[flat_before.len() as int] == (own, l));
                                    let q = choose|q: int|
                                        0 <= q < flat_before.len() && (#[trigger] flat_before[
                                        q]).0 == target && flat_before[q].1 == l;
                                    assert(flat@[q] == flat_before[q]);
                                    assert(listed_together(flat@, own, target));
                                    lemma_listed_grows(edges@, edges@, flat_before, flat@, systems@, i as int);
                                }
                            },
                            None => {
                                flat.push((own, next_list));
                                flat.push((target, next_list));
                                proof {
                                    assert(flat@[flat_before.len() as int] == (own, next_list));
                                    assert(flat@[flat_before.len() as int + 1] == (
                                        target,
                                        next_list,
                                    ));
                                    assert(listed_together(flat@, own, target));
                                    lemma_listed_grows(edges@, edges@, flat_before, flat@, systems@, i as int);
                                }
                                if next_list < usize::MAX {
                                    next_list += 1;
                                }
                            },
                        }
                        proof {
                            assert(has_parallel_rule(systems@)) by {
                                assert(0 <= i < systems@.len() && 0 <= k < systems@[
                                i as int].spec_rules().len() && systems@[i as int].spec_rules()[
                                k as int] is Parallel);
                            }
                        }
                    },
                }
                proof {
                    assert(rule_recorded(systems@, edges@, flat@, i as int, k as int)) by {
                        assert(systems@[i as int].spec_rules()[k as int] == rule);
                    }
                }
                k += 1;
            }
            i += 1;
        }
        proof {
            assert(!has_dangling(systems@)) by {
                if has_dangling(systems@) {
                    let (di, dk) = choose|di: int, dk: int|
                        0 <= di < systems@.len() && 0 <= dk < systems@[di].spec_rules().len()
                            && is_dangling(
                            systems@,
                            (#[trigger] systems@[di].spec_rules()[dk]).reference(),
                        );
                    assert(!is_dangling(systems@, systems@[di].spec_rules()[dk].reference()));
                }
            }
            assert forall|i: int, k: int|
                0 <= i < systems@.len() && 0 <= k < systems@[i].spec_rules().len() && (#[trigger]
            systems@[i].spec_rules()[k]) is Parallel implies listed_together(
                flat@,
                systems@[i].spec_id(),
                systems@[i].spec_rules()[k].reference(),
            ) by {
                assert(rule_recorded(systems@, edges@, flat@, i, k));
            }
            assert forall|a: int, b: int| #[trigger]
                is_edge(systems@, a, b) implies edge_listed(edges@, a, b) by {
                lemma_is_edge_complete(systems@, edges@, flat@, a, b);
            }
            assert(crate::graph::edges_wf(node_count(systems@), edges@)) by {
                assert forall|j: int|
                    0 <= j < edges@.len() implies (#[trigger] edges@[j]).0 < node_count(systems@)
                        && edges@[j].1 < node_count(systems@) by {
                    assert(is_edge(systems@, edges@[j].0 as int, edges@[j].1 as int));
                }
            }
        }
        Ok((edges, flat))
    }
}

/// Rule `k` of system `i` has been recorded: an ordering rule as the edge
/// it demands, a `Parallel` rule as a shared co-membership entry.
pub open(crate) spec fn rule_recorded<S>(
    s: Seq<InjectionOrder<S>>,
    edges: Seq<(usize, usize)>,
    flat: Seq<(StageId, usize)>,
    i: int,
    k: int,
) -> bool {
    match s[i].spec_rules()[k] {
        InjectionRule::Before(t) => forall|b: int|
            0 <= b < node_count(s) && node_stage(s, b) == t ==> edge_listed(edges, i, b),
        InjectionRule::After(t) => forall|a: int|
            0 <= a < node_count(s) && node_stage(s, a) == t ==> edge_listed(edges, a, i),
        InjectionRule::Parallel(t) => listed_together(flat, s[i].spec_id(), t),
    }
}

/// Recorded rules stay recorded as the edge list and the co-membership
/// table grow at the end.
proof fn lemma_listed_grows<S>(
    edges1: Seq<(usize, usize)>,
    edges2: Seq<(usize, usize)>,
    flat1: Seq<(StageId, usize)>,
    flat2: Seq<(StageId, usize)>,
    s: Seq<InjectionOrder<S>>,
    hi: int,
)
    requires
        edges1.is_prefix_of(edges2),
        flat1.is_prefix_of(flat2),
    ensures
        forall|a: int, b: int| edge_listed(edges1, a, b) ==> #[trigger] edge_listed(edges2, a, b),
        forall|a: StageId, b: StageId|
            listed_together(flat1, a, b) ==> #[trigger] listed_together(flat2, a, b),
        forall|ii: int, kk: int|
            0 <= ii < s.len() && 0 <= kk < s[ii].spec_rules().len() && rule_recorded(
                s,
                edges1,
                flat1,
                ii,
                kk,
            ) ==> #[trigger] rule_recorded(s, edges2, flat2, ii, kk),
{
    assert forall|a: int, b: int| edge_listed(edges1, a, b) implies #[trigger] edge_listed(
        edges2,
        a,
        b,
    ) by {
        let j = choose|j: int|
            0 <= j < edges1.len() && (#[trigger] edges1[j]).0 as int == a && edges1[j].1 as int
                == b;
        assert(edges2[j] == edges1[j]);
    }
    assert forall|a: StageId, b: StageId| listed_together(flat1, a, b) implies
        #[trigger] listed_together(flat2, a, b) by {
        let (p, q) = choose|p: int, q: int|
            0 <= p < flat1.len() && 0 <= q < flat1.len() && (#[trigger] flat1[p]).0 == a && (
            #[trigger] flat1[q]).0 == b && flat1[p].1 == flat1[q].1;
        assert(flat2[p] == flat1[p]);
        assert(flat2[q] == flat1[q]);
    }
}

/// Every dependency edge of the model is in the built edge list, because
/// every rule was recorded.
proof fn lemma_is_edge_complete<S>(
    s: Seq<InjectionOrder<S>>,
    edges: Seq<(usize, usize)>,
    flat: Seq<(StageId, usize)>,
    a: int,
    b: int,
)
    requires
        is_edge(s, a, b),
        edge_listed(edges, s.len() as int, s.len() as int + 1),
        forall|ii: int, kk: int|
            0 <= ii < s.len() && 0 <= kk < s[ii].spec_rules().len() ==> rule_recorded(
                s,
                edges,
                flat,
                ii,
                kk,
            ),
    ensures
        edge_listed(edges, a, b),
{
    if a == s.len() && b == s.len() + 1 {
    } else if 0 <= a < s.len() && s[a].spec_rules().contains(
        InjectionRule::Before(node_stage(s, b)),
    ) {
        let k = choose|k: int|
            0 <= k < s[a].spec_rules().len() && s[a].spec_rules()[k] == InjectionRule::Before(
                node_stage(s, b),
            );
        assert(rule_recorded(s, edges, flat, a, k));
    } else {
        let k = choose|k: int|
            0 <= k < s[b].spec_rules().len() && s[b].spec_rules()[k] == InjectionRule::After(
                node_stage(s, a),
            );
        assert(rule_recorded(s, edges, flat, b, k));
    }
}

} // verus!
verus! {

/// `sub` only has bits that `sup` has.
pub open(crate) spec fn mask_subset(sub: ResourceMask, sup: ResourceMask) -> bool {
    sub & sup == sub
}

proof fn lemma_bit_or_zero(a: u64, b: u64, m: u64)
    requires
        (a | b) & m == 0,
    ensures
        a & m == 0,
        b & m == 0,
{
    assert((a | b) & m == 0 ==> a & m == 0 && b & m == 0) by (bit_vector);
}

proof fn lemma_bit_sub_disj(x: u64, sub: u64, sup: u64)
    requires
        sub & sup == sub,
        x & sup == 0,
    ensures
        x & sub == 0,
        sub & x == 0,
{
    assert(sub & sup == sub && x & sup == 0 ==> x & sub == 0 && sub & x == 0) by (bit_vector);
}

proof fn lemma_bit_sub_grow(sub: u64, sup: u64, extra: u64)
    requires
        sub & sup == sub,
    ensures
        sub & (sup | extra) == sub,
{
    assert(sub & sup == sub ==> sub & (sup | extra) == sub) by (bit_vector);
}

proof fn lemma_bit_sub_or_self(a: u64, m: u64)
    ensures
        a & (m | a) == a,
        a & a == a,
{
    assert(a & (m | a) == a && a & a == a) by (bit_vector);
}

/// A fresh member is compatible with every present member of the group it
/// joins: the group's aggregated masks bound each member's masks, and the
/// acceptance test checked the fresh masks against the aggregates.
proof fn lemma_join_compatible(
    r: u64,
    w: u64,
    r_old: u64,
    w_old: u64,
    g_reads: u64,
    g_writes: u64,
)
    requires
        mask_subset(r_old, g_reads),
        mask_subset(w_old, g_writes),
        (r | w) & g_writes == 0,
        w & g_reads == 0,
    ensures
        masks_compatible(r, w, r_old, w_old),
{
    lemma_bit_or_zero(r, w, g_writes);
    lemma_bit_sub_disj(r | w, w_old, g_writes);
    lemma_bit_sub_disj(w, r_old, g_reads);
    lemma_bit_sub_disj(w, w_old, g_writes);
    assert(r_old & w == 0 && w_old & w == 0 ==> (r_old | w_old) & w == 0) by (bit_vector);
}

impl<S> Registry<S> {
    /// Greedily batches the systems into groups: in depth order, and in
    /// registration order within one depth, each system joins the first
    /// group of its own depth whose members it cannot conflict with, or
    /// founds a new group. Returns, per system, the index of its group,
    /// and, per group, the group's depth and aggregated access masks.
    fn group_systems(systems: &Vec<InjectionOrder<S>>, depth: &Vec<usize>) -> (r: (
        Vec<usize>,
        Vec<usize>,
        Vec<u64>,
        Vec<u64>,
    ))
        requires
            depth@.len() >= systems@.len(),
            forall|i: int| 0 <= i < systems@.len() ==> (#[trigger] depth@[i]) < usize::MAX,
        ensures
            ({
                let (assign, gdepth, greads, gwrites) = r;
                &&& assign@.len() == systems@.len()
                &&& greads@.len() == gdepth@.len()
                &&& gwrites@.len() == gdepth@.len()
                &&& forall|i: int|
                    0 <= i < systems@.len() ==> (#[trigger] assign@[i]) < gdepth@.len()
                        && gdepth@[assign@[i] as int] == depth@[i]
                &&& forall|g1: int, g2: int|
                    0 <= g1 <= g2 < gdepth@.len() ==> (#[trigger] gdepth@[g1]) <= (
                    #[trigger] gdepth@[g2])
                &&& forall|i: int, ii: int|
                    0 <= i < systems@.len() && 0 <= ii < systems@.len() && i != ii && assign@[i]
                        == assign@[ii] ==> masks_compatible(
                        systems@[i].spec_reads(),
                        systems@[i].spec_writes(),
                        systems@[ii].spec_reads(),
                        systems@[ii].spec_writes(),
                    )
            }),
    {
        let n = systems.len();
        let mut maxd: usize = 0;
        let mut i: usize = 0;
        while i < n
            invariant
                n == systems@.len(),
                depth@.len() >= n,
                i <= n,
                forall|ii: int| 0 <= ii < i ==> (#[trigger] depth@[ii]) <= maxd,
                maxd < usize::MAX,
                forall|ii: int| 0 <= ii < n ==> (#[trigger] depth@[ii]) < usize::MAX,
            decreases n - i,
        {
            if depth[i] > maxd {
                maxd = depth[i];
            }
            i += 1;
        }
        let mut assign: Vec<usize> = vec![0usize; n];
        let mut assigned: Vec<bool> = vec![false; n];
        let mut gdepth: Vec<usize> = Vec::new();
        let mut greads: Vec<u64> = Vec::new();
        let mut gwrites: Vec<u64> = Vec::new();
        let mut d: usize = 0;
        while d <= maxd
            invariant
                n == systems@.len(),
                depth@.len() >= n,
                d <= maxd + 1,
                maxd < usize::MAX,
                forall|ii: int| 0 <= ii < n ==> (#[trigger] depth@[ii]) <= maxd,
                assign@.len() == n,
                assigned@.len() == n,
                greads@.len() == gdepth@.len(),
                gwrites@.len() == gdepth@.len(),
                forall|ii: int|
                    0 <= ii < n ==> ((#[trigger] assigned@[ii]) <==> depth@[ii] < d),
                forall|ii: int|
                    0 <= ii < n && assigned@[ii] ==> (#[trigger] assign@[ii]) < gdepth@.len()
                        && gdepth@[assign@[ii] as int] == depth@[ii],
                forall|g1: int, g2: int|
                    0 <= g1 <= g2 < gdepth@.len() ==> (#[trigger] gdepth@[g1]) <= (
                    #[trigger] gdepth@[g2]),
                forall|g: int| 0 <= g < gdepth@.len() ==> (#[trigger] gdepth@[g]) < d,
                forall|ii: int|
                    0 <= ii < n && assigned@[ii] ==> mask_subset(
                        (#[trigger] systems@[ii]).spec_reads(),
                        greads@[assign@[ii] as int],
                    ) && mask_subset(systems@[ii].spec_writes(), gwrites@[assign@[ii] as int]),
                forall|i1: int, i2: int|
                    0 <= i1 < n && 0 <= i2 < n && i1 != i2 && assigned@[i1] && assigned@[i2]
                        && assign@[i1] == assign@[i2] ==> masks_compatible(
                        (#[trigger] systems@[i1]).spec_reads(),
                        systems@[i1].spec_writes(),
                        (#[trigger] systems@[i2]).spec_reads(),
                        systems@[i2].spec_writes(),
                    ),
            decreases maxd + 1 - d,
        {
            let mut i: usize = 0;
            while i < n
                invariant
                    n == systems@.len(),
                    depth@.len() >= n,
                    d <= maxd,
                    maxd < usize::MAX,
                    i <= n,
                    forall|ii: int| 0 <= ii < n ==> (#[trigger] depth@[ii]) <= maxd,
                    assign@.len() == n,
                    assigned@.len() == n,
                    greads@.len() == gdepth@.len(),
                    gwrites@.len() == gdepth@.len(),
                    forall|ii: int|
                        0 <= ii < n ==> ((#[trigger] assigned@[ii]) <==> (depth@[ii] < d || (
                        depth@[ii] == d && ii < i))),
                    forall|ii: int|
                        0 <= ii < n && assigned@[ii] ==> (#[trigger] assign@[ii]) < gdepth@.len()
                            && gdepth@[assign@[ii] as int] == depth@[ii],
                    forall|g1: int, g2: int|
                        0 <= g1 <= g2 < gdepth@.len() ==> (#[trigger] gdepth@[g1]) <= (
                        #[trigger] gdepth@[g2]),
                    forall|g: int| 0 <= g < gdepth@.len() ==> (#[trigger] gdepth@[g]) <= d,
                    forall|ii: int|
                        0 <= ii < n && assigned@[ii] ==> mask_subset(
                            (#[trigger] systems@[ii]).spec_reads(),
                            greads@[assign@[ii] as int],
                        ) && mask_subset(systems@[ii].spec_writes(), gwrites@[assign@[ii] as int]),
                    forall|i1: int, i2: int|
                        0 <= i1 < n && 0 <= i2 < n && i1 != i2 && assigned@[i1] && assigned@[i2]
                            && assign@[i1] == assign@[i2] ==> masks_compatible(
                            (#[trigger] systems@[i1]).spec_reads(),
                            systems@[i1].spec_writes(),
                            (#[trigger] systems@[i2]).spec_reads(),
                            systems@[i2].spec_writes(),
                        ),
                decreases n - i,
            {
                if depth[i] == d {
                    let r = systems[i].reads;
                    let w = systems[i].writes;
                    let glen = gdepth.len();
                    let mut g: usize = 0;
                    let mut found: Option<usize> = None;
                    while g < glen
                        invariant
                            glen == gdepth@.len(),
                            greads@.len() == glen,
                            gwrites@.len() == glen,
                            g <= glen,
                            found matches Some(fg) ==> fg < glen && gdepth@[fg as int] == d && ((r
                                | w) & gwrites@[fg as int]) == 0 && (w & greads@[fg as int]) == 0,
                        decreases glen - g,
                    {
                        if found.is_none() && gdepth[g] == d && ((r | w) & gwrites[g]) == 0 && (w
                            & greads[g]) == 0 && (w & gwrites[g]) == 0 {
                            found = Some(g);
                        }
                        g += 1;
                    }
                    let ghost pre_glen = gdepth@.len() as int;
                    match found {
                        Some(fg) => {
                            assign[i] = fg;
                            assigned[i] = true;
                            let ghost old_reads = greads@[fg as int];
                            let ghost old_writes = gwrites@[fg as int];
                            greads[fg] = greads[fg] | r;
                            gwrites[fg] = gwrites[fg] | w;
                            proof {
                                assert forall|ii: int|
                                    0 <= ii < n && assigned@[ii] implies mask_subset(
                                    (#[trigger] systems@[ii]).spec_reads(),
                                    greads@[assign@[ii] as int],
                                ) && mask_subset(
                                    systems@[ii].spec_writes(),
                                    gwrites@[assign@[ii] as int],
                                ) by {
                                    if ii == i {
                                        lemma_bit_sub_or_self(r, old_reads);
                                        lemma_bit_sub_or_self(w, old_writes);
                                    } else if assign@[ii] as int == fg as int {
                                        lemma_bit_sub_grow(
                                            systems@[ii].spec_reads(),
                                            old_reads,
                                            r,
                                        );
                                        lemma_bit_sub_grow(
                                            systems@[ii].spec_writes(),
                                            old_writes,
                                            w,
                                        );
                                    }
                                }
                                assert forall|i1: int, i2: int|
                                    0 <= i1 < n && 0 <= i2 < n && i1 != i2 && assigned@[i1]
                                        && assigned@[i2] && assign@[i1] == assign@[i2] implies
                                    masks_compatible(
                                    (#[trigger] systems@[i1]).spec_reads(),
                                    systems@[i1].spec_writes(),
                                    (#[trigger] systems@[i2]).spec_reads(),
                                    systems@[i2].spec_writes(),
                                ) by {
                                    if i1 == i as int && assign@[i2] as int == fg as int {
                                        lemma_join_compatible(
                                            r,
                                            w,
                                            systems@[i2].spec_reads(),
                                            systems@[i2].spec_writes(),
                                            old_reads,
                                            old_writes,
                                        );
                                    } else if i2 == i as int && assign@[i1] as int == fg as int {
                                        lemma_join_compatible(
                                            r,
                                            w,
                                            systems@[i1].spec_reads(),
                                            systems@[i1].spec_writes(),
                                            old_reads,
                                            old_writes,
                                        );
                                        assert(masks_compatible(
                                            systems@[i1].spec_reads(),
                                            systems@[i1].spec_writes(),
                                            r,
                                            w,
                                        ));
                                    }
                                }
                            }
                        },
                        None => {
                            assign[i] = glen;
                            assigned[i] = true;
                            gdepth.push(d);
                            greads.push(r);
                            gwrites.push(w);
                            proof {
                                lemma_bit_sub_or_self(r, 0);
                                lemma_bit_sub_or_self(w, 0);
                                assert(r & r == r && w & w == w);
                                assert(gdepth@[pre_glen] == d);
                                assert(greads@[pre_glen] == r);
                                assert(gwrites@[pre_glen] == w);
                            }
                        },
                    }
                }
                i += 1;
            }
            d += 1;
        }
        proof {
            assert forall|ii: int| 0 <= ii < n implies assigned@[ii] by {
                assert(depth@[ii] <= maxd);
            }
        }
        (assign, gdepth, greads, gwrites)
    }
}

} // verus!
verus! {

/// The identities of the systems among the first `upto` whose group is
/// `g`, in registration order.
pub open(crate) spec fn ids_in_group<S>(
    s: Seq<InjectionOrder<S>>,
    assign: Seq<usize>,
    g: int,
    upto: int,
) -> Seq<StageId>
    decreases upto,
{
    if upto <= 0 {
        Seq::empty()
    } else {
        ids_in_group(s, assign, g, upto - 1) + (if assign[upto - 1] as int == g {
            seq![s[upto - 1].spec_id()]
        } else {
            Seq::empty()
        })
    }
}

/// A stage is in a group's member list exactly when some system with that
/// identity was assigned to the group.
pub(crate) proof fn lemma_ids_in_group_contains<S>(
    s: Seq<InjectionOrder<S>>,
    assign: Seq<usize>,
    g: int,
    upto: int,
    t: StageId,
)
    requires
        0 <= upto <= s.len(),
    ensures
        ids_in_group(s, assign, g, upto).contains(t) <==> exists|i: int|
            0 <= i < upto && (#[trigger] assign[i]) as int == g && s[i].spec_id() == t,
    decreases upto,
{
    if upto > 0 {
        lemma_ids_in_group_contains(s, assign, g, upto - 1, t);
        let prefix = ids_in_group(s, assign, g, upto - 1);
        let whole = ids_in_group(s, assign, g, upto);
        if assign[upto - 1] as int == g && s[upto - 1].spec_id() == t {
            assert(whole[whole.len() - 1] == t);
            assert(whole.contains(t));
        }
        if whole.contains(t) {
            let k = choose|k: int| 0 <= k < whole.len() && whole[k] == t;
            if k < prefix.len() {
                assert(prefix[k] == t);
                assert(prefix.contains(t));
            } else {
                assert(assign[upto - 1] as int == g && s[upto - 1].spec_id() == t);
            }
        }
        if exists|i: int| 0 <= i < upto && (#[trigger] assign[i]) as int == g && s[i].spec_id() == t {
            let i = choose|i: int|
                0 <= i < upto && (#[trigger] assign[i]) as int == g && s[i].spec_id() == t;
            if i < upto - 1 {
                assert(prefix.contains(t));
                let k = choose|k: int| 0 <= k < prefix.len() && prefix[k] == t;
                assert(whole[k] == t);
                assert(whole.contains(t));
            }
        }
    }
}

/// Every element of a group's member list is the identity of a system
/// assigned to the group.
pub(crate) proof fn lemma_ids_in_group_index<S>(
    s: Seq<InjectionOrder<S>>,
    assign: Seq<usize>,
    g: int,
    upto: int,
    k: int,
)
    requires
        0 <= upto <= s.len(),
        0 <= k < ids_in_group(s, assign, g, upto).len(),
    ensures
        exists|i: int|
            0 <= i < upto && (#[trigger] assign[i]) as int == g && s[i].spec_id() == ids_in_group(
                s,
                assign,
                g,
                upto,
            )[k],
{
    let whole = ids_in_group(s, assign, g, upto);
    assert(whole.contains(whole[k]));
    lemma_ids_in_group_contains(s, assign, g, upto, whole[k]);
}

/// With distinct identities, a group's member list has no duplicates.
pub(crate) proof fn lemma_ids_in_group_nodup<S>(
    s: Seq<InjectionOrder<S>>,
    assign: Seq<usize>,
    g: int,
    upto: int,
)
    requires
        0 <= upto <= s.len(),
        forall|i: int, j: int|
            0 <= i < j < s.len() ==> (#[trigger] s[i]).spec_id() != (#[trigger] s[j]).spec_id(),
    ensures
        ids_in_group(s, assign, g, upto).no_duplicates(),
    decreases upto,
{
    if upto > 0 {
        lemma_ids_in_group_nodup(s, assign, g, upto - 1);
        let prefix = ids_in_group(s, assign, g, upto - 1);
        let whole = ids_in_group(s, assign, g, upto);
        if assign[upto - 1] as int == g {
            assert(!prefix.contains(s[upto - 1].spec_id())) by {
                lemma_ids_in_group_contains(s, assign, g, upto - 1, s[upto - 1].spec_id());
                if prefix.contains(s[upto - 1].spec_id()) {
                    let i = choose|i: int|
                        0 <= i < upto - 1 && (#[trigger] assign[i]) as int == g && s[i].spec_id()
                            == s[upto - 1].spec_id();
                    assert(s[i].spec_id() != s[upto - 1].spec_id());
                }
            }
            assert forall|a: int, b: int| 0 <= a < b < whole.len() implies whole[a] != whole[b] by {
                if b < whole.len() - 1 {
                    assert(prefix[a] == whole[a] && prefix[b] == whole[b]);
                } else {
                    assert(whole[a] == prefix[a]);
                    assert(prefix.contains(prefix[a]));
                }
            }
        } else {
            assert(whole =~= prefix);
        }
    }
}

impl<S> Registry<S> {
    /// Lays the groups out as the column-major execution matrix: group `g`
    /// holds, in registration order, the identities assigned to it.
    fn build_matrix(
        systems: &Vec<InjectionOrder<S>>,
        assign: &Vec<usize>,
        group_count: usize,
    ) -> (m: Vec<Vec<StageId>>)
        requires
            assign@.len() == systems@.len(),
        ensures
            m@.len() == group_count,
            forall|g: int|
                0 <= g < group_count ==> (#[trigger] m@[g])@ == ids_in_group(
                    systems@,
                    assign@,
                    g,
                    systems@.len() as int,
                ),
    {
        let n = systems.len();
        let mut m: Vec<Vec<StageId>> = Vec::new();
        let mut g: usize = 0;
        while g < group_count
            invariant
                n == systems@.len(),
                assign@.len() == n,
                g <= group_count,
                m@.len() == g,
                forall|gg: int|
                    0 <= gg < g ==> (#[trigger] m@[gg])@ == ids_in_group(
                        systems@,
                        assign@,
                        gg,
                        n as int,
                    ),
            decreases group_count - g,
        {
            let mut row: Vec<StageId> = Vec::new();
            let mut i: usize = 0;
            while i < n
                invariant
                    n == systems@.len(),
                    assign@.len() == n,
                    i <= n,
                    row@ == ids_in_group(systems@, assign@, g as int, i as int),
                decreases n - i,
            {
                if assign[i] == g {
                    row.push(systems[i].id);
                    proof {
                        assert(row@ =~= ids_in_group(systems@, assign@, g as int, i as int)
                            + seq![systems@[i as int].spec_id()]);
                    }
                } else {
                    proof {
                        assert(row@ =~= ids_in_group(systems@, assign@, g as int, i as int)
                            + Seq::<StageId>::empty());
                    }
                }
                i += 1;
            }
            m.push(row);
            g += 1;
        }
        m
    }
}

} // verus!
verus! {

/// Some single group of the plan holds every stage of the co-membership
/// list that entry `p` belongs to.
pub open(crate) spec fn list_covered(
    flat: Seq<(StageId, usize)>,
    m: Seq<Seq<StageId>>,
    p: int,
) -> bool {
    exists|g: int|
        #![trigger m[g]]
        0 <= g < m.len() && forall|q: int|
            0 <= q < flat.len() && (#[trigger] flat[q]).1 == flat[p].1 ==> m[g].contains(flat[q].0)
}

/// The index of the entry registered under `t`.
pub open(crate) spec fn stage_index_of<S>(s: Seq<InjectionOrder<S>>, t: StageId) -> int {
    choose|i: int| 0 <= i < s.len() && (#[trigger] s[i]).spec_id() == t
}

/// The entry registered under `t`.
pub open(crate) spec fn stage_entry<S>(s: Seq<InjectionOrder<S>>, t: StageId) -> InjectionOrder<S> {
    s[stage_index_of(s, t)]
}

/// The plan mentions stage `t` in some group.
pub open(crate) spec fn plan_contains(m: Seq<Seq<StageId>>, t: StageId) -> bool {
    exists|g: int| 0 <= g < m.len() && (#[trigger] m[g]).contains(t)
}

/// Some entry is registered under `t`.
pub open(crate) spec fn is_registered<S>(s: Seq<InjectionOrder<S>>, t: StageId) -> bool {
    exists|i: int| 0 <= i < s.len() && (#[trigger] s[i]).spec_id() == t
}

/// Some single group of the plan holds both stages.
pub open(crate) spec fn co_resident(m: Seq<Seq<StageId>>, a: StageId, b: StageId) -> bool {
    exists|g: int| 0 <= g < m.len() && (#[trigger] m[g]).contains(a) && m[g].contains(b)
}

/// With distinct identities, `stage_entry` names the one entry registered
/// under `t`.
pub(crate) proof fn lemma_stage_entry<S>(s: Seq<InjectionOrder<S>>, t: StageId, i: int)
    requires
        forall|a: int, b: int|
            0 <= a < b < s.len() ==> (#[trigger] s[a]).spec_id() != (#[trigger] s[b]).spec_id(),
        0 <= i < s.len(),
        s[i].spec_id() == t,
    ensures
        stage_index_of(s, t) == i,
        stage_entry(s, t) == s[i],
{
    let j = stage_index_of(s, t);
    assert(0 <= j < s.len() && s[j].spec_id() == t);
    if i < j {
        assert(s[i].spec_id() != s[j].spec_id());
    } else if j < i {
        assert(s[j].spec_id() != s[i].spec_id());
    }
}

/// The built edge list and the edge relation of the model agree on
/// acyclicity: the same depth assignment witnesses both.
pub(crate) proof fn lemma_acyclic_transfer<S>(s: Seq<InjectionOrder<S>>, edges: Seq<(usize, usize)>)
    requires
        forall|j: int|
            0 <= j < edges.len() ==> is_edge(
                s,
                (#[trigger] edges[j]).0 as int,
                edges[j].1 as int,
            ),
        forall|a: int, b: int| #[trigger] is_edge(s, a, b) ==> edge_listed(edges, a, b),
    ensures
        crate::graph::acyclic(node_count(s), edges) <==> rules_acyclic(s),
{
    if crate::graph::acyclic(node_count(s), edges) {
        let dw = choose|depth: Seq<int>|
            depth.len() == node_count(s) && crate::graph::respects_edges(depth, edges);
        assert forall|a: int, b: int| #[trigger] is_edge(s, a, b) implies dw[a] < dw[b] by {
            let j = choose|j: int|
                0 <= j < edges.len() && (#[trigger] edges[j]).0 as int == a && edges[j].1 as int
                    == b;
            assert(dw[edges[j].0 as int] < dw[edges[j].1 as int]);
        }
        assert(dw.len() == node_count(s) && forall|a: int, b: int|
            #[trigger] is_edge(s, a, b) ==> dw[a] < dw[b]);
    }
    if rules_acyclic(s) {
        let dw = choose|depth: Seq<int>|
            depth.len() == node_count(s) && forall|a: int, b: int|
                #[trigger] is_edge(s, a, b) ==> depth[a] < depth[b];
        assert forall|j: int| 0 <= j < edges.len() implies dw[(#[trigger] edges[j]).0 as int] < dw[
            edges[j].1 as int] by {
            assert(is_edge(s, edges[j].0 as int, edges[j].1 as int));
        }
        assert(dw.len() == node_count(s) && crate::graph::respects_edges(dw, edges));
    }
}

impl<S> Registry<S> {
    /// Whether `v` holds `t`.
    fn stage_in(v: &Vec<StageId>, t: StageId) -> (r: bool)
        ensures
            r == v@.contains(t),
    {
        let n = v.len();
        let mut i: usize = 0;
        while i < n
            invariant
                n == v@.len(),
                i <= n,
                forall|k: int| 0 <= k < i ==> v@[k] != t,
            decreases n - i,
        {
            if v[i] == t {
                proof {
                    assert(v@[i as int] == t);
                }
                return true;
            }
            i += 1;
        }
        false
    }

    /// Validates the `Parallel` co-membership lists against the plan:
    /// every list must sit whole inside one group.
    fn check_parallel(flat: &Vec<(StageId, usize)>, matrix: &Vec<Vec<StageId>>) -> (ok: bool)
        ensures
            ok ==> forall|p: int|
                #![trigger flat@[p]]
                0 <= p < flat@.len() ==> list_covered(
                    flat@,
                    matrix@.map_values(|v: Vec<StageId>| v@),
                    p,
                ),
            !ok ==> flat@.len() > 0,
    {
        let ghost m = matrix@.map_values(|v: Vec<StageId>| v@);
        let fl = flat.len();
        let ml = matrix.len();
        let mut p: usize = 0;
        while p < fl
            invariant
                fl == flat@.len(),
                ml == matrix@.len(),
                m == matrix@.map_values(|v: Vec<StageId>| v@),
                p <= fl,
                forall|pp: int| 0 <= pp < p ==> list_covered(flat@, m, pp),
            decreases fl - p,
        {
            let mut g: usize = 0;
            let mut covered = false;
            while g < ml
                invariant
                    fl == flat@.len(),
                    ml == matrix@.len(),
                    m == matrix@.map_values(|v: Vec<StageId>| v@),
                    p < fl,
                    g <= ml,
                    covered ==> list_covered(flat@, m, p as int),
                decreases ml - g,
            {
                if !covered {
                    let mut q: usize = 0;
                    let mut allq = true;
                    while q < fl
                        invariant
                            fl == flat@.len(),
                            ml == matrix@.len(),
                            m == matrix@.map_values(|v: Vec<StageId>| v@),
                            p < fl,
                            g < ml,
                            q <= fl,
                            allq ==> forall|qq: int|
                                0 <= qq < q && (#[trigger] flat@[qq]).1 == flat@[p as int].1
                                    ==> m[g as int].contains(flat@[qq].0),
                        decreases fl - q,
                    {
                        if flat[q].1 == flat[p].1 {
                            if !Self::stage_in(&matrix[g], flat[q].0) {
                                allq = false;
                            }
                        }
                        q += 1;
                    }
                    if allq {
                        covered = true;
                        proof {
                            let gw = g as int;
                            assert(m[gw] == matrix@[gw]@);
                            assert(0 <= gw < m.len() && forall|q: int|
                                0 <= q < flat@.len() && (#[trigger] flat@[q]).1 == flat@[
                                p as int].1 ==> m[gw].contains(flat@[q].0));
                            assert(list_covered(flat@, m, p as int));
                        }
                    }
                }
                g += 1;
            }
            if !covered {
                return false;
            }
            p += 1;
        }
        true
    }
}

} // verus!
verus! {

/// What compilation promises of a plan built from the entries `s`:
///
/// - the plan keeps the entries unchanged, and is not yet balanced;
/// - every group member is a registered identity and every registered
///   identity appears in the plan exactly once;
/// - members of one group never conflict: neither may write what the
///   other touches;
/// - ordering rules are respected: no earlier (or same) group holds a
///   system that a later member must precede, in either rule direction;
/// - every `Parallel` rule's two stages share one group.
pub open(crate) spec fn plan_ok<S>(s: Seq<InjectionOrder<S>>, b: DispatchBuilder<S>) -> bool {
    let m = b.matrix();
    &&& b.plan_systems() == s
    &&& b.layout().len() == 0
    &&& b.balanced_thread_count == 0
    &&& forall|g: int, k: int|
        #![trigger m[g][k]]
        0 <= g < m.len() && 0 <= k < m[g].len() ==> is_registered(s, m[g][k])
    &&& forall|i: int| 0 <= i < s.len() ==> plan_contains(m, (#[trigger] s[i]).spec_id())
    &&& forall|g: int, k: int, g2: int, k2: int|
        0 <= g < m.len() && 0 <= k < m[g].len() && 0 <= g2 < m.len() && 0 <= k2 < m[g2].len() && (g
            != g2 || k != k2) ==> (#[trigger] m[g][k]) != (#[trigger] m[g2][k2])
    &&& forall|g: int, k: int, l: int|
        0 <= g < m.len() && 0 <= k < m[g].len() && 0 <= l < m[g].len() && k != l
            ==> masks_compatible(
            stage_entry(s, #[trigger] m[g][k]).spec_reads(),
            stage_entry(s, m[g][k]).spec_writes(),
            stage_entry(s, #[trigger] m[g][l]).spec_reads(),
            stage_entry(s, m[g][l]).spec_writes(),
        )
    &&& forall|g: int, k: int, g2: int, k2: int|
        0 <= g <= g2 < m.len() && 0 <= k < m[g].len() && 0 <= k2 < m[g2].len() && (g != g2 || k
            != k2) ==> !stage_entry(s, #[trigger] m[g2][k2]).spec_rules().contains(
            InjectionRule::Before(#[trigger] m[g][k]),
        ) && !stage_entry(s, m[g][k]).spec_rules().contains(InjectionRule::After(m[g2][k2]))
    &&& forall|i: int, k: int|
        0 <= i < s.len() && 0 <= k < s[i].spec_rules().len() && (#[trigger] s[i].spec_rules()[k])
            is Parallel ==> co_resident(m, s[i].spec_id(), s[i].spec_rules()[k].reference())
}

impl<S> Registry<S> {
    /// Compiles the registered systems into an execution plan.
    ///
    /// The dependency graph is built from the rules, every node's depth is
    /// its longest distance from a root, systems of equal depth are
    /// greedily batched into conflict-free groups, and the groups are laid
    /// out in depth order. Fails with `MissingStage` when a rule
    /// references an unregistered identity, with `GraphVisitMissingNodes`
    /// when the rules are cyclic, and with `UnsatisfiableParallelRules`
    /// when a `Parallel` co-membership demand does not survive grouping.
    pub fn sort(self) -> (r: Result<DispatchBuilder<S>, RegistrySortingError>)
        requires
            self.wf(),
        ensures
            r matches Err(e) ==> (e matches RegistrySortingError::MissingStage(a, t) ==> (
            is_dangling(self.entries(), t) && names_rule_target(self.entries(), a, t))),
            (r matches Err(e) && e is MissingStage) <==> has_dangling(self.entries()),
            !has_dangling(self.entries()) ==> ((r matches Err(e) && e is GraphVisitMissingNodes)
                <==> !rules_acyclic(self.entries())),
            (r matches Err(e) && e is UnsatisfiableParallelRules) ==> (!has_dangling(
                self.entries(),
            ) && rules_acyclic(self.entries()) && has_parallel_rule(self.entries())),
            (!has_dangling(self.entries()) && rules_acyclic(self.entries()) && !has_parallel_rule(
                self.entries(),
            )) ==> r is Ok,
            r matches Ok(b) ==> plan_ok(self.entries(), b) && b.default_thread_count()
                == self.spec_thread_count() && b.wf(),
    {
        let ghost s = self.systems@;
        let n = self.systems.len();
        let (edges, flat) = match Self::build_edges(&self.systems) {
            Ok(x) => x,
            Err(e) => {
                return Err(e);
            },
        };
        let depth = match crate::graph::topo_depths(n + 2, &edges) {
            Some(d) => d,
            None => {
                proof {
                    lemma_acyclic_transfer(s, edges@);
                }
                return Err(RegistrySortingError::GraphVisitMissingNodes);
            },
        };
        proof {
            lemma_acyclic_transfer(s, edges@);
            assert(rules_acyclic(s));
        }
        let (assign, gdepth, greads, gwrites) = Self::group_systems(&self.systems, &depth);
        let group_count = gdepth.len();
        let matrix = Self::build_matrix(&self.systems, &assign, group_count);
        if !Self::check_parallel(&flat, &matrix) {
            return Err(RegistrySortingError::UnsatisfiableParallelRules);
        }
        let b = DispatchBuilder {
            execution_matrix_cm: matrix,
            systems: self.systems,
            per_thread: Vec::new(),
            balanced_thread_count: 0,
            thread_count_default: self.thread_count,
        };
        proof {
            let m = b.matrix();
            let nn = s.len() as int;
            assert(b.plan_systems() == s);
            assert forall|g: int, k: int|
                #![trigger m[g][k]]
                0 <= g < m.len() && 0 <= k < m[g].len() implies is_registered(s, m[g][k]) by {
                assert(m[g] == ids_in_group(s, assign@, g, nn));
                lemma_ids_in_group_index(s, assign@, g, nn, k);
                let i = choose|i: int|
                    0 <= i < nn && (#[trigger] assign@[i]) as int == g && s[i].spec_id() == m[g][k];
                assert(0 <= i < s.len() && s[i].spec_id() == m[g][k]);
            }
            assert forall|i: int| 0 <= i < s.len() implies plan_contains(
                m,
                (#[trigger] s[i]).spec_id(),
            ) by {
                let g = assign@[i] as int;
                assert(0 <= g < m.len());
                assert(m[g] == ids_in_group(s, assign@, g, nn));
                lemma_ids_in_group_contains(s, assign@, g, nn, s[i].spec_id());
                assert(m[g].contains(s[i].spec_id()));
            }
            assert forall|g: int, k: int, g2: int, k2: int|
                0 <= g < m.len() && 0 <= k < m[g].len() && 0 <= g2 < m.len() && 0 <= k2 < m[
            g2].len() && (g != g2 || k != k2) implies (#[trigger] m[g][k]) != (#[trigger] m[
            g2][k2]) by {
                assert(m[g] == ids_in_group(s, assign@, g, nn));
                assert(m[g2] == ids_in_group(s, assign@, g2, nn));
                if g == g2 {
                    lemma_ids_in_group_nodup(s, assign@, g, nn);
                } else {
                    if m[g][k] == m[g2][k2] {
                        lemma_ids_in_group_index(s, assign@, g, nn, k);
                        lemma_ids_in_group_index(s, assign@, g2, nn, k2);
                        let i = choose|i: int|
                            0 <= i < nn && (#[trigger] assign@[i]) as int == g && s[i].spec_id()
                                == m[g][k];
                        let i2 = choose|i: int|
                            0 <= i < nn && (#[trigger] assign@[i]) as int == g2 && s[i].spec_id()
                                == m[g2][k2];
                        assert(i != i2);
                        if i < i2 {
                            assert(s[i].spec_id() != s[i2].spec_id());
                        } else {
                            assert(s[i2].spec_id() != s[i].spec_id());
                        }
                    }
                }
            }
            assert forall|g: int, k: int, l: int|
                0 <= g < m.len() && 0 <= k < m[g].len() && 0 <= l < m[g].len() && k != l implies
                masks_compatible(
                stage_entry(s, #[trigger] m[g][k]).spec_reads(),
                stage_entry(s, m[g][k]).spec_writes(),
                stage_entry(s, #[trigger] m[g][l]).spec_reads(),
                stage_entry(s, m[g][l]).spec_writes(),
            ) by {
                assert(m[g] == ids_in_group(s, assign@, g, nn));
                lemma_ids_in_group_index(s, assign@, g, nn, k);
                lemma_ids_in_group_index(s, assign@, g, nn, l);
                lemma_ids_in_group_nodup(s, assign@, g, nn);
                let i = choose|i: int|
                    0 <= i < nn && (#[trigger] assign@[i]) as int == g && s[i].spec_id() == m[g][k];
                let i2 = choose|i: int|
                    0 <= i < nn && (#[trigger] assign@[i]) as int == g && s[i].spec_id() == m[g][l];
                assert(m[g][k] != m[g][l]);
                assert(i != i2);
                lemma_stage_entry(s, m[g][k], i);
                lemma_stage_entry(s, m[g][l], i2);
            }
            assert forall|g: int, k: int, g2: int, k2: int|
                0 <= g <= g2 < m.len() && 0 <= k < m[g].len() && 0 <= k2 < m[g2].len() && (g != g2
                    || k != k2) implies !stage_entry(s, #[trigger] m[g2][k2]).spec_rules().contains(
                InjectionRule::Before(#[trigger] m[g][k]),
            ) && !stage_entry(s, m[g][k]).spec_rules().contains(InjectionRule::After(m[g2][k2])) by {
                assert(m[g] == ids_in_group(s, assign@, g, nn));
                assert(m[g2] == ids_in_group(s, assign@, g2, nn));
                lemma_ids_in_group_index(s, assign@, g, nn, k);
                lemma_ids_in_group_index(s, assign@, g2, nn, k2);
                let i = choose|i: int|
                    0 <= i < nn && (#[trigger] assign@[i]) as int == g && s[i].spec_id() == m[g][k];
                let i2 = choose|i: int|
                    0 <= i < nn && (#[trigger] assign@[i]) as int == g2 && s[i].spec_id() == m[
                    g2][k2];
                lemma_stage_entry(s, m[g][k], i);
                lemma_stage_entry(s, m[g2][k2], i2);
                assert(gdepth@[g] <= gdepth@[g2]);
                assert(depth@[i] == gdepth@[g]);
                assert(depth@[i2] == gdepth@[g2]);
                if s[i2].spec_rules().contains(InjectionRule::Before(m[g][k])) {
                    assert(node_stage(s, i) == m[g][k]);
                    assert(is_edge(s, i2, i));
                    let j = choose|j: int|
                        0 <= j < edges@.len() && (#[trigger] edges@[j]).0 as int == i2 && edges@[
                        j].1 as int == i;
                    assert(depth@[edges@[j].0 as int] < depth@[edges@[j].1 as int]);
                    assert(false);
                }
                if s[i].spec_rules().contains(InjectionRule::After(m[g2][k2])) {
                    assert(node_stage(s, i2) == m[g2][k2]);
                    assert(is_edge(s, i2, i));
                    let j = choose|j: int|
                        0 <= j < edges@.len() && (#[trigger] edges@[j]).0 as int == i2 && edges@[
                        j].1 as int == i;
                    assert(depth@[edges@[j].0 as int] < depth@[edges@[j].1 as int]);
                    assert(false);
                }
            }
            assert forall|i: int, k: int|
                0 <= i < s.len() && 0 <= k < s[i].spec_rules().len() && (#[trigger] s[
            i].spec_rules()[k]) is Parallel implies co_resident(
                m,
                s[i].spec_id(),
                s[i].spec_rules()[k].reference(),
            ) by {
                let t = s[i].spec_rules()[k].reference();
                assert(listed_together(flat@, s[i].spec_id(), t));
                let (p, q) = choose|p: int, q: int|
                    0 <= p < flat@.len() && 0 <= q < flat@.len() && (#[trigger] flat@[p]).0 == s[
                    i].spec_id() && (#[trigger] flat@[q]).0 == t && flat@[p].1 == flat@[q].1;
                assert(list_covered(flat@, m, p));
                let g = choose|g: int|
                    #![trigger m[g]]
                    0 <= g < m.len() && forall|qq: int|
                        0 <= qq < flat@.len() && (#[trigger] flat@[qq]).1 == flat@[p].1 ==> m[
                        g].contains(flat@[qq].0);
                assert(m[g].contains(flat@[p].0));
                assert(m[g].contains(flat@[q].0));
            }
            assert(b.plan_systems() == s);
            assert(b.layout().len() == 0);
            assert(b.balanced_thread_count == 0);
            assert(plan_ok(s, b));
        }
        Ok(b)
    }
}

} // verus!
