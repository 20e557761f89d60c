use vstd::prelude::*;
use vstd::set_lib::{lemma_int_range, lemma_len_subset, set_int_range};

verus! {

// A directed graph on the nodes `0 .. count`, held as a list of edges
// `(source, target)`. An edge may occur more than once; every occurrence
// stands for the same constraint, that the source completes before the
// target starts.

/// Every edge endpoint lies below `count`.
pub open(crate) spec fn edges_wf(count: int, edges: Seq<(usize, usize)>) -> bool {
    forall|j: int|
        0 <= j < edges.len() ==> (#[trigger] edges[j]).0 < count && edges[j].1 < count
}

/// `depth` respects every edge: along each edge the depth strictly grows.
pub open(crate) spec fn respects_edges(depth: Seq<int>, edges: Seq<(usize, usize)>) -> bool {
    forall|j: int|
        0 <= j < edges.len() ==> depth[(#[trigger] edges[j]).0 as int] < depth[edges[j].1 as int]
}

/// A graph is acyclic exactly when some depth assignment respects every
/// edge.
pub open(crate) spec fn acyclic(count: int, edges: Seq<(usize, usize)>) -> bool {
    exists|depth: Seq<int>| depth.len() == count && respects_edges(depth, edges)
}

/// How many edges of `edges` point at `x` from a source that is not yet
/// processed (not a member of `procd`).
pub open(crate) spec fn pending_in(edges: Seq<(usize, usize)>, procd: Seq<usize>, x: usize) -> int
    decreases edges.len(),
{
    if edges.len() == 0 {
        0
    } else {
        (if edges[0].1 == x && !procd.contains(edges[0].0) {
            1int
        } else {
            0int
        }) + pending_in(edges.skip(1), procd, x)
    }
}

pub(crate) proof fn lemma_pending_in_bounds(edges: Seq<(usize, usize)>, procd: Seq<usize>, x: usize)
    ensures
        0 <= pending_in(edges, procd, x) <= edges.len(),
    decreases edges.len(),
{
    if edges.len() > 0 {
        lemma_pending_in_bounds(edges.skip(1), procd, x);
    }
}

pub(crate) proof fn lemma_pending_in_push(
    edges: Seq<(usize, usize)>,
    e: (usize, usize),
    procd: Seq<usize>,
    x: usize,
)
    ensures
        pending_in(edges.push(e), procd, x) == pending_in(edges, procd, x) + (
        if e.1 == x && !procd.contains(e.0) {
            1int
        } else {
            0int
        }),
    decreases edges.len(),
{
    if edges.len() == 0 {
        assert(edges.push(e)[0] == e);
        assert(edges.push(e).skip(1) =~= Seq::<(usize, usize)>::empty());
        assert(pending_in(edges.push(e).skip(1), procd, x) == 0);
    } else {
        assert(edges.push(e)[0] == edges[0]);
        assert(edges.push(e).skip(1) =~= edges.skip(1).push(e));
        lemma_pending_in_push(edges.skip(1), e, procd, x);
        assert(pending_in(edges.push(e), procd, x) == (if edges[0].1 == x && !procd.contains(
            edges[0].0,
        ) {
            1int
        } else {
            0int
        }) + pending_in(edges.skip(1).push(e), procd, x));
    }
}

pub(crate) proof fn lemma_pending_in_pos_iff(edges: Seq<(usize, usize)>, procd: Seq<usize>, x: usize)
    ensures
        pending_in(edges, procd, x) > 0 <==> exists|j: int|
            0 <= j < edges.len() && (#[trigger] edges[j]).1 == x && !procd.contains(edges[j].0),
    decreases edges.len(),
{
    if edges.len() > 0 {
        lemma_pending_in_pos_iff(edges.skip(1), procd, x);
        lemma_pending_in_bounds(edges.skip(1), procd, x);
        if edges[0].1 == x && !procd.contains(edges[0].0) {
            assert(edges[0] == edges[0]);
        } else {
            if exists|j: int|
                0 <= j < edges.skip(1).len() && (#[trigger] edges.skip(1)[j]).1 == x
                    && !procd.contains(edges.skip(1)[j].0) {
                let j = choose|j: int|
                    0 <= j < edges.skip(1).len() && (#[trigger] edges.skip(1)[j]).1 == x
                        && !procd.contains(edges.skip(1)[j].0);
                assert(edges[j + 1] == edges.skip(1)[j]);
            }
            if exists|j: int|
                0 <= j < edges.len() && (#[trigger] edges[j]).1 == x && !procd.contains(
                    edges[j].0,
                ) {
                let j = choose|j: int|
                    0 <= j < edges.len() && (#[trigger] edges[j]).1 == x && !procd.contains(
                        edges[j].0,
                    );
                assert(j >= 1);
                assert(edges.skip(1)[j - 1] == edges[j]);
            }
        }
    }
}

/// Pushing extends a sequence's membership by exactly the new element.
pub(crate) proof fn lemma_push_contains(q: Seq<usize>, t: usize, x: usize)
    ensures
        q.push(t).contains(x) <==> (q.contains(x) || x == t),
{
    if q.contains(x) {
        let k = choose|k: int| 0 <= k < q.len() && q[k] == x;
        assert(q.push(t)[k] == x);
    }
    assert(q.push(t)[q.len() as int] == t);
    if q.push(t).contains(x) && x != t {
        let k = choose|k: int| 0 <= k < q.push(t).len() && q.push(t)[k] == x;
        assert(k < q.len());
        assert(q[k] == x);
    }
}

/// A sequence of distinct values below `count` has at most `count`
/// members, and exactly `count` members only by containing every value
/// below `count`.
pub(crate) proof fn lemma_nodup_bounded(q: Seq<usize>, count: int)
    requires
        q.no_duplicates(),
        forall|k: int| 0 <= k < q.len() ==> (#[trigger] q[k]) < count,
        0 <= count,
    ensures
        q.len() <= count,
        q.len() == count ==> forall|x: usize| x < count ==> q.contains(x),
{
    let qi = q.map_values(|v: usize| v as int);
    assert(qi.no_duplicates());
    qi.unique_seq_to_set();
    let qset = qi.to_set();
    let range = set_int_range(0, count);
    lemma_int_range(0, count);
    assert forall|y: int| qset.contains(y) implies range.contains(y) by {
        let k = choose|k: int| 0 <= k < qi.len() && qi[k] == y;
        assert(q[k] < count);
    }
    lemma_len_subset(qset, range);
    if q.len() == count {
        assert forall|x: usize| x < count implies q.contains(x) by {
            if !q.contains(x) {
                assert(!qset.contains(x as int)) by {
                    if qset.contains(x as int) {
                        let k = choose|k: int| 0 <= k < qi.len() && qi[k] == x as int;
                        assert(q[k] == x);
                    }
                }
                qset.lemma_subset_not_in_lt(range, x as int);
            }
        }
    }
}

/// Some member of a finite, non-empty set takes the least value of `f`.
pub(crate) proof fn lemma_min_by(s: Set<int>, f: spec_fn(int) -> int)
    requires
        s.finite(),
        s.len() > 0,
    ensures
        exists|x: int|
            s.contains(x) && forall|y: int| s.contains(y) ==> f(x) <= #[trigger] f(y),
    decreases s.len(),
{
    let a = s.choose();
    assert(s.contains(a));
    let rest = s.remove(a);
    if rest.len() == 0 {
        assert forall|y: int| s.contains(y) implies f(a) <= #[trigger] f(y) by {
            if y != a {
                assert(rest.contains(y));
                assert(rest.len() > 0);
            }
        }
        assert(s.contains(a) && forall|y: int| s.contains(y) ==> f(a) <= #[trigger] f(y));
    } else {
        lemma_min_by(rest, f);
        let b = choose|x: int|
            rest.contains(x) && forall|y: int| rest.contains(y) ==> f(x) <= #[trigger] f(y);
        if f(a) <= f(b) {
            assert forall|y: int| s.contains(y) implies f(a) <= #[trigger] f(y) by {
                if y != a {
                    assert(rest.contains(y));
                }
            }
            assert(s.contains(a) && forall|y: int| s.contains(y) ==> f(a) <= #[trigger] f(y));
        } else {
            assert forall|y: int| s.contains(y) implies f(b) <= #[trigger] f(y) by {
                if y != a {
                    assert(rest.contains(y));
                }
            }
            assert(s.contains(b) && forall|y: int| s.contains(y) ==> f(b) <= #[trigger] f(y));
        }
    }
}

/// If every unprocessed node still has a pending in-edge, and at least one
/// node is unprocessed, then the graph is cyclic: no depth assignment can
/// respect all edges, because the unprocessed node with the least depth
/// would need an unprocessed predecessor of even less depth.
pub(crate) proof fn lemma_stuck_not_acyclic(
    count: int,
    edges: Seq<(usize, usize)>,
    procd: Seq<usize>,
)
    requires
        count <= usize::MAX,
        edges_wf(count, edges),
        exists|x: usize| x < count && !procd.contains(x),
        forall|x: usize|
            x < count && !procd.contains(x) ==> pending_in(edges, procd, x) > 0,
    ensures
        !acyclic(count, edges),
{
    if acyclic(count, edges) {
        let dw = choose|depth: Seq<int>| depth.len() == count && respects_edges(depth, edges);
        let r = Set::new(|x: int| 0 <= x < count && !procd.contains(x as usize));
        let range = set_int_range(0, count);
        lemma_int_range(0, count);
        lemma_len_subset(r, range);
        let x_wit = choose|x: usize| x < count && !procd.contains(x);
        assert(r.contains(x_wit as int));
        assert(r.len() > 0) by {
            if r.len() == 0 {
                assert(r =~= Set::<int>::empty());
            }
        }
        let f = |x: int| dw[x];
        lemma_min_by(r, f);
        let x0 = choose|x: int|
            r.contains(x) && forall|y: int| r.contains(y) ==> f(x) <= #[trigger] f(y);
        assert(0 <= x0 < count);
        assert((x0 as usize) as int == x0);
        assert(pending_in(edges, procd, x0 as usize) > 0);
        lemma_pending_in_pos_iff(edges, procd, x0 as usize);
        let j = choose|j: int|
            0 <= j < edges.len() && (#[trigger] edges[j]).1 == x0 as usize && !procd.contains(
                edges[j].0,
            );
        let src = edges[j].0;
        assert(r.contains(src as int));
        assert(dw[edges[j].0 as int] < dw[edges[j].1 as int]);
        assert(f(src as int) < f(x0));
        assert(f(x0) <= f(src as int));
        assert(false);
    }
}

} // verus!
verus! {

/// Computes the longest-path depth of every node from the graph's roots by
/// a topological traversal: a root sits at depth zero and every other node
/// sits one past the deepest of its predecessors. `None` exactly when the
/// graph has a cycle, in which case the traversal cannot visit every node.
pub(crate) fn topo_depths(count: usize, edges: &Vec<(usize, usize)>) -> (r: Option<Vec<usize>>)
    requires
        edges_wf(count as int, edges@),
    ensures
        r matches Some(d) ==> {
            &&& d@.len() == count
            &&& forall|j: int|
                0 <= j < edges@.len() ==> d@[(#[trigger] edges@[j]).0 as int] < d@[edges@[j].1 as int]
            &&& forall|i: int| 0 <= i < count ==> (#[trigger] d@[i]) <= count
            &&& acyclic(count as int, edges@)
        },
        r is None ==> !acyclic(count as int, edges@),
{
    let m = edges.len();
    let mut indegree: Vec<usize> = vec![0usize; count];
    let mut j: usize = 0;
    while j < m
        invariant
            m == edges@.len(),
            edges_wf(count as int, edges@),
            indegree@.len() == count,
            j <= m,
            forall|x: usize|
                x < count ==> indegree@[x as int] == pending_in(
                    edges@.take(j as int),
                    Seq::<usize>::empty(),
                    x,
                ),
        decreases m - j,
    {
        let t = edges[j].1;
        proof {
            lemma_pending_in_bounds(edges@.take(j as int), Seq::<usize>::empty(), t);
            assert(edges@.take(j as int).len() == j);
        }
        indegree[t] = indegree[t] + 1;
        j += 1;
        proof {
            assert(edges@.take(j as int) =~= edges@.take(j as int - 1).push(
                edges@[j as int - 1],
            ));
            assert forall|x: usize| x < count implies indegree@[x as int] == pending_in(
                edges@.take(j as int),
                Seq::<usize>::empty(),
                x,
            ) by {
                lemma_pending_in_push(
                    edges@.take(j as int - 1),
                    edges@[j as int - 1],
                    Seq::<usize>::empty(),
                    x,
                );
            }
        }
    }
    proof {
        assert(edges@.take(m as int) =~= edges@);
    }

    let mut queue: Vec<usize> = Vec::new();
    let mut i: usize = 0;
    while i < count
        invariant
            indegree@.len() == count,
            i <= count,
            queue@.no_duplicates(),
            forall|k: int| 0 <= k < queue@.len() ==> (#[trigger] queue@[k]) < i,
            forall|x: usize| x < i ==> (queue@.contains(x) <==> indegree@[x as int] == 0),
            forall|x: usize|
                x < count ==> indegree@[x as int] == pending_in(edges@, Seq::<usize>::empty(), x),
        decreases count - i,
    {
        if indegree[i] == 0 {
            let ghost queue_before = queue@;
            proof {
                assert(!queue@.contains(i));
            }
            queue.push(i);
            proof {
                assert(queue@[queue_before.len() as int] == i);
                assert forall|x: usize| x < i + 1 implies (queue@.contains(x) <==> indegree@[x
                    as int] == 0) by {
                    lemma_push_contains(queue_before, i, x);
                }
            }
        }
        i += 1;
    }

    let mut depth: Vec<usize> = vec![0usize; count];
    let mut head: usize = 0;
    proof {
        assert(queue@.take(0) =~= Seq::<usize>::empty());
    }
    while head < queue.len()
        invariant
            m == edges@.len(),
            edges_wf(count as int, edges@),
            indegree@.len() == count,
            depth@.len() == count,
            head <= queue@.len(),
            queue@.no_duplicates(),
            forall|k: int| 0 <= k < queue@.len() ==> (#[trigger] queue@[k]) < count,
            forall|x: usize|
                x < count ==> indegree@[x as int] == pending_in(
                    edges@,
                    queue@.take(head as int),
                    x,
                ),
            forall|x: usize| x < count ==> (queue@.contains(x) <==> indegree@[x as int] == 0),
            forall|x: usize| x < count ==> (#[trigger] depth@[x as int]) <= head,
            forall|jj: int|
                0 <= jj < m && queue@.take(head as int).contains((#[trigger] edges@[jj]).0)
                    ==> depth@[edges@[jj].1 as int] >= depth@[edges@[jj].0 as int] + 1,
        decreases count - head,
    {
        proof {
            lemma_nodup_bounded(queue@, count as int);
        }
        let a = queue[head];
        let ghost procd_old = queue@.take(head as int);
        head += 1;
        let ghost procd_new = queue@.take(head as int);
        let ghost queue_snap = queue@;
        proof {
            assert(procd_new =~= procd_old.push(a));
            assert(!procd_old.contains(a)) by {
                if procd_old.contains(a) {
                    let k = choose|k: int| 0 <= k < procd_old.len() && procd_old[k] == a;
                    assert(queue@[k] == queue@[head as int - 1]);
                }
            }
            assert(queue@.contains(a));
        }
        let da = depth[a];
        let mut j: usize = 0;
        proof {
            assert(edges@.take(0) =~= Seq::<(usize, usize)>::empty());
            assert(edges@.skip(0) =~= edges@);
            assert(procd_new.contains(a)) by {
                assert(procd_new[procd_old.len() as int] == a);
            }
        }
        while j < m
            invariant
                m == edges@.len(),
                edges_wf(count as int, edges@),
                indegree@.len() == count,
                depth@.len() == count,
                a < count,
                1 <= head <= queue@.len(),
                queue@.no_duplicates(),
                forall|k: int| 0 <= k < queue@.len() ==> (#[trigger] queue@[k]) < count,
                queue_snap.is_prefix_of(queue@),
                procd_old == queue@.take(head as int - 1),
                procd_new == queue@.take(head as int),
                procd_new == procd_old.push(a),
                !procd_old.contains(a),
                procd_new.contains(a),
                queue@.contains(a),
                j <= m,
                da == depth@[a as int],
                da + 1 <= head,
                forall|x: usize|
                    x < count ==> indegree@[x as int] == pending_in(
                        edges@.take(j as int),
                        procd_new,
                        x,
                    ) + pending_in(edges@.skip(j as int), procd_old, x),
                forall|x: usize| x < count ==> (queue@.contains(x) <==> indegree@[x as int] == 0),
                forall|x: usize| x < count ==> (#[trigger] depth@[x as int]) <= head,
                forall|jj: int|
                    0 <= jj < m && procd_old.contains((#[trigger] edges@[jj]).0)
                        ==> depth@[edges@[jj].1 as int] >= depth@[edges@[jj].0 as int] + 1,
                forall|jj: int|
                    0 <= jj < j && (#[trigger] edges@[jj]).0 == a ==> depth@[edges@[jj].1 as int]
                        >= da + 1,
            decreases m - j,
        {
            proof {
                assert(edges@.skip(j as int)[0] == edges@[j as int]);
                assert(edges@.skip(j as int).skip(1) =~= edges@.skip(j as int + 1));
                assert(edges@.take(j as int + 1) =~= edges@.take(j as int).push(
                    edges@[j as int],
                ));
            }
            if edges[j].0 == a {
                let t = edges[j].1;
                proof {
                    // the pending count of `t` includes this very edge
                    lemma_pending_in_pos_iff(edges@.skip(j as int), procd_old, t);
                    assert(pending_in(edges@.skip(j as int), procd_old, t) > 0);
                    lemma_pending_in_bounds(edges@.take(j as int), procd_new, t);
                    assert(indegree@[t as int] >= 1);
                    // so `t` was never queued, in particular never processed
                    assert(!queue@.contains(t));
                    assert(!procd_old.contains(t)) by {
                        if procd_old.contains(t) {
                            let k = choose|k: int|
                                0 <= k < procd_old.len() && procd_old[k] == t;
                            assert(queue@[k] == t);
                        }
                    }
                    assert(t != a);
                }
                if depth[t] < da + 1 {
                    depth[t] = da + 1;
                }
                indegree[t] = indegree[t] - 1;
                if indegree[t] == 0 {
                    let ghost queue_before = queue@;
                    queue.push(t);
                    proof {
                        assert(queue@.take(head as int - 1) =~= procd_old);
                        assert(queue@.take(head as int) =~= procd_new);
                        assert(queue@[queue_before.len() as int] == t);
                        assert(queue@.contains(a)) by {
                            let k = choose|k: int|
                                0 <= k < queue_before.len() && queue_before[k] == a;
                            assert(queue@[k] == a);
                        }
                        assert forall|x: usize| x < count implies (queue@.contains(x)
                            <==> indegree@[x as int] == 0) by {
                            lemma_push_contains(queue_before, t, x);
                        }
                    }
                }
                proof {
                    assert forall|x: usize| x < count implies indegree@[x as int] == pending_in(
                        edges@.take(j as int + 1),
                        procd_new,
                        x,
                    ) + pending_in(edges@.skip(j as int + 1), procd_old, x) by {
                        lemma_pending_in_push(edges@.take(j as int), edges@[j as int], procd_new, x);
                        assert(pending_in(edges@.take(j as int + 1), procd_new, x) == pending_in(
                            edges@.take(j as int),
                            procd_new,
                            x,
                        ));
                        assert(pending_in(edges@.skip(j as int), procd_old, x) == (
                        if edges@[j as int].1 == x {
                            1int
                        } else {
                            0int
                        }) + pending_in(edges@.skip(j as int + 1), procd_old, x));
                    }
                }
            } else {
                proof {
                    assert forall|x: usize| x < count implies indegree@[x as int] == pending_in(
                        edges@.take(j as int + 1),
                        procd_new,
                        x,
                    ) + pending_in(edges@.skip(j as int + 1), procd_old, x) by {
                        lemma_pending_in_push(edges@.take(j as int), edges@[j as int], procd_new, x);
                        lemma_push_contains(procd_old, a, edges@[j as int].0);
                        assert(pending_in(edges@.skip(j as int), procd_old, x) == (
                        if edges@[j as int].1 == x && !procd_old.contains(edges@[j as int].0) {
                            1int
                        } else {
                            0int
                        }) + pending_in(edges@.skip(j as int + 1), procd_old, x));
                    }
                }
            }
            j += 1;
        }
        proof {
            assert(edges@.take(m as int) =~= edges@);
            assert(edges@.skip(m as int) =~= Seq::<(usize, usize)>::empty());
            assert forall|jj: int|
                0 <= jj < m && procd_new.contains((#[trigger] edges@[jj]).0) implies depth@[
                edges@[jj].1 as int] >= depth@[edges@[jj].0 as int] + 1 by {
                if procd_old.contains(edges@[jj].0) {
                } else {
                    assert(edges@[jj].0 == a);
                }
            }
        }
    }

    proof {
        lemma_nodup_bounded(queue@, count as int);
        assert(queue@.take(queue@.len() as int) =~= queue@);
    }
    if queue.len() == count {
        proof {
            let dw = depth@.map_values(|v: usize| v as int);
            assert forall|j: int|
                0 <= j < edges@.len() implies dw[(#[trigger] edges@[j]).0 as int] < dw[edges@[j].1
                as int] by {
                assert(queue@.contains(edges@[j].0));
            }
            assert(dw.len() == count && respects_edges(dw, edges@));
        }
        Some(depth)
    } else {
        proof {
            assert(queue@.len() < count);
            assert(exists|x: usize| x < count && !queue@.contains(x)) by {
                if forall|x: usize| x < count ==> queue@.contains(x) {
                    // a no-duplicate sequence containing all of 0..count has
                    // at least count members
                    let qi = queue@.map_values(|v: usize| v as int);
                    qi.unique_seq_to_set();
                    lemma_int_range(0, count as int);
                    assert forall|y: int| set_int_range(0, count as int).contains(y) implies qi
                        .to_set().contains(y) by {
                        assert(queue@.contains(y as usize));
                        let k = choose|k: int| 0 <= k < queue@.len() && queue@[k] == y as usize;
                        assert(qi[k] == y);
                    }
                    lemma_len_subset(set_int_range(0, count as int), qi.to_set());
                }
            }
            assert forall|x: usize| x < count && !queue@.contains(x) implies pending_in(
                edges@,
                queue@,
                x,
            ) > 0 by {
                assert(indegree@[x as int] != 0);
                lemma_pending_in_bounds(edges@, queue@, x);
            }
            lemma_stuck_not_acyclic(count as int, edges@, queue@);
        }
        None
    }
}

} // verus!
