//! Mathematical model of a dependency graph: node views, readiness,
//! resolution, acyclicity, and reachability along dependency edges.

use vstd::prelude::*;

verus! {

/// Status of one node in a dependency graph.
#[derive(Clone, Copy, Debug, PartialEq, Eq, Structural)]
pub enum NodeStatus {
    /// Some predecessor has not completed; the node has not been dispatched.
    Pending,
    /// The node was signaled to the client and awaits a completion report.
    InFlight,
    /// The node's computation completed successfully.
    Done,
    /// The node's computation failed, or a (transitive) predecessor failed.
    Failed,
}

/// View of one node: its predecessor identifiers and its status.
pub ghost struct NodeView {
    pub deps: Seq<u64>,
    pub status: NodeStatus,
}

/// View of a whole graph: node identifier to node view.
pub type GraphModel = Map<u64, NodeView>;

/// Every predecessor named by a node is itself a node of the graph.
pub open spec fn deps_closed(m: GraphModel) -> bool {
    forall|id: u64, j: int|
        m.dom().contains(id) && 0 <= j < m[id].deps.len() ==> m.dom().contains(
            #[trigger] m[id].deps[j],
        )
}

/// A node is ready when it is pending and every predecessor is done.
pub open spec fn ready(m: GraphModel, id: u64) -> bool {
    &&& m.dom().contains(id)
    &&& m[id].status == NodeStatus::Pending
    &&& forall|j: int|
        0 <= j < m[id].deps.len() ==> m[#[trigger] m[id].deps[j]].status == NodeStatus::Done
}

/// Every node has reached a terminal status.
pub open spec fn resolved(m: GraphModel) -> bool {
    forall|id: u64| #[trigger]
        m.dom().contains(id) ==> (m[id].status == NodeStatus::Done || m[id].status
            == NodeStatus::Failed)
}

/// Within the set s, node id has no predecessor that also lies in s.
pub open spec fn source_in(m: GraphModel, s: Set<u64>, id: u64) -> bool {
    &&& s.contains(id)
    &&& forall|j: int| 0 <= j < m[id].deps.len() ==> !s.contains(#[trigger] m[id].deps[j])
}

/// A topological ordering exists exactly when every nonempty set of nodes
/// has a member none of whose predecessors lies in the set.
pub open spec fn acyclic(m: GraphModel) -> bool {
    forall|s: Set<u64>| #[trigger]
        s.subset_of(m.dom()) && (exists|x: u64| s.contains(x)) ==> exists|id: u64|
            source_in(m, s, id)
}

/// a is a direct predecessor of b.
pub open spec fn edge(m: GraphModel, a: u64, b: u64) -> bool {
    m.dom().contains(b) && m[b].deps.contains(a)
}

/// p is a nonempty walk along dependency edges, from p.first() to p.last().
pub open spec fn is_path(m: GraphModel, p: Seq<u64>) -> bool {
    &&& p.len() >= 1
    &&& m.dom().contains(p[0])
    &&& forall|i: int| 0 <= i < p.len() - 1 ==> edge(m, #[trigger] p[i], p[i + 1])
}

/// b is reachable from a along dependency edges; a reaches itself.
pub open spec fn reaches(m: GraphModel, a: u64, b: u64) -> bool {
    exists|p: Seq<u64>| #[trigger] is_path(m, p) && p.first() == a && p.last() == b
}

/// Every node that was dispatched or completed had all its predecessors done.
pub open spec fn deps_done_inv(m: GraphModel) -> bool {
    forall|id: u64, j: int|
        m.dom().contains(id) && (m[id].status == NodeStatus::InFlight || m[id].status
            == NodeStatus::Done) && 0 <= j < m[id].deps.len() ==> m[#[trigger] m[id].deps[j]].status
            == NodeStatus::Done
}

/// A node of the graph reaches itself.
pub proof fn lemma_reaches_refl(m: GraphModel, a: u64)
    requires
        m.dom().contains(a),
    ensures
        reaches(m, a, a),
{
    let p = seq![a];
    assert(is_path(m, p) && p.first() == a && p.last() == a);
}

/// Reachability extends along one further edge.
pub proof fn lemma_reaches_step(m: GraphModel, a: u64, b: u64, c: u64)
    requires
        reaches(m, a, b),
        edge(m, b, c),
    ensures
        reaches(m, a, c),
{
    let p = choose|p: Seq<u64>| is_path(m, p) && p.first() == a && p.last() == b;
    let q = p.push(c);
    assert forall|i: int| 0 <= i < q.len() - 1 implies edge(m, #[trigger] q[i], q[i + 1]) by {
        if i < p.len() - 1 {
            assert(edge(m, p[i], p[i + 1]));
        } else {
            assert(q[i] == b && q[i + 1] == c);
        }
    }
    assert(is_path(m, q) && q.first() == a && q.last() == c);
}

/// Nothing is reachable from an identifier that is not a node of the graph.
pub proof fn lemma_unreachable_from_absent(m: GraphModel, a: u64)
    requires
        !m.dom().contains(a),
    ensures
        forall|b: u64| !reaches(m, a, b),
{
    assert forall|b: u64| !reaches(m, a, b) by {
        if reaches(m, a, b) {
            let p = choose|p: Seq<u64>| is_path(m, p) && p.first() == a && p.last() == b;
            assert(m.dom().contains(p[0]));
        }
    }
}

/// Edges, paths, reachability and acyclicity depend only on the node set and
/// the predecessor lists, never on statuses.
pub proof fn lemma_reaches_ignores_status(m1: GraphModel, m2: GraphModel)
    requires
        m1.dom() == m2.dom(),
        forall|id: u64| m1.dom().contains(id) ==> #[trigger] m1[id].deps == m2[id].deps,
    ensures
        forall|a: u64, b: u64| reaches(m1, a, b) == #[trigger] reaches(m2, a, b),
        acyclic(m1) == acyclic(m2),
{
    assert forall|a: u64, b: u64| edge(m1, a, b) == #[trigger] edge(m2, a, b) by {
        if m1.dom().contains(b) {
            assert(m1[b].deps == m2[b].deps);
        }
    }
    assert forall|p: Seq<u64>| is_path(m1, p) == #[trigger] is_path(m2, p) by {
        if is_path(m1, p) {
            assert forall|i: int| 0 <= i < p.len() - 1 implies edge(
                m2,
                #[trigger] p[i],
                p[i + 1],
            ) by {
                assert(edge(m1, p[i], p[i + 1]));
            }
        }
        if is_path(m2, p) {
            assert forall|i: int| 0 <= i < p.len() - 1 implies edge(
                m1,
                #[trigger] p[i],
                p[i + 1],
            ) by {
                assert(edge(m2, p[i], p[i + 1]));
            }
        }
    }
    assert forall|a: u64, b: u64| reaches(m1, a, b) == #[trigger] reaches(m2, a, b) by {
        if reaches(m1, a, b) {
            let p = choose|p: Seq<u64>| is_path(m1, p) && p.first() == a && p.last() == b;
            assert(is_path(m2, p));
        }
        if reaches(m2, a, b) {
            let p = choose|p: Seq<u64>| is_path(m2, p) && p.first() == a && p.last() == b;
            assert(is_path(m1, p));
        }
    }
    if acyclic(m1) {
        assert forall|s: Set<u64>| #[trigger]
            s.subset_of(m2.dom()) && (exists|x: u64| s.contains(x)) implies exists|id: u64|
            source_in(m2, s, id) by {
            assert(s.subset_of(m1.dom()));
            let id = choose|id: u64| source_in(m1, s, id);
            assert(m1.dom().contains(id));
            assert(m1[id].deps == m2[id].deps);
            assert(source_in(m2, s, id));
        }
    }
    if acyclic(m2) {
        assert forall|s: Set<u64>| #[trigger]
            s.subset_of(m1.dom()) && (exists|x: u64| s.contains(x)) implies exists|id: u64|
            source_in(m1, s, id) by {
            assert(s.subset_of(m2.dom()));
            let id = choose|id: u64| source_in(m2, s, id);
            assert(m2.dom().contains(id));
            assert(m1[id].deps == m2[id].deps);
            assert(source_in(m1, s, id));
        }
    }
}

proof fn lemma_path_descendants(m: GraphModel, p: Seq<u64>)
    requires
        deps_done_inv(m),
        is_path(m, p),
        m[p.first()].status == NodeStatus::InFlight,
    ensures
        forall|i: int|
            1 <= i < p.len() ==> (m[#[trigger] p[i]].status == NodeStatus::Pending || m[p[i]].status
                == NodeStatus::Failed),
    decreases p.len(),
{
    if p.len() <= 1 {
    } else {
        let q = p.drop_last();
        assert(is_path(m, q)) by {
            assert forall|i: int| 0 <= i < q.len() - 1 implies edge(
                m,
                #[trigger] q[i],
                q[i + 1],
            ) by {
                assert(edge(m, p[i], p[i + 1]));
            }
        }
        assert(q.first() == p.first());
        lemma_path_descendants(m, q);
        let n = p.len() - 1;
        let prev = p[n - 1];
        assert(edge(m, prev, p[n]));
        assert(m[prev].status != NodeStatus::Done) by {
            if n - 1 == 0 {
                assert(m[prev].status == NodeStatus::InFlight);
            } else {
                assert(q[n - 1] == prev);
            }
        }
        if m[p[n]].status == NodeStatus::InFlight || m[p[n]].status == NodeStatus::Done {
            let j = choose|j: int| 0 <= j < m[p[n]].deps.len() && m[p[n]].deps[j] == prev;
            assert(m[m[p[n]].deps[j]].status == NodeStatus::Done);
        }
        assert forall|i: int| 1 <= i < p.len() implies (m[#[trigger] p[i]].status
            == NodeStatus::Pending || m[p[i]].status == NodeStatus::Failed) by {
            if i < p.len() - 1 {
                assert(q[i] == p[i]);
                assert(m[q[i]].status == NodeStatus::Pending || m[q[i]].status
                    == NodeStatus::Failed);
            }
        }
    }
}

/// While a node is in flight, no proper descendant of it has been dispatched
/// or completed: descendants are all still pending, or already failed.
pub proof fn lemma_descendants_not_started(m: GraphModel, root: u64)
    requires
        deps_done_inv(m),
        m.dom().contains(root),
        m[root].status == NodeStatus::InFlight,
    ensures
        forall|d: u64|
            #[trigger] reaches(m, root, d) && d != root ==> (m[d].status == NodeStatus::Pending
                || m[d].status == NodeStatus::Failed),
{
    assert forall|d: u64| #[trigger] reaches(m, root, d) && d != root implies (m[d].status
        == NodeStatus::Pending || m[d].status == NodeStatus::Failed) by {
        let p = choose|p: Seq<u64>| is_path(m, p) && p.first() == root && p.last() == d;
        lemma_path_descendants(m, p);
        assert(p.last() == p[p.len() - 1]);
        if p.len() == 1 {
            assert(d == root);
        } else {
            assert(m[p[p.len() - 1]].status == NodeStatus::Pending || m[p[p.len() - 1]].status
                == NodeStatus::Failed);
        }
    }
}

/// A set of identifiers that contains a, and contains the head of every edge
/// out of each of its members, contains everything reachable from a.
pub proof fn lemma_reach_closed(m: GraphModel, a: u64, v: Set<u64>, p: Seq<u64>)
    requires
        v.contains(a),
        forall|x: u64, y: u64| v.contains(x) && #[trigger] edge(m, x, y) ==> v.contains(y),
        is_path(m, p),
        p.first() == a,
    ensures
        v.contains(p.last()),
    decreases p.len(),
{
    if p.len() <= 1 {
    } else {
        let q = p.drop_last();
        assert(is_path(m, q)) by {
            assert forall|i: int| 0 <= i < q.len() - 1 implies edge(
                m,
                #[trigger] q[i],
                q[i + 1],
            ) by {
                assert(edge(m, p[i], p[i + 1]));
            }
        }
        lemma_reach_closed(m, a, v, q);
        assert(edge(m, p[p.len() - 2], p[p.len() - 1]));
        assert(q.last() == p[p.len() - 2]);
    }
}

/// d occurs in order strictly before position k.
pub open spec fn appears_before(order: Seq<u64>, k: int, d: u64) -> bool {
    exists|k2: int| 0 <= k2 < k && #[trigger] order[k2] == d
}

spec fn first_in(order: Seq<u64>, s: Set<u64>) -> int
    decreases order.len(),
{
    if order.len() == 0 {
        0
    } else if s.contains(order[0]) {
        0
    } else {
        1 + first_in(order.drop_first(), s)
    }
}

proof fn lemma_first_in(order: Seq<u64>, s: Set<u64>)
    requires
        exists|i: int| 0 <= i < order.len() && s.contains(#[trigger] order[i]),
    ensures
        0 <= first_in(order, s) < order.len(),
        s.contains(order[first_in(order, s)]),
        forall|i: int| 0 <= i < first_in(order, s) ==> !s.contains(#[trigger] order[i]),
    decreases order.len(),
{
    if s.contains(order[0]) {
    } else {
        let rest = order.drop_first();
        let w = choose|i: int| 0 <= i < order.len() && s.contains(#[trigger] order[i]);
        assert(rest[w - 1] == order[w]);
        assert(s.contains(rest[w - 1]));
        lemma_first_in(rest, s);
        let f = first_in(rest, s);
        assert(order[1 + f] == rest[f]);
        assert forall|i: int| 0 <= i < 1 + f implies !s.contains(#[trigger] order[i]) by {
            if i > 0 {
                assert(rest[i - 1] == order[i]);
            }
        }
    }
}

/// A graph whose nodes can be arranged so that every predecessor of a node
/// appears earlier in the arrangement is acyclic.
pub proof fn lemma_order_implies_acyclic(m: GraphModel, order: Seq<u64>)
    requires
        order.no_duplicates(),
        forall|id: u64| m.dom().contains(id) <==> #[trigger] order.contains(id),
        forall|k: int, j: int|
            0 <= k < order.len() && 0 <= j < m[order[k]].deps.len() ==> appears_before(
                order,
                k,
                #[trigger] m[order[k]].deps[j],
            ),
    ensures
        acyclic(m),
{
    assert forall|s: Set<u64>| #[trigger]
        s.subset_of(m.dom()) && (exists|x: u64| s.contains(x)) implies exists|id: u64|
        source_in(m, s, id) by {
        let x = choose|x: u64| s.contains(x);
        assert(m.dom().contains(x));
        assert(order.contains(x));
        let i = choose|i: int| 0 <= i < order.len() && order[i] == x;
        assert(s.contains(order[i]));
        lemma_first_in(order, s);
        let k = first_in(order, s);
        let id = order[k];
        assert forall|j: int| 0 <= j < m[id].deps.len() implies !s.contains(
            #[trigger] m[id].deps[j],
        ) by {
            assert(m[order[k]].deps[j] == m[id].deps[j]);
            assert(appears_before(order, k, m[id].deps[j]));
            let k2 = choose|k2: int| 0 <= k2 < k && #[trigger] order[k2] == m[id].deps[j];
            assert(!s.contains(order[k2]));
        }
        assert(source_in(m, s, id));
    }
}

/// In a graph where every node is pending and predecessor lists are closed,
/// the ready nodes are exactly the nodes with no predecessors.
pub proof fn lemma_initial_ready_iff_no_deps(m: GraphModel)
    requires
        deps_closed(m),
        forall|id: u64| #[trigger] m.dom().contains(id) ==> m[id].status == NodeStatus::Pending,
    ensures
        forall|id: u64| #[trigger]
            ready(m, id) <==> (m.dom().contains(id) && m[id].deps.len() == 0),
{
    assert forall|id: u64|
        #[trigger] ready(m, id) <==> (m.dom().contains(id) && m[id].deps.len() == 0) by {
        if m.dom().contains(id) && m[id].deps.len() > 0 && ready(m, id) {
            assert(m[m[id].deps[0]].status == NodeStatus::Done);
            assert(m.dom().contains(m[id].deps[0]));
            assert(m[m[id].deps[0]].status == NodeStatus::Pending);
        }
    }
}

} // verus!
