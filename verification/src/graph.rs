//! In-memory dependency graph: registration with cycle detection, readiness
//! queries, and validated status transitions.

use vstd::prelude::*;

use crate::model::{
    acyclic, deps_closed, ready, reaches, resolved, GraphModel, NodeStatus, NodeView,
};
use crate::model::{
    lemma_order_implies_acyclic, lemma_reach_closed, lemma_reaches_refl, lemma_reaches_step,
    lemma_unreachable_from_absent,
};

verus! {

/// Errors of graph registration and of status transitions.
#[derive(Clone, Copy, Debug, PartialEq, Eq, Structural)]
pub enum GraphError {
    /// The submitted dependency graph has no topological ordering.
    CyclicGraph,
    /// An edge references an identifier that is not in the node set.
    UnknownDependency,
    /// A status transition was requested from the wrong prior status.
    InvalidTransition,
}

pub(crate) struct GraphNode {
    pub id: u64,
    pub deps: Vec<u64>,
}

pub(crate) open spec fn ids_distinct(s: Seq<GraphNode>) -> bool {
    forall|i: int, j: int| 0 <= i < j < s.len() ==> #[trigger] s[i].id != #[trigger] s[j].id
}

pub(crate) open spec fn has_id(s: Seq<GraphNode>, id: u64) -> bool {
    exists|i: int| 0 <= i < s.len() && #[trigger] s[i].id == id
}

pub(crate) open spec fn idx_of(s: Seq<GraphNode>, id: u64) -> int {
    choose|i: int| 0 <= i < s.len() && #[trigger] s[i].id == id
}

pub(crate) open spec fn gm(s: Seq<GraphNode>, st: Seq<NodeStatus>) -> GraphModel {
    Map::new(
        |id: u64| has_id(s, id),
        |id: u64| NodeView { deps: s[idx_of(s, id)].deps@, status: st[idx_of(s, id)] },
    )
}

pub(crate) proof fn lemma_gm_index(s: Seq<GraphNode>, st: Seq<NodeStatus>, i: int)
    requires
        ids_distinct(s),
        0 <= i < s.len(),
    ensures
        gm(s, st).dom().contains(s[i].id),
        gm(s, st)[s[i].id] == (NodeView { deps: s[i].deps@, status: st[i] }),
        idx_of(s, s[i].id) == i,
{
    assert(has_id(s, s[i].id));
    let k = idx_of(s, s[i].id);
    assert(0 <= k < s.len() && s[k].id == s[i].id);
    if k != i {
        assert(s[k].id != s[i].id);
    }
}

/// Appending a node with a fresh identifier inserts it into the model.
pub(crate) proof fn lemma_gm_push(s: Seq<GraphNode>, st: Seq<NodeStatus>, n: GraphNode, x: NodeStatus)
    requires
        ids_distinct(s),
        st.len() == s.len(),
        !has_id(s, n.id),
    ensures
        ids_distinct(s.push(n)),
        gm(s.push(n), st.push(x)) == gm(s, st).insert(n.id, NodeView { deps: n.deps@, status: x }),
{
    let t = s.push(n);
    let tt = st.push(x);
    assert forall|a: int, b: int| 0 <= a < b < t.len() implies #[trigger] t[a].id
        != #[trigger] t[b].id by {
        if b < s.len() {
            assert(s[a].id != s[b].id);
        } else {
            assert(t[b] == n);
            assert(t[a] == s[a]);
            if s[a].id == n.id {
                assert(has_id(s, n.id));
            }
        }
    }
    let rhs = gm(s, st).insert(n.id, NodeView { deps: n.deps@, status: x });
    assert forall|id: u64| #[trigger] gm(t, tt).dom().contains(id) implies gm(t, tt)[id] == rhs[id]
        && rhs.dom().contains(id) by {
        let a = idx_of(t, id);
        assert(0 <= a < t.len() && t[a].id == id);
        lemma_gm_index(t, tt, a);
        if a == s.len() {
            assert(t[a] == n);
        } else {
            assert(t[a] == s[a]);
            lemma_gm_index(s, st, a);
            if id == n.id {
                assert(has_id(s, n.id));
            }
        }
    }
    assert forall|id: u64| #[trigger] rhs.dom().contains(id) implies gm(t, tt).dom().contains(
        id,
    ) by {
        if id == n.id {
            assert(t[s.len() as int].id == id);
        } else {
            let a = choose|a: int| 0 <= a < s.len() && #[trigger] s[a].id == id;
            assert(t[a].id == id);
        }
    }
    assert(gm(t, tt) =~= rhs);
}

/// Changing one node's status updates the model at that identifier only.
pub(crate) proof fn lemma_gm_set_status(
    s: Seq<GraphNode>,
    st: Seq<NodeStatus>,
    i: int,
    x: NodeStatus,
)
    requires
        ids_distinct(s),
        st.len() == s.len(),
        0 <= i < s.len(),
    ensures
        gm(s, st.update(i, x)) == gm(s, st).insert(
            s[i].id,
            NodeView { deps: s[i].deps@, status: x },
        ),
{
    let tt = st.update(i, x);
    let rhs = gm(s, st).insert(s[i].id, NodeView { deps: s[i].deps@, status: x });
    assert forall|id: u64| #[trigger] gm(s, tt).dom().contains(id) implies gm(s, tt)[id] == rhs[id]
        && rhs.dom().contains(id) by {
        let a = idx_of(s, id);
        assert(0 <= a < s.len() && s[a].id == id);
        lemma_gm_index(s, tt, a);
        lemma_gm_index(s, st, a);
        if a != i {
            assert(id != s[i].id) by {
                if a < i {
                    assert(s[a].id != s[i].id);
                } else {
                    assert(s[i].id != s[a].id);
                }
            }
        }
    }
    assert(gm(s, tt) =~= rhs);
}

spec fn count_true(s: Seq<bool>) -> int
    decreases s.len(),
{
    if s.len() == 0 {
        0
    } else {
        count_true(s.drop_last()) + if s.last() {
            1int
        } else {
            0int
        }
    }
}

proof fn lemma_count_true_le(s: Seq<bool>)
    ensures
        count_true(s) <= s.len(),
    decreases s.len(),
{
    if s.len() > 0 {
        lemma_count_true_le(s.drop_last());
    }
}

proof fn lemma_count_true_zero(s: Seq<bool>)
    requires
        forall|i: int| 0 <= i < s.len() ==> !(#[trigger] s[i]),
    ensures
        count_true(s) == 0,
    decreases s.len(),
{
    if s.len() > 0 {
        lemma_count_true_zero(s.drop_last());
    }
}

proof fn lemma_count_true_lt(s: Seq<bool>, i: int)
    requires
        0 <= i < s.len(),
        !s[i],
    ensures
        count_true(s) < s.len(),
    decreases s.len(),
{
    if i == s.len() - 1 {
        lemma_count_true_le(s.drop_last());
    } else {
        lemma_count_true_lt(s.drop_last(), i);
    }
}

proof fn lemma_count_true_update(s: Seq<bool>, i: int)
    requires
        0 <= i < s.len(),
        !s[i],
    ensures
        count_true(s.update(i, true)) == count_true(s) + 1,
    decreases s.len(),
{
    let t = s.update(i, true);
    if i == s.len() - 1 {
        assert(t.drop_last() =~= s.drop_last());
    } else {
        assert(t.drop_last() =~= s.drop_last().update(i, true));
        lemma_count_true_update(s.drop_last(), i);
        assert(t.last() == s.last());
    }
}

/// a is the index of some entry of the stack.
spec fn in_stack(st: Seq<usize>, a: int) -> bool {
    exists|k: int| #![trigger st[k]] 0 <= k < st.len() && st[k] as int == a
}

/// All predecessor identifiers occurring in the node list are themselves
/// node identifiers.
spec fn deps_have_nodes(s: Seq<GraphNode>) -> bool {
    forall|i: int, j: int|
        0 <= i < s.len() && 0 <= j < s[i].deps@.len() ==> has_id(s, #[trigger] s[i].deps@[j])
}

fn find_node(nodes: &Vec<GraphNode>, id: u64) -> (r: Option<usize>)
    ensures
        match r {
            Some(i) => 0 <= i < nodes@.len() && nodes@[i as int].id == id,
            None => !has_id(nodes@, id),
        },
{
    let mut i: usize = 0;
    while i < nodes.len()
        invariant
            i <= nodes@.len(),
            forall|j: int| 0 <= j < i ==> #[trigger] nodes@[j].id != id,
        decreases nodes@.len() - i,
    {
        if nodes[i].id == id {
            return Some(i);
        }
        i = i + 1;
    }
    None
}

fn deps_contain(deps: &Vec<u64>, id: u64) -> (r: bool)
    ensures
        r == deps@.contains(id),
{
    let mut i: usize = 0;
    while i < deps.len()
        invariant
            i <= deps@.len(),
            forall|j: int| 0 <= j < i ==> #[trigger] deps@[j] != id,
        decreases deps@.len() - i,
    {
        if deps[i] == id {
            return true;
        }
        i = i + 1;
    }
    false
}

fn check_deps_closed(nodes: &Vec<GraphNode>, statuses: &Vec<NodeStatus>) -> (r: bool)
    requires
        ids_distinct(nodes@),
        statuses@.len() == nodes@.len(),
    ensures
        r == deps_closed(gm(nodes@, statuses@)),
        r == deps_have_nodes(nodes@),
{
    let s = Ghost(nodes@);
    let ghost st = statuses@;
    let mut i: usize = 0;
    while i < nodes.len()
        invariant
            ids_distinct(s@),
            s@ == nodes@,
            st == statuses@,
            st.len() == s@.len(),
            i <= s@.len(),
            forall|a: int, b: int|
                0 <= a < i && 0 <= b < s@[a].deps@.len() ==> has_id(s@, #[trigger] s@[a].deps@[b]),
        decreases s@.len() - i,
    {
        let deps_len = nodes[i].deps.len();
        let mut j: usize = 0;
        while j < deps_len
            invariant
                ids_distinct(s@),
                s@ == nodes@,
                st == statuses@,
                st.len() == s@.len(),
                0 <= i < s@.len(),
                deps_len == s@[i as int].deps@.len(),
                j <= deps_len,
                forall|b: int| 0 <= b < j ==> has_id(s@, #[trigger] s@[i as int].deps@[b]),
            decreases deps_len - j,
        {
            let dep = nodes[i].deps[j];
            if find_node(nodes, dep).is_none() {
                proof {
                    lemma_gm_index(s@, st, i as int);
                    assert(gm(s@, st).dom().contains(s@[i as int].id));
                    assert(gm(s@, st)[s@[i as int].id].deps[j as int] == dep);
                    assert(!gm(s@, st).dom().contains(dep));
                }
                return false;
            }
            j = j + 1;
        }
        i = i + 1;
    }
    proof {
        assert(deps_have_nodes(s@));
        assert forall|id: u64, k: int|
            gm(s@, st).dom().contains(id) && 0 <= k < gm(s@, st)[id].deps.len() implies gm(
            s@,
            st,
        ).dom().contains(#[trigger] gm(s@, st)[id].deps[k]) by {
            let a = idx_of(s@, id);
            assert(0 <= a < s@.len() && s@[a].id == id);
            lemma_gm_index(s@, st, a);
            assert(gm(s@, st)[id].deps[k] == s@[a].deps@[k]);
            assert(has_id(s@, s@[a].deps@[k]));
        }
    }
    true
}

fn deps_all_placed(nodes: &Vec<GraphNode>, placed: &Vec<bool>, i: usize) -> (r: bool)
    requires
        ids_distinct(nodes@),
        deps_have_nodes(nodes@),
        placed@.len() == nodes@.len(),
        0 <= i < nodes@.len(),
    ensures
        r == (forall|j: int|
            0 <= j < nodes@[i as int].deps@.len() ==> placed@[idx_of(
                nodes@,
                #[trigger] nodes@[i as int].deps@[j],
            )]),
{
    let s = Ghost(nodes@);
    let deps_len = nodes[i].deps.len();
    let mut j: usize = 0;
    while j < deps_len
        invariant
            ids_distinct(s@),
            deps_have_nodes(s@),
            s@ == nodes@,
            placed@.len() == s@.len(),
            0 <= i < s@.len(),
            deps_len == s@[i as int].deps@.len(),
            j <= deps_len,
            forall|b: int| 0 <= b < j ==> placed@[idx_of(s@, #[trigger] s@[i as int].deps@[b])],
        decreases deps_len - j,
    {
        let dep = nodes[i].deps[j];
        match find_node(nodes, dep) {
            Some(k) => {
                proof {
                    lemma_gm_index(s@, Seq::empty(), k as int);
                    assert(idx_of(s@, dep) == k as int);
                }
                if !placed[k] {
                    return false;
                }
            },
            None => {
                proof {
                    assert(has_id(s@, s@[i as int].deps@[j as int]));
                }
                return false;
            },
        }
        j = j + 1;
    }
    true
}

fn find_placeable(nodes: &Vec<GraphNode>, placed: &Vec<bool>) -> (r: Option<usize>)
    requires
        ids_distinct(nodes@),
        deps_have_nodes(nodes@),
        placed@.len() == nodes@.len(),
    ensures
        match r {
            Some(i) => 0 <= i < nodes@.len() && !placed@[i as int] && (forall|j: int|
                0 <= j < nodes@[i as int].deps@.len() ==> placed@[idx_of(
                    nodes@,
                    #[trigger] nodes@[i as int].deps@[j],
                )]),
            None => forall|i: int|
                0 <= i < nodes@.len() && !placed@[i] ==> !(forall|j: int|
                    0 <= j < nodes@[i].deps@.len() ==> placed@[idx_of(
                        nodes@,
                        #[trigger] nodes@[i].deps@[j],
                    )]),
        },
{
    let mut i: usize = 0;
    while i < nodes.len()
        invariant
            ids_distinct(nodes@),
            deps_have_nodes(nodes@),
            placed@.len() == nodes@.len(),
            i <= nodes@.len(),
            forall|a: int|
                0 <= a < i && !placed@[a] ==> !(forall|j: int|
                    0 <= j < nodes@[a].deps@.len() ==> placed@[idx_of(
                        nodes@,
                        #[trigger] nodes@[a].deps@[j],
                    )]),
        decreases nodes@.len() - i,
    {
        if !placed[i] {
            if deps_all_placed(nodes, placed, i) {
                return Some(i);
            }
        }
        i = i + 1;
    }
    None
}

fn find_unplaced(placed: &Vec<bool>) -> (r: Option<usize>)
    ensures
        match r {
            Some(i) => 0 <= i < placed@.len() && !placed@[i as int],
            None => forall|i: int| 0 <= i < placed@.len() ==> #[trigger] placed@[i],
        },
{
    let mut i: usize = 0;
    while i < placed.len()
        invariant
            i <= placed@.len(),
            forall|a: int| 0 <= a < i ==> #[trigger] placed@[a],
        decreases placed@.len() - i,
    {
        if !placed[i] {
            return Some(i);
        }
        i = i + 1;
    }
    None
}

fn check_acyclic(nodes: &Vec<GraphNode>, statuses: &Vec<NodeStatus>) -> (r: bool)
    requires
        ids_distinct(nodes@),
        deps_have_nodes(nodes@),
        statuses@.len() == nodes@.len(),
    ensures
        r == acyclic(gm(nodes@, statuses@)),
{
    let s = Ghost(nodes@);
    let ghost m = gm(nodes@, statuses@);
    let mut placed: Vec<bool> = vec![false; nodes.len()];
    let ghost mut order: Seq<u64> = Seq::empty();
    proof {
        lemma_count_true_zero(placed@);
    }
    loop
        invariant
            ids_distinct(s@),
            deps_have_nodes(s@),
            s@ == nodes@,
            m == gm(s@, statuses@),
            statuses@.len() == s@.len(),
            placed@.len() == s@.len(),
            order.no_duplicates(),
            forall|k: int| 0 <= k < order.len() ==> has_id(s@, #[trigger] order[k]),
            forall|a: int|
                0 <= a < s@.len() ==> (placed@[a] <==> order.contains(#[trigger] s@[a].id)),
            forall|k: int, j: int|
                0 <= k < order.len() && 0 <= j < m[order[k]].deps.len()
                    ==> crate::model::appears_before(order, k, #[trigger] m[order[k]].deps[j]),
            order.len() == count_true(placed@),
        decreases s@.len() - order.len(),
    {
        proof {
            lemma_count_true_le(placed@);
        }
        match find_placeable(nodes, &placed) {
            Some(i) => {
                let ghost placed0 = placed@;
                let ghost order0 = order;
                placed.set(i, true);
                proof {
                    lemma_count_true_update(placed0, i as int);
                    lemma_count_true_lt(placed0, i as int);
                    lemma_gm_index(s@, statuses@, i as int);
                    order = order0.push(s@[i as int].id);
                    assert forall|a: int|
                        0 <= a < s@.len() implies (placed@[a] <==> order.contains(
                        #[trigger] s@[a].id,
                    )) by {
                        if a == i {
                            assert(order[order0.len() as int] == s@[a].id);
                        } else {
                            assert(placed@[a] == placed0[a]);
                            if order0.contains(s@[a].id) {
                                let k = choose|k: int|
                                    0 <= k < order0.len() && order0[k] == s@[a].id;
                                assert(order[k] == s@[a].id);
                            }
                            if order.contains(s@[a].id) {
                                let k = choose|k: int| 0 <= k < order.len() && order[k] == s@[a].id;
                                if k == order0.len() {
                                    assert(s@[a].id == s@[i as int].id);
                                    if a < i {
                                        assert(s@[a].id != s@[i as int].id);
                                    } else {
                                        assert(s@[i as int].id != s@[a].id);
                                    }
                                } else {
                                    assert(order0[k] == s@[a].id);
                                }
                            }
                        }
                    }
                    assert(order.no_duplicates()) by {
                        assert forall|x: int, y: int|
                            0 <= x < y < order.len() implies order[x] != order[y] by {
                            if y == order0.len() {
                                assert(order0[x] == order[x]);
                                if order[x] == s@[i as int].id {
                                    assert(order0.contains(s@[i as int].id));
                                    assert(placed0[i as int]);
                                }
                            } else {
                                assert(order0[x] == order[x] && order0[y] == order[y]);
                            }
                        }
                    }
                    assert forall|k: int, j: int|
                        0 <= k < order.len() && 0 <= j
                            < m[order[k]].deps.len() implies crate::model::appears_before(
                        order,
                        k,
                        #[trigger] m[order[k]].deps[j],
                    ) by {
                        if k < order0.len() {
                            assert(order[k] == order0[k]);
                            assert(m[order0[k]].deps[j] == m[order[k]].deps[j]);
                            assert(crate::model::appears_before(order0, k, m[order0[k]].deps[j]));
                            let k2 = choose|k2: int|
                                0 <= k2 < k && #[trigger] order0[k2] == m[order0[k]].deps[j];
                            assert(order[k2] == m[order[k]].deps[j]);
                        } else {
                            assert(order[k] == s@[i as int].id);
                            assert(m[order[k]] == (NodeView {
                                deps: s@[i as int].deps@,
                                status: statuses@[i as int],
                            }));
                            let d = m[order[k]].deps[j];
                            assert(d == s@[i as int].deps@[j]);
                            assert(placed0[idx_of(s@, d)]);
                            let a = idx_of(s@, d);
                            assert(has_id(s@, d));
                            assert(0 <= a < s@.len() && s@[a].id == d);
                            assert(order0.contains(s@[a].id));
                            let k2 = choose|k2: int|
                                0 <= k2 < order0.len() && #[trigger] order0[k2] == d;
                            assert(order[k2] == d);
                        }
                    }
                }
            },
            None => {
                match find_unplaced(&placed) {
                    None => {
                        proof {
                            assert forall|id: u64| m.dom().contains(id) <==> #[trigger]
                                order.contains(id) by {
                                if has_id(s@, id) {
                                    let a = idx_of(s@, id);
                                    assert(0 <= a < s@.len() && s@[a].id == id);
                                    assert(placed@[a]);
                                }
                                if order.contains(id) {
                                    let k = choose|k: int| 0 <= k < order.len() && order[k] == id;
                                    assert(has_id(s@, order[k]));
                                }
                            }
                            lemma_order_implies_acyclic(m, order);
                        }
                        return true;
                    },
                    Some(u) => {
                        proof {
                            let rem = Set::new(|id: u64| has_id(s@, id) && !order.contains(id));
                            let idu = s@[u as int].id;
                            assert(has_id(s@, idu));
                            assert(!order.contains(idu));
                            assert(rem.contains(idu));
                            assert(rem.subset_of(m.dom()));
                            if acyclic(m) {
                                assert(exists|x: u64| rem.contains(x));
                                let src = choose|id: u64| crate::model::source_in(m, rem, id);
                                assert(crate::model::source_in(m, rem, src));
                                assert(rem.contains(src));
                                let a = idx_of(s@, src);
                                assert(0 <= a < s@.len() && s@[a].id == src);
                                lemma_gm_index(s@, statuses@, a);
                                assert(!placed@[a]);
                                assert(exists|j: int|
                                    0 <= j < s@[a].deps@.len() && !placed@[idx_of(
                                        s@,
                                        #[trigger] s@[a].deps@[j],
                                    )]);
                                let j = choose|j: int|
                                    0 <= j < s@[a].deps@.len() && !placed@[idx_of(
                                        s@,
                                        #[trigger] s@[a].deps@[j],
                                    )];
                                let d = s@[a].deps@[j];
                                assert(has_id(s@, d));
                                let b = idx_of(s@, d);
                                assert(0 <= b < s@.len() && s@[b].id == d);
                                assert(!placed@[b]);
                                assert(!order.contains(d));
                                assert(rem.contains(d));
                                assert(m[src].deps == s@[a].deps@);
                                assert(!rem.contains(m[src].deps[j]));
                                assert(false);
                            }
                        }
                        return false;
                    },
                }
            },
        }
    }
}

/// The model induced by a submitted list of (node, predecessors) pairs: one
/// pending node per distinct identifier; on a repeated identifier the later
/// pair is the one that counts.
pub open spec fn pairs_model(s: Seq<(u64, Vec<u64>)>) -> GraphModel
    decreases s.len(),
{
    if s.len() == 0 {
        Map::empty()
    } else {
        let rest = pairs_model(s.drop_first());
        if rest.dom().contains(s.first().0) {
            rest
        } else {
            rest.insert(s.first().0, NodeView { deps: s.first().1@, status: NodeStatus::Pending })
        }
    }
}

/// In the model induced by a submission, every node is pending.
pub proof fn lemma_pairs_model_pending(s: Seq<(u64, Vec<u64>)>)
    ensures
        forall|id: u64| #[trigger]
            pairs_model(s).dom().contains(id) ==> pairs_model(s)[id].status == NodeStatus::Pending,
    decreases s.len(),
{
    if s.len() > 0 {
        lemma_pairs_model_pending(s.drop_first());
        let rest = pairs_model(s.drop_first());
        assert forall|id: u64| #[trigger]
            pairs_model(s).dom().contains(id) implies pairs_model(s)[id].status
            == NodeStatus::Pending by {
            if rest.dom().contains(s.first().0) || id != s.first().0 {
                assert(rest.dom().contains(id));
                assert(rest[id].status == NodeStatus::Pending);
            }
        }
    }
}

/// Immediately after registration every node is pending, so the ready nodes
/// of a freshly registered graph are exactly the nodes with no predecessors.
pub proof fn lemma_initial_ready(pairs: Seq<(u64, Vec<u64>)>)
    requires
        deps_closed(pairs_model(pairs)),
    ensures
        forall|id: u64| #[trigger]
            ready(pairs_model(pairs), id) <==> (pairs_model(pairs).dom().contains(id)
                && pairs_model(pairs)[id].deps.len() == 0),
{
    lemma_pairs_model_pending(pairs);
    crate::model::lemma_initial_ready_iff_no_deps(pairs_model(pairs));
}

/// A registered dependency graph: a set of nodes, each with its predecessor
/// identifiers and its current status.
pub struct Graph {
    nodes: Vec<GraphNode>,
    statuses: Vec<NodeStatus>,
}

impl View for Graph {
    type V = GraphModel;

    closed spec fn view(&self) -> GraphModel {
        gm(self.nodes@, self.statuses@)
    }
}

impl Graph {
    /// Node identifiers are mutually distinct and every edge stays inside the
    /// node set.
    pub closed spec fn wf(&self) -> bool {
        &&& ids_distinct(self.nodes@)
        &&& self.statuses@.len() == self.nodes@.len()
        &&& deps_have_nodes(self.nodes@)
    }

    /// A well-formed graph's model has closed predecessor lists.
    pub proof fn lemma_wf_deps_closed(&self)
        requires
            self.wf(),
        ensures
            deps_closed(self@),
    {
        assert forall|id: u64, k: int|
            self@.dom().contains(id) && 0 <= k < self@[id].deps.len() implies self@.dom().contains(
            #[trigger] self@[id].deps[k],
        ) by {
            let s = self.nodes@;
            let a = idx_of(s, id);
            assert(0 <= a < s.len() && s[a].id == id);
            lemma_gm_index(s, self.statuses@, a);
            assert(self@[id].deps[k] == s[a].deps@[k]);
            assert(has_id(s, s[a].deps@[k]));
        }
    }

    /// Builds a graph from a client-submitted list of (node, predecessors)
    /// pairs, validating it: every named predecessor must be a node of the
    /// submission, and the graph must admit a topological ordering. All nodes
    /// start pending. No graph is built from an invalid submission.
    pub fn register(pairs: Vec<(u64, Vec<u64>)>) -> (r: Result<Graph, GraphError>)
        ensures
            (match r {
                Ok(g) => g.wf() && g@ == pairs_model(pairs@) && deps_closed(pairs_model(pairs@))
                    && acyclic(pairs_model(pairs@)),
                Err(e) => {
                    &&& (e == GraphError::UnknownDependency <==> !deps_closed(pairs_model(pairs@)))
                    &&& (e == GraphError::CyclicGraph <==> (deps_closed(pairs_model(pairs@))
                        && !acyclic(pairs_model(pairs@))))
                },
            }),
            r is Ok <==> (deps_closed(pairs_model(pairs@)) && acyclic(pairs_model(pairs@))),
    {
        let ghost all = pairs@;
        let mut rest = pairs;
        let mut nodes: Vec<GraphNode> = Vec::new();
        let mut statuses: Vec<NodeStatus> = Vec::new();
        proof {
            assert(all.take(all.len() as int) =~= all);
            assert(all.skip(all.len() as int) =~= Seq::<(u64, Vec<u64>)>::empty());
            assert(gm(nodes@, statuses@) =~= pairs_model(all.skip(all.len() as int)));
        }
        while rest.len() > 0
            invariant
                rest@ == all.take(rest@.len() as int),
                rest@.len() <= all.len(),
                ids_distinct(nodes@),
                statuses@.len() == nodes@.len(),
                gm(nodes@, statuses@) == pairs_model(all.skip(rest@.len() as int)),
            decreases rest@.len(),
        {
            let ghost n = rest@.len() as int;
            let p = rest.pop().unwrap();
            proof {
                assert(all.take(n)[n - 1] == all[n - 1]);
                assert(p == all[n - 1]);
                assert(all.take(n).drop_last() =~= all.take(n - 1));
                let suf = all.skip(n - 1);
                assert(suf.len() > 0);
                assert(suf.first() == all[n - 1]);
                assert(suf.drop_first() =~= all.skip(n));
            }
            match find_node(&nodes, p.0) {
                Some(_) => {
                    proof {
                        assert(gm(nodes@, statuses@).dom().contains(p.0));
                    }
                },
                None => {
                    let ghost nodes0 = nodes@;
                    let ghost statuses0 = statuses@;
                    nodes.push(GraphNode { id: p.0, deps: p.1 });
                    statuses.push(NodeStatus::Pending);
                    proof {
                        let node = nodes@.last();
                        assert(nodes@ =~= nodes0.push(node));
                        lemma_gm_push(nodes0, statuses0, node, NodeStatus::Pending);
                    }
                },
            }
        }
        proof {
            assert(all.skip(0) =~= all);
        }
        if !check_deps_closed(&nodes, &statuses) {
            return Err(GraphError::UnknownDependency);
        }
        if !check_acyclic(&nodes, &statuses) {
            return Err(GraphError::CyclicGraph);
        }
        Ok(Graph { nodes, statuses })
    }

    /// The status of one node, or None for an identifier not in the graph.
    pub fn status_of(&self, id: u64) -> (r: Option<NodeStatus>)
        requires
            self.wf(),
        ensures
            r == if self@.dom().contains(id) {
                Some(self@[id].status)
            } else {
                None::<NodeStatus>
            },
    {
        match find_node(&self.nodes, id) {
            Some(i) => {
                proof {
                    lemma_gm_index(self.nodes@, self.statuses@, i as int);
                }
                Some(self.statuses[i])
            },
            None => None,
        }
    }

    fn is_ready_at(&self, i: usize) -> (r: bool)
        requires
            self.wf(),
            0 <= i < self.nodes@.len(),
        ensures
            r == ready(self@, self.nodes@[i as int].id),
    {
        proof {
            lemma_gm_index(self.nodes@, self.statuses@, i as int);
        }
        let ghost m = self@;
        let ghost id = self.nodes@[i as int].id;
        if !matches!(self.statuses[i], NodeStatus::Pending) {
            return false;
        }
        let deps_len = self.nodes[i].deps.len();
        let mut j: usize = 0;
        while j < deps_len
            invariant
                self.wf(),
                m == self@,
                0 <= i < self.nodes@.len(),
                id == self.nodes@[i as int].id,
                deps_len == self.nodes@[i as int].deps@.len(),
                j <= deps_len,
                forall|b: int|
                    0 <= b < j ==> m[#[trigger] m[id].deps[b]].status == NodeStatus::Done,
                m.dom().contains(id),
                m[id].deps == self.nodes@[i as int].deps@,
            decreases deps_len - j,
        {
            let dep = self.nodes[i].deps[j];
            match find_node(&self.nodes, dep) {
                Some(k) => {
                    proof {
                        lemma_gm_index(self.nodes@, self.statuses@, k as int);
                    }
                    if !matches!(self.statuses[k], NodeStatus::Done) {
                        return false;
                    }
                },
                None => {
                    proof {
                        assert(has_id(self.nodes@, self.nodes@[i as int].deps@[j as int]));
                    }
                    return false;
                },
            }
            j = j + 1;
        }
        true
    }

    /// The identifiers of the nodes that are ready: pending, with every
    /// predecessor done. A pure query.
    pub fn ready_nodes(&self) -> (r: Vec<u64>)
        requires
            self.wf(),
        ensures
            forall|id: u64| r@.contains(id) <==> #[trigger] ready(self@, id),
            r@.no_duplicates(),
    {
        let mut out: Vec<u64> = Vec::new();
        let mut i: usize = 0;
        while i < self.nodes.len()
            invariant
                self.wf(),
                i <= self.nodes@.len(),
                forall|k: int|
                    0 <= k < out@.len() ==> exists|a: int|
                        0 <= a < i && #[trigger] out@[k] == self.nodes@[a].id,
                forall|k: int| 0 <= k < out@.len() ==> ready(self@, #[trigger] out@[k]),
                forall|a: int|
                    0 <= a < i && ready(self@, #[trigger] self.nodes@[a].id) ==> out@.contains(
                        self.nodes@[a].id,
                    ),
                out@.no_duplicates(),
            decreases self.nodes@.len() - i,
        {
            let ghost out0 = out@;
            if self.is_ready_at(i) {
                out.push(self.nodes[i].id);
                proof {
                    assert forall|k: int| 0 <= k < out@.len() implies exists|a: int|
                        0 <= a < i + 1 && #[trigger] out@[k] == self.nodes@[a].id by {
                        if k < out0.len() {
                            assert(out@[k] == out0[k]);
                            let a = choose|a: int| 0 <= a < i && #[trigger] out0[k] == self.nodes@[a].id;
                            assert(out@[k] == self.nodes@[a].id);
                        } else {
                            assert(out@[k] == self.nodes@[i as int].id);
                        }
                    }
                    assert(out@.no_duplicates()) by {
                        assert forall|x: int, y: int|
                            0 <= x < y < out@.len() implies out@[x] != out@[y] by {
                            if y == out0.len() {
                                let a = choose|a: int|
                                    0 <= a < i && #[trigger] out0[x] == self.nodes@[a].id;
                                assert(out@[x] == self.nodes@[a].id);
                                assert(out@[y] == self.nodes@[i as int].id);
                                assert(self.nodes@[a].id != self.nodes@[i as int].id);
                            } else {
                                assert(out0[x] == out@[x] && out0[y] == out@[y]);
                            }
                        }
                    }
                }
            }
            i = i + 1;
            proof {
                assert forall|a: int|
                    0 <= a < i && ready(self@, #[trigger] self.nodes@[a].id) implies out@.contains(
                    self.nodes@[a].id,
                ) by {
                    if a < i - 1 {
                        if out0.contains(self.nodes@[a].id) {
                            let k = choose|k: int|
                                0 <= k < out0.len() && out0[k] == self.nodes@[a].id;
                            assert(out@[k] == self.nodes@[a].id);
                        }
                    } else {
                        assert(a == i - 1);
                        assert(out@[out@.len() - 1] == self.nodes@[a].id);
                    }
                }
            }
        }
        proof {
            assert forall|id: u64| out@.contains(id) <==> #[trigger] ready(self@, id) by {
                if ready(self@, id) {
                    assert(has_id(self.nodes@, id));
                    let a = idx_of(self.nodes@, id);
                    assert(0 <= a < self.nodes@.len() && self.nodes@[a].id == id);
                    assert(out@.contains(self.nodes@[a].id));
                }
                if out@.contains(id) {
                    let k = choose|k: int| 0 <= k < out@.len() && out@[k] == id;
                    assert(ready(self@, out@[k]));
                }
            }
        }
        out
    }

    /// Marks a ready node as dispatched. Fails with InvalidTransition, and
    /// changes nothing, unless the node is currently ready.
    pub fn mark_in_flight(&mut self, id: u64) -> (r: Result<(), GraphError>)
        requires
            old(self).wf(),
        ensures
            final(self).wf(),
            r is Ok <==> ready(old(self)@, id),
            r is Ok ==> final(self)@ == old(self)@.insert(
                id,
                NodeView { deps: old(self)@[id].deps, status: NodeStatus::InFlight },
            ),
            r is Err ==> final(self)@ == old(self)@ && r == Err::<(), GraphError>(
                GraphError::InvalidTransition,
            ),
    {
        match find_node(&self.nodes, id) {
            Some(i) => {
                proof {
                    lemma_gm_index(self.nodes@, self.statuses@, i as int);
                }
                if self.is_ready_at(i) {
                    self.set_status_at(i, NodeStatus::InFlight);
                    Ok(())
                } else {
                    Err(GraphError::InvalidTransition)
                }
            },
            None => {
                proof {
                    if ready(self@, id) {
                        assert(has_id(self.nodes@, id));
                    }
                }
                Err(GraphError::InvalidTransition)
            },
        }
    }

    fn set_status_at(&mut self, i: usize, x: NodeStatus)
        requires
            old(self).wf(),
            0 <= i < old(self).nodes@.len(),
        ensures
            final(self).wf(),
            final(self).nodes@ == old(self).nodes@,
            final(self).statuses@ == old(self).statuses@.update(i as int, x),
            final(self)@ == old(self)@.insert(
                old(self).nodes@[i as int].id,
                NodeView { deps: old(self).nodes@[i as int].deps@, status: x },
            ),
    {
        proof {
            lemma_gm_set_status(self.nodes@, self.statuses@, i as int, x);
        }
        self.statuses.set(i, x);
    }

    /// Marks a dispatched node as completed. Fails with InvalidTransition,
    /// and changes nothing, unless the node is currently in flight.
    pub fn mark_done(&mut self, id: u64) -> (r: Result<(), GraphError>)
        requires
            old(self).wf(),
        ensures
            final(self).wf(),
            r is Ok <==> (old(self)@.dom().contains(id) && old(self)@[id].status
                == NodeStatus::InFlight),
            r is Ok ==> final(self)@ == old(self)@.insert(
                id,
                NodeView { deps: old(self)@[id].deps, status: NodeStatus::Done },
            ),
            r is Err ==> final(self)@ == old(self)@ && r == Err::<(), GraphError>(
                GraphError::InvalidTransition,
            ),
    {
        self.transition_from_in_flight(id, NodeStatus::Done)
    }

    /// Marks a dispatched node as failed. Fails with InvalidTransition, and
    /// changes nothing, unless the node is currently in flight.
    pub fn mark_failed(&mut self, id: u64) -> (r: Result<(), GraphError>)
        requires
            old(self).wf(),
        ensures
            final(self).wf(),
            r is Ok <==> (old(self)@.dom().contains(id) && old(self)@[id].status
                == NodeStatus::InFlight),
            r is Ok ==> final(self)@ == old(self)@.insert(
                id,
                NodeView { deps: old(self)@[id].deps, status: NodeStatus::Failed },
            ),
            r is Err ==> final(self)@ == old(self)@ && r == Err::<(), GraphError>(
                GraphError::InvalidTransition,
            ),
    {
        self.transition_from_in_flight(id, NodeStatus::Failed)
    }

    fn transition_from_in_flight(&mut self, id: u64, x: NodeStatus) -> (r: Result<(), GraphError>)
        requires
            old(self).wf(),
        ensures
            final(self).wf(),
            r is Ok <==> (old(self)@.dom().contains(id) && old(self)@[id].status
                == NodeStatus::InFlight),
            r is Ok ==> final(self)@ == old(self)@.insert(
                id,
                NodeView { deps: old(self)@[id].deps, status: x },
            ),
            r is Err ==> final(self)@ == old(self)@ && r == Err::<(), GraphError>(
                GraphError::InvalidTransition,
            ),
    {
        match find_node(&self.nodes, id) {
            Some(i) => {
                proof {
                    lemma_gm_index(self.nodes@, self.statuses@, i as int);
                }
                if matches!(self.statuses[i], NodeStatus::InFlight) {
                    self.set_status_at(i, x);
                    Ok(())
                } else {
                    Err(GraphError::InvalidTransition)
                }
            },
            None => {
                proof {
                    if self@.dom().contains(id) {
                        assert(has_id(self.nodes@, id));
                    }
                }
                Err(GraphError::InvalidTransition)
            },
        }
    }

    /// The identifiers of the direct successors of `id` that are ready:
    /// pending, naming `id` as a predecessor, with every predecessor done.
    pub fn ready_successors(&self, id: u64) -> (r: Vec<u64>)
        requires
            self.wf(),
        ensures
            forall|n: u64|
                r@.contains(n) <==> (#[trigger] ready(self@, n) && self@[n].deps.contains(id)),
            r@.no_duplicates(),
    {
        let mut out: Vec<u64> = Vec::new();
        let mut i: usize = 0;
        while i < self.nodes.len()
            invariant
                self.wf(),
                i <= self.nodes@.len(),
                forall|k: int|
                    0 <= k < out@.len() ==> exists|a: int|
                        0 <= a < i && #[trigger] out@[k] == self.nodes@[a].id,
                forall|k: int|
                    0 <= k < out@.len() ==> ready(self@, #[trigger] out@[k]) && self@[out@[k]].deps.contains(id),
                forall|a: int|
                    0 <= a < i && ready(self@, #[trigger] self.nodes@[a].id) && self@[self.nodes@[a].id].deps.contains(id)
                        ==> out@.contains(self.nodes@[a].id),
                out@.no_duplicates(),
            decreases self.nodes@.len() - i,
        {
            let ghost out0 = out@;
            proof {
                lemma_gm_index(self.nodes@, self.statuses@, i as int);
            }
            if deps_contain(&self.nodes[i].deps, id) {
                if self.is_ready_at(i) {
                    out.push(self.nodes[i].id);
                    proof {
                        assert forall|k: int| 0 <= k < out@.len() implies exists|a: int|
                            0 <= a < i + 1 && #[trigger] out@[k] == self.nodes@[a].id by {
                            if k < out0.len() {
                                assert(out@[k] == out0[k]);
                                let a = choose|a: int|
                                    0 <= a < i && #[trigger] out0[k] == self.nodes@[a].id;
                                assert(out@[k] == self.nodes@[a].id);
                            } else {
                                assert(out@[k] == self.nodes@[i as int].id);
                            }
                        }
                        assert(out@.no_duplicates()) by {
                            assert forall|x: int, y: int|
                                0 <= x < y < out@.len() implies out@[x] != out@[y] by {
                                if y == out0.len() {
                                    let a = choose|a: int|
                                        0 <= a < i && #[trigger] out0[x] == self.nodes@[a].id;
                                    assert(out@[x] == self.nodes@[a].id);
                                    assert(out@[y] == self.nodes@[i as int].id);
                                    assert(self.nodes@[a].id != self.nodes@[i as int].id);
                                } else {
                                    assert(out0[x] == out@[x] && out0[y] == out@[y]);
                                }
                            }
                        }
                    }
                }
            }
            i = i + 1;
            proof {
                assert forall|a: int|
                    0 <= a < i && ready(self@, #[trigger] self.nodes@[a].id)
                        && self@[self.nodes@[a].id].deps.contains(id) implies out@.contains(
                    self.nodes@[a].id,
                ) by {
                    if a < i - 1 {
                        if out0.contains(self.nodes@[a].id) {
                            let k = choose|k: int|
                                0 <= k < out0.len() && out0[k] == self.nodes@[a].id;
                            assert(out@[k] == self.nodes@[a].id);
                        }
                    } else {
                        assert(a == i - 1);
                        assert(out@[out@.len() - 1] == self.nodes@[a].id);
                    }
                }
            }
        }
        proof {
            assert forall|n: u64|
                out@.contains(n) <==> (#[trigger] ready(self@, n) && self@[n].deps.contains(
                    id,
                )) by {
                if ready(self@, n) && self@[n].deps.contains(id) {
                    assert(has_id(self.nodes@, n));
                    let a = idx_of(self.nodes@, n);
                    assert(0 <= a < self.nodes@.len() && self.nodes@[a].id == n);
                    assert(out@.contains(self.nodes@[a].id));
                }
                if out@.contains(n) {
                    let k = choose|k: int| 0 <= k < out@.len() && out@[k] == n;
                    assert(ready(self@, out@[k]) && self@[out@[k]].deps.contains(id));
                }
            }
        }
        out
    }

    /// Marks as failed every node reachable from `root` along dependency
    /// edges, `root` itself included; all other nodes keep their status.
    pub fn fail_descendants(&mut self, root: u64)
        requires
            old(self).wf(),
        ensures
            final(self).wf(),
            final(self)@.dom() == old(self)@.dom(),
            forall|id: u64|
                old(self)@.dom().contains(id) ==> #[trigger] final(self)@[id] == (NodeView {
                    deps: old(self)@[id].deps,
                    status: if reaches(old(self)@, root, id) {
                        NodeStatus::Failed
                    } else {
                        old(self)@[id].status
                    },
                }),
    {
        let ghost s = self.nodes@;
        let ghost st0 = self.statuses@;
        let ghost m0 = gm(s, st0);
        let root_idx = match find_node(&self.nodes, root) {
            Some(i) => i,
            None => {
                proof {
                    lemma_unreachable_from_absent(m0, root);
                    assert forall|id: u64| old(self)@.dom().contains(id) implies #[trigger] self@[id]
                        == (NodeView {
                        deps: old(self)@[id].deps,
                        status: if reaches(old(self)@, root, id) {
                            NodeStatus::Failed
                        } else {
                            old(self)@[id].status
                        },
                    }) by {
                        assert(!reaches(old(self)@, root, id));
                        assert(self@[id] == old(self)@[id]);
                    }
                }
                return ;
            },
        };
        let mut visited: Vec<bool> = vec![false; self.nodes.len()];
        let mut stack: Vec<usize> = Vec::new();
        let ghost visited_pre = visited@;
        visited.set(root_idx, true);
        self.set_status_at(root_idx, NodeStatus::Failed);
        stack.push(root_idx);
        proof {
            lemma_reaches_refl(m0, root);
            lemma_count_true_zero(visited_pre);
            lemma_count_true_update(visited_pre, root_idx as int);
            lemma_gm_index(s, st0, root_idx as int);
            assert(stack@[0] == root_idx);
            assert(in_stack(stack@, root_idx as int));
        }
        while stack.len() > 0
            invariant
                self.nodes@ == s,
                ids_distinct(s),
                deps_have_nodes(s),
                self.statuses@.len() == s.len(),
                st0.len() == s.len(),
                m0 == gm(s, st0),
                visited@.len() == s.len(),
                0 <= root_idx < s.len(),
                s[root_idx as int].id == root,
                visited@[root_idx as int],
                forall|k: int| 0 <= k < stack@.len() ==> #[trigger] stack@[k] < s.len(),
                forall|k: int| 0 <= k < stack@.len() ==> visited@[#[trigger] stack@[k] as int],
                stack@.no_duplicates(),
                forall|a: int|
                    0 <= a < s.len() && visited@[a] ==> reaches(m0, root, #[trigger] s[a].id),
                forall|a: int| 0 <= a < s.len() && !visited@[a] ==> self.statuses@[a] == st0[a],
                forall|a: int|
                    0 <= a < s.len() && #[trigger] visited@[a] ==> self.statuses@[a]
                        == NodeStatus::Failed,
                forall|a: int, b: int|
                    0 <= a < s.len() && 0 <= b < s.len() && visited@[a] && !in_stack(stack@, a)
                        && #[trigger] s[b].deps@.contains(s[a].id) ==> visited@[b],
            decreases s.len() - count_true(visited@), stack@.len(),
        {
            proof {
                lemma_count_true_le(visited@);
            }
            let ghost stack_before = stack@;
            let i = stack.pop().unwrap();
            let id_i = self.nodes[i].id;
            let ghost count0 = count_true(visited@);
            let ghost sl0 = stack@.len() as int;
            proof {
                assert(i == stack_before.last());
                assert(stack@ =~= stack_before.drop_last());
                assert(!in_stack(stack@, i as int)) by {
                    if in_stack(stack@, i as int) {
                        let k = choose|k: int|
                            #![trigger stack@[k]]
                            0 <= k < stack@.len() && stack@[k] as int == i as int;
                        assert(stack_before[k] == i);
                        assert(stack_before[stack_before.len() - 1] == i);
                    }
                }
                assert forall|a: int, b: int|
                    0 <= a < s.len() && 0 <= b < s.len() && a != i && visited@[a] && !in_stack(
                        stack@,
                        a,
                    ) && #[trigger] s[b].deps@.contains(s[a].id) implies visited@[b] by {
                    assert(!in_stack(stack_before, a)) by {
                        if in_stack(stack_before, a) {
                            let k = choose|k: int|
                                #![trigger stack_before[k]]
                                0 <= k < stack_before.len() && stack_before[k] as int == a;
                            if k < stack_before.len() - 1 {
                                assert(stack@[k] == stack_before[k]);
                            }
                        }
                    }
                }
            }
            let mut j: usize = 0;
            while j < self.nodes.len()
                invariant
                    self.nodes@ == s,
                    ids_distinct(s),
                    deps_have_nodes(s),
                    self.statuses@.len() == s.len(),
                    st0.len() == s.len(),
                    m0 == gm(s, st0),
                    visited@.len() == s.len(),
                    0 <= root_idx < s.len(),
                    s[root_idx as int].id == root,
                    visited@[root_idx as int],
                    0 <= i < s.len(),
                    visited@[i as int],
                    id_i == s[i as int].id,
                    !in_stack(stack@, i as int),
                    j <= s.len(),
                    forall|k: int| 0 <= k < stack@.len() ==> #[trigger] stack@[k] < s.len(),
                    forall|k: int| 0 <= k < stack@.len() ==> visited@[#[trigger] stack@[k] as int],
                    stack@.no_duplicates(),
                    forall|a: int|
                        0 <= a < s.len() && visited@[a] ==> reaches(m0, root, #[trigger] s[a].id),
                    forall|a: int| 0 <= a < s.len() && !visited@[a] ==> self.statuses@[a] == st0[a],
                    forall|a: int|
                        0 <= a < s.len() && #[trigger] visited@[a] ==> self.statuses@[a]
                            == NodeStatus::Failed,
                    forall|a: int, b: int|
                        0 <= a < s.len() && 0 <= b < s.len() && a != i && visited@[a] && !in_stack(
                            stack@,
                            a,
                        ) && #[trigger] s[b].deps@.contains(s[a].id) ==> visited@[b],
                    forall|b: int|
                        0 <= b < j && s[b].deps@.contains(s[i as int].id) ==> visited@[b],
                    count_true(visited@) - stack@.len() == count0 - sl0,
                    stack@.len() >= sl0,
                decreases s.len() - j,
            {
                if deps_contain(&self.nodes[j].deps, id_i) {
                    if !visited[j] {
                        let ghost visited0 = visited@;
                        let ghost stack0 = stack@;
                        visited.set(j, true);
                        self.set_status_at(j, NodeStatus::Failed);
                        stack.push(j);
                        proof {
                            lemma_count_true_update(visited0, j as int);
                            lemma_gm_index(s, st0, j as int);
                            lemma_gm_index(s, st0, i as int);
                            assert(crate::model::edge(m0, s[i as int].id, s[j as int].id));
                            lemma_reaches_step(m0, root, s[i as int].id, s[j as int].id);
                            assert(stack@[stack@.len() - 1] == j);
                            assert(in_stack(stack@, j as int));
                            assert(stack@.no_duplicates()) by {
                                assert forall|x: int, y: int|
                                    0 <= x < y < stack@.len() implies stack@[x] != stack@[y] by {
                                    if y == stack@.len() - 1 {
                                        assert(visited0[stack@[x] as int]);
                                    }
                                }
                            }
                            assert forall|a: int, b: int|
                                0 <= a < s.len() && 0 <= b < s.len() && a != i && visited@[a]
                                    && !in_stack(stack@, a) && #[trigger] s[b].deps@.contains(
                                    s[a].id,
                                ) implies visited@[b] by {
                                if a == j {
                                } else {
                                    assert(visited0[a]);
                                    assert(!in_stack(stack0, a)) by {
                                        if in_stack(stack0, a) {
                                            let k = choose|k: int|
                                                #![trigger stack0[k]]
                                                0 <= k < stack0.len() && stack0[k] as int == a;
                                            assert(stack@[k] == stack0[k]);
                                        }
                                    }
                                    assert(visited0[b]);
                                }
                            }
                        }
                    }
                }
                j = j + 1;
            }
            proof {
                lemma_count_true_le(visited@);
                assert(count_true(visited@) >= count0);
            }
        }
        proof {
            assert(stack@.len() == 0);
            let stf = self.statuses@;
            let v = Set::new(
                |id: u64| exists|a: int| 0 <= a < s.len() && visited@[a] && #[trigger] s[a].id == id,
            );
            assert(v.contains(root)) by {
                assert(visited@[root_idx as int] && s[root_idx as int].id == root);
            }
            assert forall|x: u64, y: u64| v.contains(x) && #[trigger] crate::model::edge(
                m0,
                x,
                y,
            ) implies v.contains(y) by {
                let a = choose|a: int| 0 <= a < s.len() && visited@[a] && #[trigger] s[a].id == x;
                assert(has_id(s, y));
                let b = idx_of(s, y);
                assert(0 <= b < s.len() && s[b].id == y);
                lemma_gm_index(s, st0, b);
                assert(m0[y].deps == s[b].deps@);
                assert(s[b].deps@.contains(s[a].id));
                assert(visited@[b]);
            }
            assert forall|id: u64|
                old(self)@.dom().contains(id) implies #[trigger] self@[id] == (NodeView {
                deps: old(self)@[id].deps,
                status: if reaches(old(self)@, root, id) {
                    NodeStatus::Failed
                } else {
                    old(self)@[id].status
                },
            }) by {
                assert(has_id(s, id));
                let a = idx_of(s, id);
                assert(0 <= a < s.len() && s[a].id == id);
                lemma_gm_index(s, st0, a);
                lemma_gm_index(s, stf, a);
                if reaches(m0, root, id) {
                    let p = choose|p: Seq<u64>|
                        crate::model::is_path(m0, p) && p.first() == root && p.last() == id;
                    lemma_reach_closed(m0, root, v, p);
                    assert(v.contains(id));
                    let a2 = choose|a2: int|
                        0 <= a2 < s.len() && visited@[a2] && #[trigger] s[a2].id == id;
                    assert(a2 == a) by {
                        if a2 != a {
                            if a2 < a {
                                assert(s[a2].id != s[a].id);
                            } else {
                                assert(s[a].id != s[a2].id);
                            }
                        }
                    }
                    assert(self.statuses@[a] == NodeStatus::Failed);
                } else {
                    assert(!visited@[a]) by {
                        if visited@[a] {
                            assert(reaches(m0, root, s[a].id));
                        }
                    }
                    assert(self.statuses@[a] == st0[a]);
                }
            }
            assert(self@.dom() =~= old(self)@.dom());
        }
    }

    /// True when every node is done or failed.
    pub fn is_resolved(&self) -> (r: bool)
        requires
            self.wf(),
        ensures
            r == resolved(self@),
    {
        let mut i: usize = 0;
        while i < self.statuses.len()
            invariant
                self.wf(),
                i <= self.statuses@.len(),
                forall|a: int|
                    0 <= a < i ==> (#[trigger] self.statuses@[a] == NodeStatus::Done
                        || self.statuses@[a] == NodeStatus::Failed),
            decreases self.statuses@.len() - i,
        {
            if !matches!(self.statuses[i], NodeStatus::Done | NodeStatus::Failed) {
                proof {
                    lemma_gm_index(self.nodes@, self.statuses@, i as int);
                }
                return false;
            }
            i = i + 1;
        }
        proof {
            assert forall|id: u64| #[trigger] self@.dom().contains(id) implies (self@[id].status
                == NodeStatus::Done || self@[id].status == NodeStatus::Failed) by {
                let a = idx_of(self.nodes@, id);
                assert(0 <= a < self.nodes@.len() && self.nodes@[a].id == id);
                lemma_gm_index(self.nodes@, self.statuses@, a);
            }
        }
        true
    }
}

} // verus!
