//! Per-change-set session: sequences one dependency graph to completion,
//! turning graph readiness into outbound "proceed" notifications and inbound
//! completion reports into status updates.

use vstd::prelude::*;

use crate::graph::{pairs_model, Graph, GraphError};
use crate::model::{
    acyclic, deps_closed, deps_done_inv, lemma_descendants_not_started,
    lemma_initial_ready_iff_no_deps, lemma_reaches_ignores_status, lemma_reaches_refl, ready,
    reaches, resolved, GraphModel, NodeStatus, NodeView,
};

verus! {

/// Lifecycle of a session.
#[derive(Clone, Copy, Debug, PartialEq, Eq, Structural)]
pub enum Phase {
    /// The graph is registered; notifications may flow.
    Open,
    /// Every node is resolved; the session awaits the client's goodbye.
    Draining,
    /// Terminal: the session is being torn down.
    Closed,
}

/// Notifications delivered on the client's private reply address.
#[derive(Clone, Copy, Debug, PartialEq, Eq, Structural)]
pub enum Response {
    /// The named node may be computed now.
    Proceed { node_id: u64 },
    /// Every node of the graph is done or failed.
    Complete,
}

/// Error of a completion or failure report that the session cannot accept.
#[derive(Clone, Copy, Debug, PartialEq, Eq, Structural)]
pub enum SessionError {
    /// The reported node was never dispatched, or was reported twice.
    ProtocolViolation,
}

/// View of a session: the change-set identifier, the graph model, and the
/// lifecycle phase.
pub ghost struct SessionView {
    pub change_set_id: u64,
    pub nodes: GraphModel,
    pub phase: Phase,
}

/// Statuses only move forward: pending to in-flight, in-flight to done or
/// failed (a pending node may also fail directly, by propagation).
pub open spec fn status_le(a: NodeStatus, b: NodeStatus) -> bool {
    ||| a == b
    ||| a == NodeStatus::Pending
    ||| (a == NodeStatus::InFlight && (b == NodeStatus::Done || b == NodeStatus::Failed))
}

/// Phases only move forward: open, draining, closed.
pub open spec fn phase_le(a: Phase, b: Phase) -> bool {
    ||| a == b
    ||| a == Phase::Open
    ||| (a == Phase::Draining && b == Phase::Closed)
}

/// What every session step guarantees, whatever the message was: the node
/// set and the edges never change, statuses and the phase only advance, a
/// "proceed" is emitted only when its node moves from pending to in flight
/// with every predecessor done, a "complete" is emitted only when the session
/// moves from open to draining, and no notification is emitted twice in one
/// step.
pub open spec fn session_advance(pre: SessionView, post: SessionView, out: Seq<Response>) -> bool {
    &&& post.change_set_id == pre.change_set_id
    &&& post.nodes.dom() == pre.nodes.dom()
    &&& forall|id: u64| #[trigger]
        pre.nodes.dom().contains(id) ==> post.nodes[id].deps == pre.nodes[id].deps
    &&& forall|id: u64| #[trigger]
        pre.nodes.dom().contains(id) ==> status_le(pre.nodes[id].status, post.nodes[id].status)
    &&& phase_le(pre.phase, post.phase)
    &&& forall|n: u64| #[trigger]
        out.contains(Response::Proceed { node_id: n }) ==> {
            &&& pre.nodes.dom().contains(n)
            &&& pre.nodes[n].status == NodeStatus::Pending
            &&& post.nodes[n].status == NodeStatus::InFlight
            &&& forall|j: int|
                0 <= j < post.nodes[n].deps.len() ==> post.nodes[#[trigger] post.nodes[n].deps[j]].status
                    == NodeStatus::Done
        }
    &&& (out.contains(Response::Complete) ==> pre.phase == Phase::Open && post.phase
        == Phase::Draining)
    &&& out.no_duplicates()
}

/// Internal consistency of a session view: dispatched or completed nodes had
/// all their predecessors done, edges stay inside the node set, and the phase
/// reflects resolution.
pub open spec fn session_inv(v: SessionView) -> bool {
    &&& deps_done_inv(v.nodes)
    &&& deps_closed(v.nodes)
    &&& (v.phase == Phase::Open ==> !resolved(v.nodes))
    &&& (v.phase == Phase::Draining ==> resolved(v.nodes))
}

/// What opening a session for change set cs from submission model pm
/// produces: every initially ready node (exactly the nodes with no
/// predecessors) is dispatched once, and an empty graph resolves at once.
pub open spec fn opened_step(cs: u64, pm: GraphModel, post: SessionView, out: Seq<Response>) -> bool {
    &&& post.change_set_id == cs
    &&& post.nodes.dom() == pm.dom()
    &&& forall|id: u64| #[trigger]
        pm.dom().contains(id) ==> post.nodes[id] == (NodeView {
            deps: pm[id].deps,
            status: if ready(pm, id) {
                NodeStatus::InFlight
            } else {
                NodeStatus::Pending
            },
        })
    &&& forall|n: u64| #[trigger] out.contains(Response::Proceed { node_id: n }) <==> ready(pm, n)
    &&& (out.contains(Response::Complete) <==> resolved(post.nodes))
    &&& post.phase == (if resolved(post.nodes) {
        Phase::Draining
    } else {
        Phase::Open
    })
    &&& out.no_duplicates()
}

/// What accepting a completion report for node_id does: the node becomes
/// done, exactly the direct successors that this made ready are dispatched,
/// and completion is reported exactly when the graph is thereby resolved.
pub open spec fn processed_step(
    pre: SessionView,
    post: SessionView,
    out: Seq<Response>,
    node_id: u64,
) -> bool {
    let pren = pre.nodes;
    let mid = pren.insert(node_id, NodeView { deps: pren[node_id].deps, status: NodeStatus::Done });
    &&& post.change_set_id == pre.change_set_id
    &&& post.nodes.dom() == pren.dom()
    &&& forall|id: u64| #[trigger]
        pren.dom().contains(id) ==> post.nodes[id] == (NodeView {
            deps: pren[id].deps,
            status: if id == node_id {
                NodeStatus::Done
            } else if ready(mid, id) && pren[id].deps.contains(node_id) {
                NodeStatus::InFlight
            } else {
                pren[id].status
            },
        })
    &&& forall|n: u64| #[trigger]
        out.contains(Response::Proceed { node_id: n }) <==> (ready(mid, n)
            && pren[n].deps.contains(node_id))
    &&& (out.contains(Response::Complete) <==> (resolved(post.nodes) && pre.phase == Phase::Open))
    &&& post.phase == (if resolved(post.nodes) && pre.phase == Phase::Open {
        Phase::Draining
    } else {
        pre.phase
    })
    &&& out.no_duplicates()
    &&& session_advance(pre, post, out)
}

/// What accepting a failure report for node_id does: the node and everything
/// reachable from it along dependency edges become failed, nothing is
/// dispatched, and completion is reported exactly when the graph is thereby
/// resolved.
pub open spec fn failed_step(
    pre: SessionView,
    post: SessionView,
    out: Seq<Response>,
    node_id: u64,
) -> bool {
    let pren = pre.nodes;
    &&& post.change_set_id == pre.change_set_id
    &&& post.nodes.dom() == pren.dom()
    &&& forall|id: u64| #[trigger]
        pren.dom().contains(id) ==> post.nodes[id] == (NodeView {
            deps: pren[id].deps,
            status: if reaches(pren, node_id, id) {
                NodeStatus::Failed
            } else {
                pren[id].status
            },
        })
    &&& forall|n: u64| !out.contains(Response::Proceed { node_id: n })
    &&& (out.contains(Response::Complete) <==> (resolved(post.nodes) && pre.phase == Phase::Open))
    &&& post.phase == (if resolved(post.nodes) && pre.phase == Phase::Open {
        Phase::Draining
    } else {
        pre.phase
    })
    &&& out.no_duplicates()
    &&& session_advance(pre, post, out)
}

/// The server-side lifetime of one change set's graph-resolution run.
pub struct Session {
    change_set_id: u64,
    graph: Graph,
    phase: Phase,
}

impl View for Session {
    type V = SessionView;

    closed spec fn view(&self) -> SessionView {
        SessionView { change_set_id: self.change_set_id, nodes: self.graph@, phase: self.phase }
    }
}

impl Session {
    /// The graph representation is well formed and the view satisfies the
    /// session invariant.
    pub closed spec fn wf(&self) -> bool {
        &&& self.graph.wf()
        &&& session_inv(self@)
    }

    /// Well-formedness implies the (public) view-level invariant.
    pub proof fn lemma_wf_inv(&self)
        requires
            self.wf(),
        ensures
            session_inv(self@),
    {
    }

    /// The change-set identifier this session serves.
    pub fn change_set_id(&self) -> (r: u64)
        ensures
            r == self@.change_set_id,
    {
        self.change_set_id
    }

    /// The current lifecycle phase.
    pub fn phase(&self) -> (r: Phase)
        ensures
            r == self@.phase,
    {
        self.phase
    }

    /// The status of one node, or None for an unknown identifier.
    pub fn node_status(&self, id: u64) -> (r: Option<NodeStatus>)
        requires
            self.wf(),
        ensures
            r == if self@.nodes.dom().contains(id) {
                Some(self@.nodes[id].status)
            } else {
                None::<NodeStatus>
            },
    {
        self.graph.status_of(id)
    }

    /// True when every node of the session's graph is done or failed.
    pub fn is_resolved(&self) -> (r: bool)
        requires
            self.wf(),
        ensures
            r == resolved(self@.nodes),
    {
        self.graph.is_resolved()
    }

    /// Opens a session for a change set: validates and registers the
    /// dependency graph, dispatches every initially ready node (exactly the
    /// nodes with no predecessors), and reports completion at once if the
    /// graph is empty. Fails, creating nothing, on an invalid submission.
    pub fn open(change_set_id: u64, dependency_graph: Vec<(u64, Vec<u64>)>) -> (r: Result<
        (Session, Vec<Response>),
        GraphError,
    >)
        ensures
            r is Ok <==> (deps_closed(pairs_model(dependency_graph@)) && acyclic(
                pairs_model(dependency_graph@),
            )),
            (match r {
                Ok((session, out)) => session.wf() && opened_step(
                    change_set_id,
                    pairs_model(dependency_graph@),
                    session@,
                    out@,
                ),
                Err(e) => {
                    let pm = pairs_model(dependency_graph@);
                    &&& (e == GraphError::UnknownDependency <==> !deps_closed(pm))
                    &&& (e == GraphError::CyclicGraph <==> (deps_closed(pm) && !acyclic(pm)))
                },
            }),
    {
        let ghost dg = dependency_graph@;
        let ghost pm = pairs_model(dependency_graph@);
        let mut graph = match Graph::register(dependency_graph) {
            Ok(g) => g,
            Err(e) => {
                return Err(e);
            },
        };
        proof {
            graph.lemma_wf_deps_closed();
            crate::graph::lemma_pairs_model_pending(dg);
            lemma_initial_ready_iff_no_deps(pm);
        }
        let ready_list = graph.ready_nodes();
        let mut out: Vec<Response> = Vec::new();
        let mut k: usize = 0;
        while k < ready_list.len()
            invariant
                graph.wf(),
                deps_closed(pm),
                k <= ready_list@.len(),
                graph@.dom() == pm.dom(),
                forall|id: u64| #[trigger]
                    pm.dom().contains(id) ==> graph@[id].deps == pm[id].deps,
                forall|id: u64| #[trigger]
                    pm.dom().contains(id) ==> graph@[id].status == (if ready_list@.take(
                        k as int,
                    ).contains(id) {
                        NodeStatus::InFlight
                    } else {
                        pm[id].status
                    }),
                forall|id: u64| #[trigger] pm.dom().contains(id) ==> pm[id].status
                    == NodeStatus::Pending,
                forall|n: u64| ready_list@.contains(n) <==> #[trigger] ready(pm, n),
                ready_list@.no_duplicates(),
                out@.len() == k,
                forall|x: int|
                    0 <= x < k ==> #[trigger] out@[x] == (Response::Proceed {
                        node_id: ready_list@[x],
                    }),
            decreases ready_list@.len() - k,
        {
            let n = ready_list[k];
            proof {
                lemma_initial_ready_iff_no_deps(pm);
                assert(ready_list@.contains(n)) by {
                    assert(ready_list@[k as int] == n);
                }
                assert(ready(pm, n));
                assert(!ready_list@.take(k as int).contains(n)) by {
                    if ready_list@.take(k as int).contains(n) {
                        let x = choose|x: int|
                            0 <= x < k && ready_list@.take(k as int)[x] == n;
                        assert(ready_list@[x] == ready_list@[k as int]);
                    }
                }
                assert(pm[n].deps.len() == 0);
                assert(ready(graph@, n));
            }
            let marked = graph.mark_in_flight(n);
            match marked {
                Ok(()) => {},
                Err(_) => {
                    proof {
                        assert(false);
                    }
                    return Err(GraphError::InvalidTransition);
                },
            }
            out.push(Response::Proceed { node_id: n });
            k = k + 1;
            proof {
                assert(ready_list@.take(k as int) =~= ready_list@.take(k as int - 1).push(n));
                assert forall|id: u64| #[trigger]
                    pm.dom().contains(id) implies graph@[id].status == (if ready_list@.take(
                    k as int,
                ).contains(id) {
                    NodeStatus::InFlight
                } else {
                    pm[id].status
                }) by {
                    let t = ready_list@.take(k as int);
                    let t0 = ready_list@.take(k as int - 1);
                    if t.contains(id) {
                        let x = choose|x: int| 0 <= x < t.len() && t[x] == id;
                        if x < t.len() - 1 {
                            assert(t0[x] == id);
                            assert(t0.contains(id));
                        }
                    } else {
                        if t0.contains(id) {
                            let x = choose|x: int| 0 <= x < t0.len() && t0[x] == id;
                            assert(t[x] == id);
                        }
                        if id == n {
                            assert(t[t.len() - 1] == n);
                        }
                    }
                }
            }
        }
        proof {
            assert(ready_list@.take(ready_list@.len() as int) =~= ready_list@);
        }
        let resolved_now = graph.is_resolved();
        let phase = if resolved_now {
            Phase::Draining
        } else {
            Phase::Open
        };
        if resolved_now {
            out.push(Response::Complete);
        }
        let ghost out_seq = out@;
        let ghost proceeds = ready_list@.len() as int;
        let session = Session { change_set_id, graph, phase };
        proof {
            assert forall|n: u64| #[trigger]
                out_seq.contains(Response::Proceed { node_id: n }) <==> ready(pm, n) by {
                if out_seq.contains(Response::Proceed { node_id: n }) {
                    let x = choose|x: int|
                        0 <= x < out_seq.len() && out_seq[x] == (Response::Proceed { node_id: n });
                    assert(x < proceeds);
                    assert(ready_list@[x] == n);
                    assert(ready_list@.contains(n));
                }
                if ready(pm, n) {
                    assert(ready_list@.contains(n));
                    let x = choose|x: int| 0 <= x < ready_list@.len() && ready_list@[x] == n;
                    assert(out_seq[x] == (Response::Proceed { node_id: n }));
                    assert(out_seq.contains(Response::Proceed { node_id: n }));
                }
            }
            assert(out_seq.contains(Response::Complete) <==> resolved(session@.nodes)) by {
                if resolved_now {
                    assert(out_seq[out_seq.len() - 1] == Response::Complete);
                } else {
                    if out_seq.contains(Response::Complete) {
                        let x = choose|x: int|
                            0 <= x < out_seq.len() && out_seq[x] == Response::Complete;
                        assert(x < proceeds);
                        assert(out_seq[x] == (Response::Proceed { node_id: ready_list@[x] }));
                    }
                }
            }
            assert(out_seq.no_duplicates()) by {
                assert forall|x: int, y: int|
                    0 <= x < y < out_seq.len() implies out_seq[x] != out_seq[y] by {
                    if y < proceeds {
                        assert(out_seq[x] == (Response::Proceed { node_id: ready_list@[x] }));
                        assert(out_seq[y] == (Response::Proceed { node_id: ready_list@[y] }));
                        assert(ready_list@[x] != ready_list@[y]);
                    } else {
                        assert(out_seq[x] == (Response::Proceed { node_id: ready_list@[x] }));
                        assert(out_seq[y] == Response::Complete);
                    }
                }
            }
            assert(session.wf()) by {
                assert(deps_done_inv(session@.nodes)) by {
                    assert forall|id: u64, j: int|
                        session@.nodes.dom().contains(id) && (session@.nodes[id].status
                            == NodeStatus::InFlight || session@.nodes[id].status
                            == NodeStatus::Done) && 0 <= j
                            < session@.nodes[id].deps.len() implies session@.nodes[#[trigger] session@.nodes[id].deps[j]].status
                        == NodeStatus::Done by {
                        assert(pm.dom().contains(id));
                        assert(ready(pm, id));
                        assert(pm[id].deps.len() == 0);
                    }
                }
            }
        }
        Ok((session, out))
    }

    /// Handles a client's report that a node's computation succeeded: the
    /// node must be in flight, else the report is a protocol violation and
    /// nothing changes. Marks the node done, dispatches every direct
    /// successor that this completion made ready, and reports completion
    /// when the whole graph is thereby resolved.
    pub fn processed_value(&mut self, node_id: u64) -> (r: Result<Vec<Response>, SessionError>)
        requires
            old(self).wf(),
        ensures
            final(self).wf(),
            r is Ok <==> (old(self)@.nodes.dom().contains(node_id) && old(
                self,
            )@.nodes[node_id].status == NodeStatus::InFlight),
            r is Err ==> final(self)@ == old(self)@ && r == Err::<Vec<Response>, SessionError>(
                SessionError::ProtocolViolation,
            ),
            (match r {
                Ok(out) => processed_step(old(self)@, final(self)@, out@, node_id),
                Err(_) => true,
            }),
    {
        match self.graph.status_of(node_id) {
            Some(NodeStatus::InFlight) => {},
            _ => {
                return Err(SessionError::ProtocolViolation);
            },
        }
        let ghost pre = self.graph@;
        let marked = self.graph.mark_done(node_id);
        match marked {
            Ok(()) => {},
            Err(_) => {
                proof {
                    assert(false);
                }
                return Err(SessionError::ProtocolViolation);
            },
        }
        let ghost mid = self.graph@;
        proof {
            self.graph.lemma_wf_deps_closed();
        }
        let succ = self.graph.ready_successors(node_id);
        let mut out: Vec<Response> = Vec::new();
        let mut k: usize = 0;
        while k < succ.len()
            invariant
                self.graph.wf(),
                self.change_set_id == old(self).change_set_id,
                self.phase == old(self).phase,
                deps_closed(mid),
                k <= succ@.len(),
                self.graph@.dom() == mid.dom(),
                mid.dom().contains(node_id),
                mid[node_id].status == NodeStatus::Done,
                forall|id: u64| #[trigger]
                    mid.dom().contains(id) ==> self.graph@[id].deps == mid[id].deps,
                forall|id: u64| #[trigger]
                    mid.dom().contains(id) ==> self.graph@[id].status == (if succ@.take(
                        k as int,
                    ).contains(id) {
                        NodeStatus::InFlight
                    } else {
                        mid[id].status
                    }),
                forall|n: u64|
                    succ@.contains(n) <==> (#[trigger] ready(mid, n) && mid[n].deps.contains(
                        node_id,
                    )),
                succ@.no_duplicates(),
                out@.len() == k,
                forall|x: int|
                    0 <= x < k ==> #[trigger] out@[x] == (Response::Proceed {
                        node_id: succ@[x],
                    }),
            decreases succ@.len() - k,
        {
            let n = succ[k];
            proof {
                assert(succ@.contains(n)) by {
                    assert(succ@[k as int] == n);
                }
                assert(ready(mid, n));
                assert(!succ@.take(k as int).contains(n)) by {
                    if succ@.take(k as int).contains(n) {
                        let x = choose|x: int| 0 <= x < k && succ@.take(k as int)[x] == n;
                        assert(succ@[x] == succ@[k as int]);
                    }
                }
                assert(self.graph@[n].status == NodeStatus::Pending);
                assert(ready(self.graph@, n)) by {
                    assert forall|j: int|
                        0 <= j < self.graph@[n].deps.len() implies self.graph@[#[trigger] self.graph@[n].deps[j]].status
                        == NodeStatus::Done by {
                        let d = mid[n].deps[j];
                        assert(mid[d].status == NodeStatus::Done);
                        assert(mid.dom().contains(d));
                        if succ@.take(k as int).contains(d) {
                            assert(succ@.contains(d)) by {
                                let x = choose|x: int|
                                    0 <= x < k && succ@.take(k as int)[x] == d;
                                assert(succ@[x] == d);
                            }
                            assert(ready(mid, d));
                        }
                    }
                }
            }
            let marked2 = self.graph.mark_in_flight(n);
            match marked2 {
                Ok(()) => {},
                Err(_) => {
                    proof {
                        assert(false);
                    }
                    return Err(SessionError::ProtocolViolation);
                },
            }
            out.push(Response::Proceed { node_id: n });
            k = k + 1;
            proof {
                assert(succ@.take(k as int) =~= succ@.take(k as int - 1).push(n));
                assert forall|id: u64| #[trigger]
                    mid.dom().contains(id) implies self.graph@[id].status == (if succ@.take(
                    k as int,
                ).contains(id) {
                    NodeStatus::InFlight
                } else {
                    mid[id].status
                }) by {
                    let t = succ@.take(k as int);
                    let t0 = succ@.take(k as int - 1);
                    if t.contains(id) {
                        let x = choose|x: int| 0 <= x < t.len() && t[x] == id;
                        if x < t.len() - 1 {
                            assert(t0[x] == id);
                            assert(t0.contains(id));
                        }
                    } else {
                        if t0.contains(id) {
                            let x = choose|x: int| 0 <= x < t0.len() && t0[x] == id;
                            assert(t[x] == id);
                        }
                        if id == n {
                            assert(t[t.len() - 1] == n);
                        }
                    }
                }
            }
        }
        proof {
            assert(succ@.take(succ@.len() as int) =~= succ@);
        }
        let resolved_now = self.graph.is_resolved();
        let was_open = self.phase == Phase::Open;
        if resolved_now && was_open {
            self.phase = Phase::Draining;
            out.push(Response::Complete);
        }
        let ghost out_seq = out@;
        let ghost proceeds = succ@.len() as int;
        proof {
            lemma_processed_out_iff(pre, mid, node_id, succ@, out_seq, proceeds);
            assert(out_seq.contains(Response::Complete) <==> (resolved(self@.nodes) && old(
                self,
            )@.phase == Phase::Open)) by {
                if resolved_now && was_open {
                    assert(out_seq[out_seq.len() - 1] == Response::Complete);
                } else {
                    if out_seq.contains(Response::Complete) {
                        let x = choose|x: int|
                            0 <= x < out_seq.len() && out_seq[x] == Response::Complete;
                        assert(x < proceeds);
                        assert(out_seq[x] == (Response::Proceed { node_id: succ@[x] }));
                    }
                }
            }
            assert(out_seq.no_duplicates()) by {
                assert forall|x: int, y: int|
                    0 <= x < y < out_seq.len() implies out_seq[x] != out_seq[y] by {
                    if y < proceeds {
                        assert(out_seq[x] == (Response::Proceed { node_id: succ@[x] }));
                        assert(out_seq[y] == (Response::Proceed { node_id: succ@[y] }));
                        assert(succ@[x] != succ@[y]);
                    } else {
                        assert(out_seq[x] == (Response::Proceed { node_id: succ@[x] }));
                        assert(out_seq[y] == Response::Complete);
                    }
                }
            }
            assert(mid.dom() =~= pre.dom());
            lemma_after_processed(pre, mid, self@.nodes, node_id);
            assert(self.wf()) by {
                assert(session_inv(self@)) by {
                    assert(deps_closed(self@.nodes));
                    assert(deps_done_inv(self@.nodes));
                    if self@.phase == Phase::Open {
                        assert(!resolved(self@.nodes));
                    }
                    if self@.phase == Phase::Draining {
                        if old(self)@.phase == Phase::Draining {
                            assert(resolved(pre));
                            assert(pre[node_id].status == NodeStatus::InFlight);
                        }
                    }
                }
            }
            assert(session_advance(old(self)@, self@, out_seq)) by {
                lemma_advance_processed(pre, mid, self@.nodes, node_id, out_seq, old(self)@, self@);
            }
        }
        Ok(out)
    }
}

impl Session {
    /// Handles a client's report that a node's computation failed: the node
    /// must be in flight, else the report is a protocol violation and nothing
    /// changes. Marks the node failed, propagates the failure to every node
    /// reachable from it along dependency edges (none of which is ever
    /// dispatched), and reports completion when the whole graph is thereby
    /// resolved.
    pub fn value_processing_failed(&mut self, node_id: u64) -> (r: Result<
        Vec<Response>,
        SessionError,
    >)
        requires
            old(self).wf(),
        ensures
            final(self).wf(),
            r is Ok <==> (old(self)@.nodes.dom().contains(node_id) && old(
                self,
            )@.nodes[node_id].status == NodeStatus::InFlight),
            r is Err ==> final(self)@ == old(self)@ && r == Err::<Vec<Response>, SessionError>(
                SessionError::ProtocolViolation,
            ),
            (match r {
                Ok(out) => failed_step(old(self)@, final(self)@, out@, node_id),
                Err(_) => true,
            }),
    {
        match self.graph.status_of(node_id) {
            Some(NodeStatus::InFlight) => {},
            _ => {
                return Err(SessionError::ProtocolViolation);
            },
        }
        let ghost pre = self.graph@;
        let marked = self.graph.mark_failed(node_id);
        match marked {
            Ok(()) => {},
            Err(_) => {
                proof {
                    assert(false);
                }
                return Err(SessionError::ProtocolViolation);
            },
        }
        let ghost mid = self.graph@;
        proof {
            assert(mid.dom() =~= pre.dom());
            lemma_reaches_ignores_status(pre, mid);
        }
        self.graph.fail_descendants(node_id);
        let ghost post = self.graph@;
        proof {
            lemma_reaches_refl(pre, node_id);
            lemma_descendants_not_started(pre, node_id);
            assert forall|id: u64| #[trigger]
                pre.dom().contains(id) implies post[id] == (NodeView {
                deps: pre[id].deps,
                status: if reaches(pre, node_id, id) {
                    NodeStatus::Failed
                } else {
                    pre[id].status
                },
            }) by {
                assert(mid.dom().contains(id));
                assert(post[id] == (NodeView {
                    deps: mid[id].deps,
                    status: if reaches(mid, node_id, id) {
                        NodeStatus::Failed
                    } else {
                        mid[id].status
                    },
                }));
                assert(reaches(mid, node_id, id) == reaches(pre, node_id, id));
                if id != node_id {
                    assert(mid[id] == pre[id]);
                } else {
                    assert(reaches(pre, node_id, id));
                    assert(mid[id].deps == pre[id].deps);
                }
            }
        }
        let mut out: Vec<Response> = Vec::new();
        let resolved_now = self.graph.is_resolved();
        let was_open = self.phase == Phase::Open;
        if resolved_now && was_open {
            self.phase = Phase::Draining;
            out.push(Response::Complete);
        }
        let ghost out_seq = out@;
        proof {
            assert(out_seq.no_duplicates());
            assert forall|n: u64| !out_seq.contains(Response::Proceed { node_id: n }) by {
                if out_seq.contains(Response::Proceed { node_id: n }) {
                    let x = choose|x: int|
                        0 <= x < out_seq.len() && out_seq[x] == (Response::Proceed { node_id: n });
                    assert(out_seq[x] == Response::Complete);
                }
            }
            assert(deps_done_inv(post)) by {
                assert forall|id: u64, j: int|
                    post.dom().contains(id) && (post[id].status == NodeStatus::InFlight
                        || post[id].status == NodeStatus::Done) && 0 <= j
                        < post[id].deps.len() implies post[#[trigger] post[id].deps[j]].status
                    == NodeStatus::Done by {
                    assert(pre.dom().contains(id));
                    assert(!reaches(pre, node_id, id));
                    assert(post[id].status == pre[id].status);
                    assert(post[id].deps == pre[id].deps);
                    let d = pre[id].deps[j];
                    assert(pre.dom().contains(d));
                    assert(pre[d].status == NodeStatus::Done);
                    assert(!reaches(pre, node_id, d)) by {
                        if reaches(pre, node_id, d) {
                            if d == node_id {
                                assert(pre[d].status == NodeStatus::InFlight);
                            } else {
                                assert(pre[d].status == NodeStatus::Pending || pre[d].status
                                    == NodeStatus::Failed);
                            }
                        }
                    }
                    assert(post[d].status == NodeStatus::Done);
                }
            }
            assert(deps_closed(post)) by {
                assert forall|id: u64, k: int|
                    post.dom().contains(id) && 0 <= k < post[id].deps.len() implies post.dom().contains(
                    #[trigger] post[id].deps[k],
                ) by {
                    assert(pre.dom().contains(id));
                    assert(post[id].deps == pre[id].deps);
                    assert(pre.dom().contains(pre[id].deps[k]));
                }
            }
            assert(self.wf()) by {
                if self@.phase == Phase::Draining {
                    if old(self)@.phase == Phase::Draining {
                        assert(resolved(pre));
                        assert(pre[node_id].status == NodeStatus::InFlight);
                    }
                }
            }
            assert(session_advance(old(self)@, self@, out_seq)) by {
                assert forall|id: u64| #[trigger]
                    pre.dom().contains(id) implies status_le(pre[id].status, post[id].status) by {
                    if reaches(pre, node_id, id) && id != node_id {
                        assert(pre[id].status == NodeStatus::Pending || pre[id].status
                            == NodeStatus::Failed);
                    }
                }
                assert forall|n: u64| #[trigger]
                    out_seq.contains(Response::Proceed { node_id: n }) implies false by {
                    assert(!out_seq.contains(Response::Proceed { node_id: n }));
                }
            }
            assert(self@.change_set_id == old(self)@.change_set_id);
            assert(self@.nodes.dom() == pre.dom());
            assert(out_seq.contains(Response::Complete) <==> (resolved(self@.nodes) && old(
                self,
            )@.phase == Phase::Open)) by {
                if resolved_now && was_open {
                    assert(out_seq[0] == Response::Complete);
                    assert(out_seq.contains(Response::Complete));
                } else {
                    if out_seq.contains(Response::Complete) {
                        let x = choose|x: int|
                            0 <= x < out_seq.len() && out_seq[x] == Response::Complete;
                    }
                }
            }
            assert(self@.phase == (if resolved(self@.nodes) && old(self)@.phase == Phase::Open {
                Phase::Draining
            } else {
                old(self)@.phase
            }));
        }
        Ok(out)
    }

    /// Ends the session: the graph is released and the session is terminal.
    /// Valid from any phase; abrupt client-initiated teardown is not an
    /// error.
    pub fn close(&mut self)
        requires
            old(self).wf(),
        ensures
            final(self).wf(),
            final(self)@.change_set_id == old(self)@.change_set_id,
            final(self)@.nodes == old(self)@.nodes,
            final(self)@.phase == Phase::Closed,
            session_advance(old(self)@, final(self)@, Seq::<Response>::empty()),
    {
        self.phase = Phase::Closed;
        proof {
            assert forall|n: u64| !Seq::<Response>::empty().contains(
                Response::Proceed { node_id: n },
            ) by {
                if Seq::<Response>::empty().contains(Response::Proceed { node_id: n }) {
                    let x = choose|x: int|
                        0 <= x < Seq::<Response>::empty().len() && Seq::<Response>::empty()[x]
                            == (Response::Proceed { node_id: n });
                }
            }
        }
    }
}

/// How many entries of out equal r.
pub open spec fn count_matches(out: Seq<Response>, r: Response) -> int
    decreases out.len(),
{
    if out.len() == 0 {
        0
    } else {
        count_matches(out.drop_last(), r) + if out.last() == r {
            1int
        } else {
            0int
        }
    }
}

proof fn lemma_count_matches_zero(out: Seq<Response>, r: Response)
    ensures
        count_matches(out, r) >= 0,
        (count_matches(out, r) == 0) <==> !out.contains(r),
    decreases out.len(),
{
    if out.len() > 0 {
        lemma_count_matches_zero(out.drop_last(), r);
        if out.contains(r) && out.last() != r {
            let x = choose|x: int| 0 <= x < out.len() && out[x] == r;
            assert(out.drop_last()[x] == r);
        }
        if out.drop_last().contains(r) {
            let x = choose|x: int| 0 <= x < out.drop_last().len() && out.drop_last()[x] == r;
            assert(out[x] == r);
        }
    }
}

proof fn lemma_count_matches_nodup(out: Seq<Response>, r: Response)
    requires
        out.no_duplicates(),
    ensures
        count_matches(out, r) <= 1,
    decreases out.len(),
{
    if out.len() > 0 {
        let rest = out.drop_last();
        assert(rest.no_duplicates()) by {
            assert forall|x: int, y: int| 0 <= x < y < rest.len() implies rest[x] != rest[y] by {
                assert(out[x] != out[y]);
            }
        }
        lemma_count_matches_nodup(rest, r);
        if out.last() == r {
            assert(!rest.contains(r)) by {
                if rest.contains(r) {
                    let x = choose|x: int| 0 <= x < rest.len() && rest[x] == r;
                    assert(out[x] == out[out.len() - 1]);
                }
            }
            lemma_count_matches_zero(rest, r);
        }
    }
}

/// A sequence of observed session states with the notification batch that
/// each step emitted: every consecutive pair is related by one step.
pub open spec fn is_trace(states: Seq<SessionView>, outs: Seq<Seq<Response>>) -> bool {
    &&& states.len() == outs.len() + 1
    &&& forall|i: int|
        0 <= i < outs.len() ==> session_advance(states[i], states[i + 1], #[trigger] outs[i])
}

/// How many notifications equal to r were emitted over a whole trace.
pub open spec fn total_matches(outs: Seq<Seq<Response>>, r: Response) -> int
    decreases outs.len(),
{
    if outs.len() == 0 {
        0
    } else {
        count_matches(outs.first(), r) + total_matches(outs.drop_first(), r)
    }
}

proof fn lemma_trace_shift(states: Seq<SessionView>, outs: Seq<Seq<Response>>)
    requires
        is_trace(states, outs),
        outs.len() > 0,
    ensures
        is_trace(states.drop_first(), outs.drop_first()),
{
    assert forall|i: int|
        0 <= i < outs.drop_first().len() implies session_advance(
        states.drop_first()[i],
        states.drop_first()[i + 1],
        #[trigger] outs.drop_first()[i],
    ) by {
        assert(outs.drop_first()[i] == outs[i + 1]);
        assert(states.drop_first()[i] == states[i + 1]);
        assert(states.drop_first()[i + 1] == states[i + 2]);
        assert(session_advance(states[i + 1], states[i + 2], outs[i + 1]));
    }
}

/// A node that is not pending at the start of a trace is never signaled in
/// that trace. In particular a failed node is never signaled.
pub proof fn lemma_never_signaled_unless_pending(
    states: Seq<SessionView>,
    outs: Seq<Seq<Response>>,
    n: u64,
)
    requires
        is_trace(states, outs),
        !(states[0].nodes.dom().contains(n) && states[0].nodes[n].status == NodeStatus::Pending),
    ensures
        total_matches(outs, Response::Proceed { node_id: n }) == 0,
    decreases outs.len(),
{
    if outs.len() > 0 {
        assert(session_advance(states[0], states[1], outs[0]));
        lemma_count_matches_zero(outs[0], Response::Proceed { node_id: n });
        assert(!outs[0].contains(Response::Proceed { node_id: n }));
        lemma_trace_shift(states, outs);
        assert(states.drop_first()[0] == states[1]);
        assert(!(states[1].nodes.dom().contains(n) && states[1].nodes[n].status
            == NodeStatus::Pending)) by {
            if states[1].nodes.dom().contains(n) {
                assert(states[0].nodes.dom().contains(n));
                assert(status_le(states[0].nodes[n].status, states[1].nodes[n].status));
            }
        }
        lemma_never_signaled_unless_pending(states.drop_first(), outs.drop_first(), n);
        assert(outs.first() == outs[0]);
    }
}

/// Over any trace of one session, each node is signaled at most once: no
/// duplicate "proceed" notification is ever emitted for a node.
pub proof fn lemma_signaled_at_most_once(
    states: Seq<SessionView>,
    outs: Seq<Seq<Response>>,
    n: u64,
)
    requires
        is_trace(states, outs),
    ensures
        total_matches(outs, Response::Proceed { node_id: n }) <= 1,
    decreases outs.len(),
{
    let r = Response::Proceed { node_id: n };
    if outs.len() > 0 {
        assert(session_advance(states[0], states[1], outs[0]));
        lemma_count_matches_zero(outs[0], r);
        lemma_count_matches_nodup(outs[0], r);
        lemma_trace_shift(states, outs);
        assert(states.drop_first()[0] == states[1]);
        if outs[0].contains(r) {
            assert(states[1].nodes[n].status == NodeStatus::InFlight);
            assert(states[1].nodes.dom().contains(n) ==> states[1].nodes[n].status
                != NodeStatus::Pending);
            lemma_never_signaled_unless_pending(states.drop_first(), outs.drop_first(), n);
        } else {
            lemma_signaled_at_most_once(states.drop_first(), outs.drop_first(), n);
        }
        assert(outs.first() == outs[0]);
    }
}

/// A session that has left the open phase never reports completion.
proof fn lemma_no_complete_once_left_open(states: Seq<SessionView>, outs: Seq<Seq<Response>>)
    requires
        is_trace(states, outs),
        states[0].phase != Phase::Open,
    ensures
        total_matches(outs, Response::Complete) == 0,
    decreases outs.len(),
{
    if outs.len() > 0 {
        assert(session_advance(states[0], states[1], outs[0]));
        lemma_count_matches_zero(outs[0], Response::Complete);
        assert(!outs[0].contains(Response::Complete));
        lemma_trace_shift(states, outs);
        assert(states.drop_first()[0] == states[1]);
        assert(states[1].phase != Phase::Open) by {
            assert(phase_le(states[0].phase, states[1].phase));
        }
        lemma_no_complete_once_left_open(states.drop_first(), outs.drop_first());
        assert(outs.first() == outs[0]);
    }
}

/// Over any trace of one session, the "session complete" notification is
/// emitted at most once.
pub proof fn lemma_complete_at_most_once(states: Seq<SessionView>, outs: Seq<Seq<Response>>)
    requires
        is_trace(states, outs),
    ensures
        total_matches(outs, Response::Complete) <= 1,
    decreases outs.len(),
{
    let r = Response::Complete;
    if outs.len() > 0 {
        assert(session_advance(states[0], states[1], outs[0]));
        lemma_count_matches_zero(outs[0], r);
        lemma_count_matches_nodup(outs[0], r);
        lemma_trace_shift(states, outs);
        assert(states.drop_first()[0] == states[1]);
        if outs[0].contains(r) {
            assert(states[1].phase == Phase::Draining);
            lemma_no_complete_once_left_open(states.drop_first(), outs.drop_first());
        } else {
            lemma_complete_at_most_once(states.drop_first(), outs.drop_first());
        }
        assert(outs.first() == outs[0]);
    }
}

/// When a node is signaled, every one of its predecessors is done in the
/// state the step leaves behind.
pub proof fn lemma_predecessors_done_when_signaled(
    pre: SessionView,
    post: SessionView,
    out: Seq<Response>,
    n: u64,
    d: u64,
)
    requires
        session_advance(pre, post, out),
        out.contains(Response::Proceed { node_id: n }),
        pre.nodes[n].deps.contains(d),
    ensures
        post.nodes[d].status == NodeStatus::Done,
{
    assert(pre.nodes.dom().contains(n));
    assert(post.nodes[n].deps == pre.nodes[n].deps);
    let j = choose|j: int| 0 <= j < pre.nodes[n].deps.len() && pre.nodes[n].deps[j] == d;
    assert(post.nodes[post.nodes[n].deps[j]].status == NodeStatus::Done);
}

/// Once a node is done it stays done for the rest of the trace.
pub proof fn lemma_done_stays(states: Seq<SessionView>, outs: Seq<Seq<Response>>, d: u64)
    requires
        is_trace(states, outs),
        states[0].nodes.dom().contains(d),
        states[0].nodes[d].status == NodeStatus::Done,
    ensures
        forall|k: int|
            0 <= k < states.len() ==> #[trigger] states[k].nodes[d].status == NodeStatus::Done,
    decreases outs.len(),
{
    if outs.len() > 0 {
        assert(session_advance(states[0], states[1], outs[0]));
        assert(status_le(states[0].nodes[d].status, states[1].nodes[d].status));
        lemma_trace_shift(states, outs);
        assert(states.drop_first()[0] == states[1]);
        assert(states[1].nodes.dom().contains(d));
        lemma_done_stays(states.drop_first(), outs.drop_first(), d);
        assert forall|k: int|
            0 <= k < states.len() implies #[trigger] states[k].nodes[d].status
            == NodeStatus::Done by {
            if k >= 1 {
                assert(states.drop_first()[k - 1] == states[k]);
                assert(states.drop_first()[k - 1].nodes[d].status == NodeStatus::Done);
            }
        }
    }
}

proof fn lemma_processed_out_iff(
    pre: GraphModel,
    mid: GraphModel,
    node_id: u64,
    succ: Seq<u64>,
    out: Seq<Response>,
    proceeds: int,
)
    requires
        pre.dom().contains(node_id),
        pre[node_id].status == NodeStatus::InFlight,
        mid == pre.insert(
            node_id,
            NodeView { deps: pre[node_id].deps, status: NodeStatus::Done },
        ),
        forall|n: u64|
            #![trigger succ.contains(n)]
            #![trigger ready(mid, n)]
            succ.contains(n) <==> (ready(mid, n) && mid[n].deps.contains(node_id)),
        proceeds == succ.len(),
        out.len() == proceeds || out.len() == proceeds + 1,
        forall|x: int|
            0 <= x < proceeds ==> #[trigger] out[x] == (Response::Proceed { node_id: succ[x] }),
        out.len() == proceeds + 1 ==> out[proceeds] == Response::Complete,
    ensures
        forall|n: u64| #[trigger]
            out.contains(Response::Proceed { node_id: n }) <==> (ready(mid, n)
                && pre[n].deps.contains(node_id)),
{
    assert forall|n: u64| #[trigger]
        out.contains(Response::Proceed { node_id: n }) implies (ready(mid, n)
        && pre[n].deps.contains(node_id)) by {
        let x = choose|x: int|
            0 <= x < out.len() && out[x] == (Response::Proceed { node_id: n });
        assert(x < proceeds);
        assert(out[x] == (Response::Proceed { node_id: succ[x] }));
        assert(succ[x] == n);
        assert(succ.contains(n));
        assert(ready(mid, n) && mid[n].deps.contains(node_id));
        assert(n != node_id) by {
            if n == node_id {
                assert(mid[node_id].status == NodeStatus::Done);
                assert(mid[n].status == NodeStatus::Pending);
            }
        }
        assert(mid[n] == pre[n]);
    }
    assert forall|n: u64|
        ready(mid, n) && pre[n].deps.contains(node_id) implies #[trigger] out.contains(
        Response::Proceed { node_id: n },
    ) by {
        assert(n != node_id) by {
            if n == node_id {
                assert(mid[node_id].status == NodeStatus::Done);
                assert(mid[n].status == NodeStatus::Pending);
            }
        }
        assert(mid[n] == pre[n]);
        assert(mid[n].deps.contains(node_id));
        assert(succ.contains(n));
        let x = choose|x: int| 0 <= x < succ.len() && succ[x] == n;
        assert(out[x] == (Response::Proceed { node_id: n }));
        assert(out.contains(Response::Proceed { node_id: n }));
    }
}

/// After a completion report: statuses relate to the prior model as the
/// handler's contract states, and the invariant predicates carry over.
proof fn lemma_after_processed(pre: GraphModel, mid: GraphModel, post: GraphModel, node_id: u64)
    requires
        pre.dom().contains(node_id),
        pre[node_id].status == NodeStatus::InFlight,
        deps_done_inv(pre),
        deps_closed(pre),
        mid == pre.insert(
            node_id,
            NodeView { deps: pre[node_id].deps, status: NodeStatus::Done },
        ),
        post.dom() == mid.dom(),
        forall|id: u64| #[trigger] mid.dom().contains(id) ==> post[id].deps == mid[id].deps,
        forall|id: u64| #[trigger]
            mid.dom().contains(id) ==> post[id].status == (if ready(mid, id)
                && mid[id].deps.contains(node_id) {
                NodeStatus::InFlight
            } else {
                mid[id].status
            }),
    ensures
        deps_closed(post),
        deps_done_inv(post),
        forall|id: u64| #[trigger]
            pre.dom().contains(id) ==> post[id] == (NodeView {
                deps: pre[id].deps,
                status: if id == node_id {
                    NodeStatus::Done
                } else if ready(mid, id) && pre[id].deps.contains(node_id) {
                    NodeStatus::InFlight
                } else {
                    pre[id].status
                },
            }),
{
    assert forall|id: u64| #[trigger]
        pre.dom().contains(id) implies post[id] == (NodeView {
        deps: pre[id].deps,
        status: if id == node_id {
            NodeStatus::Done
        } else if ready(mid, id) && pre[id].deps.contains(node_id) {
            NodeStatus::InFlight
        } else {
            pre[id].status
        },
    }) by {
        assert(mid.dom().contains(id));
        if id == node_id {
            assert(mid[id].status == NodeStatus::Done);
            if ready(mid, id) {
                assert(mid[id].status == NodeStatus::Pending);
            }
            assert(mid[id].deps == pre[node_id].deps);
        } else {
            assert(mid[id] == pre[id]);
        }
    }
    assert forall|id: u64, k: int|
        post.dom().contains(id) && 0 <= k < post[id].deps.len() implies post.dom().contains(
        #[trigger] post[id].deps[k],
    ) by {
        assert(pre.dom().contains(id));
        assert(post[id].deps == pre[id].deps);
    }
    assert forall|id: u64, j: int|
        post.dom().contains(id) && (post[id].status == NodeStatus::InFlight || post[id].status
            == NodeStatus::Done) && 0 <= j < post[id].deps.len() implies post[#[trigger] post[id].deps[j]].status
        == NodeStatus::Done by {
        let d = post[id].deps[j];
        assert(pre.dom().contains(id));
        assert(mid.dom().contains(id));
        assert(post[id].deps == pre[id].deps);
        assert(pre.dom().contains(d));
        assert(mid.dom().contains(d));
        if d != node_id {
            assert(mid[d] == pre[d]);
        }
        if id != node_id {
            assert(mid[id] == pre[id]);
        }
        if id == node_id {
            assert(pre[d].status == NodeStatus::Done);
            assert(d != node_id);
            if ready(mid, d) {
                assert(mid[d].status == NodeStatus::Pending);
            }
        } else if ready(mid, id) && pre[id].deps.contains(node_id) {
            assert(mid[d].status == NodeStatus::Done);
            assert(d != node_id || mid[d].status == NodeStatus::Done);
            if d != node_id {
                assert(pre[d].status == NodeStatus::Done);
            }
            if ready(mid, d) {
                assert(mid[d].status == NodeStatus::Pending);
            }
        } else {
            assert(pre[id].status == post[id].status);
            assert(pre[d].status == NodeStatus::Done);
            if d == node_id {
                assert(pre[node_id].status == NodeStatus::InFlight);
            }
            if ready(mid, d) {
                assert(mid[d].status == NodeStatus::Pending);
                assert(d != node_id);
            }
        }
    }
}

/// A completion step satisfies the session-advance relation.
proof fn lemma_advance_processed(
    pre: GraphModel,
    mid: GraphModel,
    post: GraphModel,
    node_id: u64,
    out: Seq<Response>,
    v0: SessionView,
    v1: SessionView,
)
    requires
        v0.nodes == pre,
        v1.nodes == post,
        v1.change_set_id == v0.change_set_id,
        pre.dom().contains(node_id),
        pre[node_id].status == NodeStatus::InFlight,
        deps_done_inv(pre),
        deps_closed(pre),
        mid == pre.insert(
            node_id,
            NodeView { deps: pre[node_id].deps, status: NodeStatus::Done },
        ),
        post.dom() == pre.dom(),
        forall|id: u64| #[trigger]
            pre.dom().contains(id) ==> post[id] == (NodeView {
                deps: pre[id].deps,
                status: if id == node_id {
                    NodeStatus::Done
                } else if ready(mid, id) && pre[id].deps.contains(node_id) {
                    NodeStatus::InFlight
                } else {
                    pre[id].status
                },
            }),
        deps_done_inv(post),
        forall|n: u64| #[trigger]
            out.contains(Response::Proceed { node_id: n }) <==> (ready(mid, n)
                && pre[n].deps.contains(node_id)),
        (out.contains(Response::Complete) ==> v0.phase == Phase::Open && v1.phase
            == Phase::Draining),
        phase_le(v0.phase, v1.phase),
        out.no_duplicates(),
    ensures
        session_advance(v0, v1, out),
{
    assert forall|id: u64| #[trigger]
        pre.dom().contains(id) implies status_le(pre[id].status, post[id].status) by {
        assert(mid.dom().contains(id));
        if id != node_id {
            assert(mid[id] == pre[id]);
        }
        if id != node_id && ready(mid, id) && pre[id].deps.contains(node_id) {
            assert(mid[id].status == NodeStatus::Pending);
            assert(pre[id].status == NodeStatus::Pending);
        }
    }
    assert forall|n: u64| #[trigger]
        out.contains(Response::Proceed { node_id: n }) implies {
        &&& pre.dom().contains(n)
        &&& pre[n].status == NodeStatus::Pending
        &&& post[n].status == NodeStatus::InFlight
        &&& forall|j: int|
            0 <= j < post[n].deps.len() ==> post[#[trigger] post[n].deps[j]].status
                == NodeStatus::Done
    } by {
        assert(ready(mid, n) && pre[n].deps.contains(node_id));
        assert(mid.dom().contains(n));
        assert(n != node_id) by {
            if n == node_id {
                assert(mid[n].status == NodeStatus::Done);
                assert(mid[n].status == NodeStatus::Pending);
            }
        }
        assert(mid[n] == pre[n]);
        assert(mid[n].status == NodeStatus::Pending);
        assert(pre[n].status == NodeStatus::Pending);
        assert(post[n].status == NodeStatus::InFlight);
        assert forall|j: int|
            0 <= j < post[n].deps.len() implies post[#[trigger] post[n].deps[j]].status
            == NodeStatus::Done by {
            let d = post[n].deps[j];
            assert(post[n].deps == pre[n].deps);
            assert(mid[n].deps == pre[n].deps);
            assert(mid[mid[n].deps[j]].status == NodeStatus::Done);
            assert(pre.dom().contains(d));
            assert(mid.dom().contains(d));
            if d == node_id {
                assert(post[d].status == NodeStatus::Done);
            } else {
                assert(mid[d] == pre[d]);
                assert(pre[d].status == NodeStatus::Done);
                if ready(mid, d) {
                    assert(mid[d].status == NodeStatus::Pending);
                }
                assert(post[d].status == NodeStatus::Done);
            }
        }
    }
}

} // verus!
