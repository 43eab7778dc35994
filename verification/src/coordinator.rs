//! Top-level coordinator: a registry of active sessions keyed by change-set
//! identifier, and request dispatch.

use vstd::prelude::*;

use crate::graph::{pairs_model, GraphError};
use crate::model::acyclic;
use crate::model::deps_closed;
use crate::session::{
    failed_step, opened_step, processed_step, Phase, Response, Session, SessionError, SessionView,
};
use crate::model::NodeStatus;

verus! {

/// Inbound client requests, keyed by change-set identifier.
#[derive(Debug, Clone)]
pub enum Request {
    /// Register (or replace) the dependency graph of a change set.
    ValueDependencyGraph { change_set_id: u64, dependency_graph: Vec<(u64, Vec<u64>)> },
    /// A dispatched node's computation succeeded.
    ProcessedValue { change_set_id: u64, node_id: u64 },
    /// A dispatched node's computation failed.
    ValueProcessingFailed { change_set_id: u64, node_id: u64 },
    /// The client is done with the change set; tear the session down.
    Bye { change_set_id: u64 },
}

/// Errors the coordinator reports back on the client's reply address.
#[derive(Clone, Copy, Debug, PartialEq, Eq, Structural)]
pub enum HandleError {
    /// The submitted dependency graph has no topological ordering.
    CyclicGraph,
    /// A submitted edge references an identifier outside the node set.
    UnknownDependency,
    /// A report that the session cannot accept in its current state.
    ProtocolViolation,
    /// No session exists for the request's change-set identifier.
    UnknownSession,
}

pub(crate) open spec fn keys_distinct(s: Seq<(u64, Session)>) -> bool {
    forall|i: int, j: int| 0 <= i < j < s.len() ==> #[trigger] s[i].0 != #[trigger] s[j].0
}

pub(crate) open spec fn has_key(s: Seq<(u64, Session)>, k: u64) -> bool {
    exists|i: int| 0 <= i < s.len() && #[trigger] s[i].0 == k
}

pub(crate) open spec fn key_idx(s: Seq<(u64, Session)>, k: u64) -> int {
    choose|i: int| 0 <= i < s.len() && #[trigger] s[i].0 == k
}

pub(crate) open spec fn rm(s: Seq<(u64, Session)>) -> Map<u64, SessionView> {
    Map::new(|k: u64| has_key(s, k), |k: u64| s[key_idx(s, k)].1@)
}

/// The registry entry at index a holds a well-formed session, registered
/// under its own change-set identifier, and not closed.
pub(crate) open spec fn entry_ok(s: Seq<(u64, Session)>, a: int) -> bool {
    &&& s[a].1.wf()
    &&& s[a].1@.change_set_id == s[a].0
    &&& s[a].1@.phase != Phase::Closed
}

pub(crate) proof fn lemma_rm_index(s: Seq<(u64, Session)>, i: int)
    requires
        keys_distinct(s),
        0 <= i < s.len(),
    ensures
        rm(s).dom().contains(s[i].0),
        rm(s)[s[i].0] == s[i].1@,
        key_idx(s, s[i].0) == i,
{
    assert(has_key(s, s[i].0));
    let k = key_idx(s, s[i].0);
    assert(0 <= k < s.len() && s[k].0 == s[i].0);
    if k != i {
        assert(s[k].0 != s[i].0);
    }
}

/// Removing the entry at index i by a swap with the last entry removes
/// exactly that key from the registry view.
pub(crate) proof fn lemma_rm_swap_remove(s: Seq<(u64, Session)>, i: int)
    requires
        keys_distinct(s),
        0 <= i < s.len(),
    ensures
        keys_distinct(s.update(i, s.last()).drop_last()),
        rm(s.update(i, s.last()).drop_last()) == rm(s).remove(s[i].0),
        forall|a: int|
            0 <= a < s.update(i, s.last()).drop_last().len() ==> #[trigger] s.update(
                i,
                s.last(),
            ).drop_last()[a] == (if a == i {
                s[s.len() - 1]
            } else {
                s[a]
            }),
{
    let t = s.update(i, s.last()).drop_last();
    assert forall|a: int| 0 <= a < t.len() implies #[trigger] t[a] == (if a == i {
        s[s.len() - 1]
    } else {
        s[a]
    }) by {
        if a == i {
            assert(t[a] == s[s.len() - 1]);
            assert(i != s.len() - 1);
        } else {
            assert(t[a] == s[a]);
        }
    }
    assert forall|a: int, b: int| 0 <= a < b < t.len() implies #[trigger] t[a].0
        != #[trigger] t[b].0 by {
        let a2: int = if a == i {
            s.len() - 1
        } else {
            a
        };
        let b2: int = if b == i {
            s.len() - 1
        } else {
            b
        };
        assert(t[a] == s[a2]);
        assert(t[b] == s[b2]);
        assert(a2 != b2);
        if a2 < b2 {
            assert(s[a2].0 != s[b2].0);
        } else {
            assert(s[b2].0 != s[a2].0);
        }
    }
    let k0 = s[i].0;
    assert forall|k: u64| has_key(t, k) == (has_key(s, k) && k != k0) by {
        if has_key(t, k) {
            let a = choose|a: int| 0 <= a < t.len() && #[trigger] t[a].0 == k;
            let b: int = if a == i {
                s.len() - 1
            } else {
                a
            };
            assert(t[a] == s[b]);
            assert(b != i);
            assert(s[b].0 == k);
            assert(k != k0) by {
                if b < i {
                    assert(s[b].0 != s[i].0);
                } else {
                    assert(s[i].0 != s[b].0);
                }
            }
        }
        if has_key(s, k) && k != k0 {
            let b = choose|b: int| 0 <= b < s.len() && #[trigger] s[b].0 == k;
            assert(b != i);
            if b == s.len() - 1 {
                assert(i < s.len() - 1);
                assert(t[i] == s[b]);
            } else {
                assert(t[b] == s[b]);
            }
        }
    }
    assert forall|k: u64| #[trigger] rm(t).dom().contains(k) implies (rm(t)[k] == rm(s).remove(
        k0,
    )[k] && rm(s).remove(k0).dom().contains(k)) by {
        let a = key_idx(t, k);
        assert(0 <= a < t.len() && t[a].0 == k);
        lemma_rm_index(t, a);
        let b: int = if a == i {
            s.len() - 1
        } else {
            a
        };
        assert(t[a] == s[b]);
        lemma_rm_index(s, b);
        assert(rm(t)[k] == t[a].1@);
        assert(rm(s)[k] == s[b].1@);
    }
    assert(rm(t) =~= rm(s).remove(k0));
}

/// Appending an entry with a fresh key inserts it into the registry view.
pub(crate) proof fn lemma_rm_push(s: Seq<(u64, Session)>, p: (u64, Session))
    requires
        keys_distinct(s),
        !has_key(s, p.0),
    ensures
        keys_distinct(s.push(p)),
        rm(s.push(p)) == rm(s).insert(p.0, p.1@),
{
    let t = s.push(p);
    assert forall|a: int, b: int| 0 <= a < b < t.len() implies #[trigger] t[a].0
        != #[trigger] t[b].0 by {
        if b < s.len() {
            assert(s[a].0 != s[b].0);
        } else {
            assert(t[b] == p);
            assert(t[a] == s[a]);
            if s[a].0 == p.0 {
                assert(has_key(s, p.0));
            }
        }
    }
    assert forall|k: u64| #[trigger] rm(t).dom().contains(k) implies rm(t)[k] == rm(s).insert(
        p.0,
        p.1@,
    )[k] && rm(s).insert(p.0, p.1@).dom().contains(k) by {
        let a = key_idx(t, k);
        assert(0 <= a < t.len() && t[a].0 == k);
        lemma_rm_index(t, a);
        if a == s.len() {
            assert(t[a] == p);
        } else {
            assert(t[a] == s[a]);
            lemma_rm_index(s, a);
            if k == p.0 {
                assert(has_key(s, p.0));
            }
        }
    }
    assert forall|k: u64| #[trigger] rm(s).insert(p.0, p.1@).dom().contains(k) implies rm(
        t,
    ).dom().contains(k) by {
        if k == p.0 {
            assert(t[s.len() as int].0 == k);
        } else {
            let a = choose|a: int| 0 <= a < s.len() && #[trigger] s[a].0 == k;
            assert(t[a].0 == k);
        }
    }
    assert(rm(t) =~= rm(s).insert(p.0, p.1@));
}

/// The process-wide coordinator state: the active sessions, keyed by
/// change-set identifier.
pub struct Coordinator {
    sessions: Vec<(u64, Session)>,
}

impl View for Coordinator {
    type V = Map<u64, SessionView>;

    closed spec fn view(&self) -> Map<u64, SessionView> {
        rm(self.sessions@)
    }
}

impl Coordinator {
    /// Keys are distinct, every session is well formed and registered under
    /// its own change-set identifier, and no closed session is kept.
    pub closed spec fn wf(&self) -> bool {
        &&& keys_distinct(self.sessions@)
        &&& forall|i: int| 0 <= i < self.sessions@.len() ==> #[trigger] entry_ok(self.sessions@, i)
    }

    /// A coordinator with no active sessions.
    pub fn new() -> (r: Coordinator)
        ensures
            r.wf(),
            r@ == Map::<u64, SessionView>::empty(),
    {
        let c = Coordinator { sessions: Vec::new() };
        proof {
            assert forall|k: u64| !(#[trigger] rm(c.sessions@).dom().contains(k)) by {
                if has_key(c.sessions@, k) {
                    let i = choose|i: int|
                        0 <= i < c.sessions@.len() && #[trigger] c.sessions@[i].0 == k;
                }
            }
            assert(rm(c.sessions@) =~= Map::<u64, SessionView>::empty());
        }
        c
    }

    fn find_session(&self, cs: u64) -> (r: Option<usize>)
        requires
            self.wf(),
        ensures
            match r {
                Some(i) => 0 <= i < self.sessions@.len() && self.sessions@[i as int].0 == cs
                    && self@.dom().contains(cs) && self@[cs] == self.sessions@[i as int].1@,
                None => !self@.dom().contains(cs),
            },
    {
        let mut i: usize = 0;
        while i < self.sessions.len()
            invariant
                self.wf(),
                i <= self.sessions@.len(),
                forall|j: int| 0 <= j < i ==> #[trigger] self.sessions@[j].0 != cs,
            decreases self.sessions@.len() - i,
        {
            if self.sessions[i].0 == cs {
                proof {
                    lemma_rm_index(self.sessions@, i as int);
                }
                return Some(i);
            }
            i = i + 1;
        }
        proof {
            if has_key(self.sessions@, cs) {
                let j = choose|j: int|
                    0 <= j < self.sessions@.len() && #[trigger] self.sessions@[j].0 == cs;
            }
        }
        None
    }

    /// True when a session exists for the change set.
    pub fn has_session(&self, change_set_id: u64) -> (r: bool)
        requires
            self.wf(),
        ensures
            r == self@.dom().contains(change_set_id),
    {
        self.find_session(change_set_id).is_some()
    }

    /// Routes one inbound request to the session for its change set,
    /// creating a session on graph registration and removing it on goodbye.
    /// Requests for a change set with no session are answered with
    /// UnknownSession; replacing a still-open session, or reporting a node
    /// that is not in flight, is a protocol violation; failed requests change
    /// nothing.
    pub fn handle(&mut self, request: Request) -> (r: Result<Vec<Response>, HandleError>)
        requires
            old(self).wf(),
        ensures
            final(self).wf(),
            (match request {
                Request::ValueDependencyGraph { change_set_id: cs, dependency_graph } => {
                    let pm = pairs_model(dependency_graph@);
                    let prior = old(self)@;
                    if prior.dom().contains(cs) && prior[cs].phase == Phase::Open {
                        r == Err::<Vec<Response>, HandleError>(HandleError::ProtocolViolation)
                            && final(self)@ == prior
                    } else {
                        &&& (r is Ok <==> (deps_closed(pm) && acyclic(pm)))
                        &&& (match r {
                            Ok(out) => {
                                &&& final(self)@.dom() == prior.dom().insert(cs)
                                &&& (forall|k: u64| #[trigger]
                                    prior.dom().contains(k) && k != cs ==> final(self)@[k]
                                        == prior[k])
                                &&& opened_step(cs, pm, final(self)@[cs], out@)
                            },
                            Err(e) => {
                                &&& final(self)@ == prior
                                &&& (e == HandleError::UnknownDependency <==> !deps_closed(pm))
                                &&& (e == HandleError::CyclicGraph <==> (deps_closed(pm)
                                    && !acyclic(pm)))
                            },
                        })
                    }
                },
                Request::ProcessedValue { change_set_id: cs, node_id } => {
                    let prior = old(self)@;
                    if !prior.dom().contains(cs) {
                        r == Err::<Vec<Response>, HandleError>(HandleError::UnknownSession)
                            && final(self)@ == prior
                    } else {
                        &&& (r is Ok <==> (prior[cs].nodes.dom().contains(node_id)
                            && prior[cs].nodes[node_id].status == NodeStatus::InFlight))
                        &&& (match r {
                            Ok(out) => {
                                &&& final(self)@.dom() == prior.dom()
                                &&& (forall|k: u64| #[trigger]
                                    prior.dom().contains(k) && k != cs ==> final(self)@[k]
                                        == prior[k])
                                &&& final(self)@.dom().contains(cs)
                                &&& processed_step(prior[cs], final(self)@[cs], out@, node_id)
                            },
                            Err(e) => final(self)@ == prior && e
                                == HandleError::ProtocolViolation,
                        })
                    }
                },
                Request::ValueProcessingFailed { change_set_id: cs, node_id } => {
                    let prior = old(self)@;
                    if !prior.dom().contains(cs) {
                        r == Err::<Vec<Response>, HandleError>(HandleError::UnknownSession)
                            && final(self)@ == prior
                    } else {
                        &&& (r is Ok <==> (prior[cs].nodes.dom().contains(node_id)
                            && prior[cs].nodes[node_id].status == NodeStatus::InFlight))
                        &&& (match r {
                            Ok(out) => {
                                &&& final(self)@.dom() == prior.dom()
                                &&& (forall|k: u64| #[trigger]
                                    prior.dom().contains(k) && k != cs ==> final(self)@[k]
                                        == prior[k])
                                &&& final(self)@.dom().contains(cs)
                                &&& failed_step(prior[cs], final(self)@[cs], out@, node_id)
                            },
                            Err(e) => final(self)@ == prior && e
                                == HandleError::ProtocolViolation,
                        })
                    }
                },
                Request::Bye { change_set_id: cs } => {
                    let prior = old(self)@;
                    if !prior.dom().contains(cs) {
                        r == Err::<Vec<Response>, HandleError>(HandleError::UnknownSession)
                            && final(self)@ == prior
                    } else {
                        &&& (r matches Ok(out) && out@.len() == 0)
                        &&& final(self)@ == prior.remove(cs)
                    }
                },
            }),
    {
        match request {
            Request::ValueDependencyGraph { change_set_id, dependency_graph } => {
                let existing = self.find_session(change_set_id);
                if let Some(i) = existing {
                    let is_open = self.sessions[i].1.phase() == Phase::Open;
                    if is_open {
                        return Err(HandleError::ProtocolViolation);
                    }
                }
                match Session::open(change_set_id, dependency_graph) {
                    Err(e) => {
                        match e {
                            GraphError::UnknownDependency => Err(HandleError::UnknownDependency),
                            GraphError::CyclicGraph => Err(HandleError::CyclicGraph),
                            GraphError::InvalidTransition => {
                                proof {
                                    assert(false);
                                }
                                Err(HandleError::ProtocolViolation)
                            },
                        }
                    },
                    Ok((session, out)) => {
                        let ghost s0 = self.sessions@;
                        proof {
                            assert forall|a: int| 0 <= a < s0.len() implies #[trigger] entry_ok(
                                s0,
                                a,
                            ) by {
                                lemma_wf_element(old(self), a);
                                assert(old(self).sessions@ == s0);
                            }
                        }
                        if let Some(i) = existing {
                            let _ = self.sessions.swap_remove(i);
                            proof {
                                lemma_rm_swap_remove(s0, i as int);
                            }
                        }
                        let ghost s1 = self.sessions@;
                        proof {
                            if has_key(s1, change_set_id) {
                                let j = choose|j: int|
                                    0 <= j < s1.len() && #[trigger] s1[j].0 == change_set_id;
                                if existing is Some {
                                    assert(rm(s1).dom().contains(s1[j].0)) by {
                                        lemma_rm_index(s1, j);
                                    }
                                } else {
                                    assert(rm(s0).dom().contains(s0[j].0)) by {
                                        lemma_rm_index(s0, j);
                                    }
                                }
                            }
                        }
                        self.sessions.push((change_set_id, session));
                        proof {
                            lemma_rm_push(s1, self.sessions@.last());
                            if existing is Some {
                                assert(self@ =~= old(self)@.insert(
                                    change_set_id,
                                    self.sessions@.last().1@,
                                ));
                            }
                            assert(self@.dom() =~= old(self)@.dom().insert(change_set_id));
                            assert forall|i2: int|
                                0 <= i2 < self.sessions@.len() implies #[trigger] entry_ok(
                                self.sessions@,
                                i2,
                            ) by {
                                if i2 < self.sessions@.len() - 1 {
                                    assert(self.sessions@[i2] == s1[i2]);
                                    if existing is Some {
                                        let iex = existing->0 as int;
                                        lemma_put_back_element(s0, s1, iex, i2);
                                        assert(entry_ok(s1, i2));
                                    } else {
                                        assert(s1[i2] == s0[i2]);
                                        assert(entry_ok(s0, i2));
                                    }
                                } else {
                                    assert(self.sessions@[i2] == self.sessions@.last());
                                }
                            }
                        }
                        Ok(out)
                    },
                }
            },
            Request::ProcessedValue { change_set_id, node_id } => {
                match self.find_session(change_set_id) {
                    None => Err(HandleError::UnknownSession),
                    Some(i) => {
                        let ghost s0 = self.sessions@;
                        proof {
                            assert forall|a: int| 0 <= a < s0.len() implies #[trigger] entry_ok(
                                s0,
                                a,
                            ) by {
                                lemma_wf_element(old(self), a);
                                assert(old(self).sessions@ == s0);
                            }
                        }
                        let (key, mut sess) = self.sessions.swap_remove(i);
                        proof {
                            lemma_rm_swap_remove(s0, i as int);
                            assert(entry_ok(s0, i as int));
                            assert(s0[i as int].1.wf());
                            assert(key == s0[i as int].0 && sess == s0[i as int].1);
                        }
                        let res = sess.processed_value(node_id);
                        let ghost s1 = self.sessions@;
                        proof {
                            if has_key(s1, key) {
                                let j = choose|j: int|
                                    0 <= j < s1.len() && #[trigger] s1[j].0 == key;
                                lemma_rm_index(s1, j);
                            }
                        }
                        self.sessions.push((key, sess));
                        proof {
                            lemma_rm_push(s1, self.sessions@.last());
                            self.lemma_wf_after_put_back(s0, s1, i as int);
                        }
                        match res {
                            Ok(out) => {
                                proof {
                                    assert(self@ =~= old(self)@.insert(
                                        change_set_id,
                                        self.sessions@.last().1@,
                                    ));
                                    assert(self@.dom() =~= old(self)@.dom());
                                }
                                Ok(out)
                            },
                            Err(e) => {
                                proof {
                                    assert(e == SessionError::ProtocolViolation);
                                    assert(self@ =~= old(self)@);
                                }
                                Err(HandleError::ProtocolViolation)
                            },
                        }
                    },
                }
            },
            Request::ValueProcessingFailed { change_set_id, node_id } => {
                match self.find_session(change_set_id) {
                    None => Err(HandleError::UnknownSession),
                    Some(i) => {
                        let ghost s0 = self.sessions@;
                        proof {
                            assert forall|a: int| 0 <= a < s0.len() implies #[trigger] entry_ok(
                                s0,
                                a,
                            ) by {
                                lemma_wf_element(old(self), a);
                                assert(old(self).sessions@ == s0);
                            }
                        }
                        let (key, mut sess) = self.sessions.swap_remove(i);
                        proof {
                            lemma_rm_swap_remove(s0, i as int);
                            assert(entry_ok(s0, i as int));
                            assert(s0[i as int].1.wf());
                            assert(key == s0[i as int].0 && sess == s0[i as int].1);
                        }
                        let res = sess.value_processing_failed(node_id);
                        let ghost s1 = self.sessions@;
                        proof {
                            if has_key(s1, key) {
                                let j = choose|j: int|
                                    0 <= j < s1.len() && #[trigger] s1[j].0 == key;
                                lemma_rm_index(s1, j);
                            }
                        }
                        self.sessions.push((key, sess));
                        proof {
                            lemma_rm_push(s1, self.sessions@.last());
                            self.lemma_wf_after_put_back(s0, s1, i as int);
                        }
                        match res {
                            Ok(out) => {
                                proof {
                                    assert(self@ =~= old(self)@.insert(
                                        change_set_id,
                                        self.sessions@.last().1@,
                                    ));
                                    assert(self@.dom() =~= old(self)@.dom());
                                }
                                Ok(out)
                            },
                            Err(e) => {
                                proof {
                                    assert(e == SessionError::ProtocolViolation);
                                    assert(self@ =~= old(self)@);
                                }
                                Err(HandleError::ProtocolViolation)
                            },
                        }
                    },
                }
            },
            Request::Bye { change_set_id } => {
                match self.find_session(change_set_id) {
                    None => Err(HandleError::UnknownSession),
                    Some(i) => {
                        let ghost s0 = self.sessions@;
                        proof {
                            assert forall|a: int| 0 <= a < s0.len() implies #[trigger] entry_ok(
                                s0,
                                a,
                            ) by {
                                lemma_wf_element(old(self), a);
                                assert(old(self).sessions@ == s0);
                            }
                        }
                        let _ = self.sessions.swap_remove(i);
                        proof {
                            lemma_rm_swap_remove(s0, i as int);
                            assert forall|i2: int|
                                0 <= i2 < self.sessions@.len() implies #[trigger] entry_ok(
                                self.sessions@,
                                i2,
                            ) by {
                                lemma_put_back_element(s0, self.sessions@, i as int, i2);
                            }
                        }
                        Ok(Vec::new())
                    },
                }
            },
        }
    }

    proof fn lemma_wf_after_put_back(&self, s0: Seq<(u64, Session)>, s1: Seq<(u64, Session)>, i: int)
        requires
            0 <= i < s0.len(),
            forall|a: int| 0 <= a < s0.len() ==> #[trigger] entry_ok(s0, a),
            forall|a: int|
                0 <= a < s1.len() ==> #[trigger] s1[a] == (if a == i {
                    s0[s0.len() - 1]
                } else {
                    s0[a]
                }),
            s1.len() == s0.len() - 1,
            self.sessions@.len() == s1.len() + 1,
            forall|a: int| 0 <= a < s1.len() ==> #[trigger] self.sessions@[a] == s1[a],
            self.sessions@.last().1.wf(),
            self.sessions@.last().1@.change_set_id == self.sessions@.last().0,
            self.sessions@.last().1@.phase != Phase::Closed,
        ensures
            forall|a: int| 0 <= a < self.sessions@.len() ==> #[trigger] entry_ok(self.sessions@, a),
    {
        assert forall|a: int|
            0 <= a < self.sessions@.len() implies #[trigger] entry_ok(self.sessions@, a) by {
            if a < self.sessions@.len() - 1 {
                assert(self.sessions@[a] == s1[a]);
                lemma_put_back_element(s0, s1, i, a);
                assert(entry_ok(s1, a));
            } else {
                assert(self.sessions@[a] == self.sessions@.last());
            }
        }
    }

    /// Removes the session for a change set if it exists and is still open:
    /// the idle-timeout cleanup for abandoned clients. The caller owns the
    /// clock; this is the state change it triggers.
    pub fn expire_session(&mut self, change_set_id: u64) -> (r: bool)
        requires
            old(self).wf(),
        ensures
            final(self).wf(),
            r == (old(self)@.dom().contains(change_set_id) && old(self)@[change_set_id].phase
                == Phase::Open),
            r ==> final(self)@ == old(self)@.remove(change_set_id),
            !r ==> final(self)@ == old(self)@,
    {
        match self.find_session(change_set_id) {
            None => false,
            Some(i) => {
                let is_open = self.sessions[i].1.phase() == Phase::Open;
                if is_open {
                    let ghost s0 = self.sessions@;
                    proof {
                        assert forall|a: int| 0 <= a < s0.len() implies #[trigger] entry_ok(
                            s0,
                            a,
                        ) by {
                            lemma_wf_element(old(self), a);
                            assert(old(self).sessions@ == s0);
                        }
                    }
                    let _ = self.sessions.swap_remove(i);
                    proof {
                        lemma_rm_swap_remove(s0, i as int);
                        assert forall|i2: int|
                            0 <= i2 < self.sessions@.len() implies #[trigger] entry_ok(
                            self.sessions@,
                            i2,
                        ) by {
                            lemma_put_back_element(s0, self.sessions@, i as int, i2);
                        }
                    }
                    true
                } else {
                    false
                }
            },
        }
    }

    /// The phase of the session for a change set, if one exists.
    pub fn session_phase(&self, change_set_id: u64) -> (r: Option<Phase>)
        requires
            self.wf(),
        ensures
            r == if self@.dom().contains(change_set_id) {
                Some(self@[change_set_id].phase)
            } else {
                None::<Phase>
            },
    {
        match self.find_session(change_set_id) {
            Some(i) => Some(self.sessions[i].1.phase()),
            None => None,
        }
    }
}


/// A goodbye removes the session from the registry, so any later completion,
/// failure or goodbye report for the same change set meets the condition
/// under which `handle` answers UnknownSession and changes nothing, until a
/// new graph is registered for it.
pub proof fn lemma_bye_then_unknown(prior: Map<u64, SessionView>, cs: u64)
    ensures
        !prior.remove(cs).dom().contains(cs),
{
}

/// Every registered session is well formed, keyed by its own change-set
/// identifier, and not closed.
proof fn lemma_wf_element(c: &Coordinator, a: int)
    requires
        c.wf(),
        0 <= a < c.sessions@.len(),
    ensures
        entry_ok(c.sessions@, a),
{
}

proof fn lemma_put_back_element(s0: Seq<(u64, Session)>, s1: Seq<(u64, Session)>, i: int, a: int)
    requires
        0 <= i < s0.len(),
        forall|x: int| 0 <= x < s0.len() ==> #[trigger] entry_ok(s0, x),
        forall|x: int|
            0 <= x < s1.len() ==> #[trigger] s1[x] == (if x == i {
                s0[s0.len() - 1]
            } else {
                s0[x]
            }),
        s1.len() == s0.len() - 1,
        0 <= a < s1.len(),
    ensures
        entry_ok(s1, a),
{
    let b: int = if a == i {
        s0.len() - 1
    } else {
        a
    };
    assert(s1[a] == s0[b]);
    assert(entry_ok(s0, b));
}

} // verus!
