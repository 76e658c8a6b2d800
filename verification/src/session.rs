use vstd::prelude::*;

use core::sync::atomic::AtomicBool;
use std::sync::Arc;

use vstd::hash_map::StringHashMap;

use crate::routes::{
    has_route_key, lemma_route_map_dom, route_clone, route_delete, route_lookup, route_map,
    route_remove_keys, route_set, unique_route_keys,
};
use crate::strutil::str_eq;
use crate::traces::{
    lemma_trace_set_empty, lemma_trace_set_push, lemma_unique_traces_push, trace_add, trace_clone,
    trace_delete, trace_set, unique_traces,
};

verus! {

// The session registry of the gateway: for every connected client it records
// which in-flight trace was dispatched to which querier, together with the
// client's cookie expiry, its last activity time and a shared drain flag,
// and it keeps a reverse index from querier name to the set of traces that
// querier is handling. The registry is a passive store: callers supply the
// current time, and an external sweeper drives idle eviction.
//
// A re-routed trace retracts its old reverse-index entry: when `set_querier_for_trace`
// overwrites an existing assignment, the trace id is first removed from the
// previous querier's trace set (pruning it when it empties), so the two
// indexes always agree. This closes the stale-entry leniency a lazier
// bookkeeping scheme would exhibit, and it is what makes the invariants
// below hold unconditionally.

/// The registry's single error: an operation that records or reads a specific
/// routing decision was applied to a client that has no session; the payload
/// is the offending client id.
#[derive(Debug, Clone, PartialEq, Eq)]
pub enum WsError {
    SessionNotFound(String),
}

pub type WsResult<T> = Result<T, WsError>;

/// Per-client session state.
pub struct SessionInfo {
    /// The client's trace-to-querier assignments, with pairwise-distinct
    /// trace ids.
    pub querier_mappings: Vec<(String, String)>,
    /// Seconds-precision expiry of the client's auth cookie; `None` never
    /// expires.
    pub cookie_expiry: Option<i64>,
    /// Seconds-precision time of the client's last activity signal.
    pub last_active: i64,
    /// Shared flag signalling cooperative teardown to tasks streaming to
    /// this client; it outlives the session record.
    pub is_session_drain_state: Arc<AtomicBool>,
}

/// The dual-indexed session registry.
pub struct SessionManager {
    sessions: StringHashMap<SessionInfo>,
    client_ids: Vec<String>,
    mapped_queriers: StringHashMap<Vec<String>>,
}

/// Relies on `Arc::clone` from std: the returned handle shares the same
/// cell as the argument.
#[verifier::external_body]
fn clone_flag(f: &Arc<AtomicBool>) -> (r: Arc<AtomicBool>)
    ensures
        r == *f,
{
    f.clone()
}

impl SessionManager {
    /// A session exists for the client.
    pub closed spec fn has_client(self, c: Seq<char>) -> bool {
        self.sessions@.contains_key(c)
    }

    /// The client's trace-to-querier map; empty for an absent client.
    pub closed spec fn client_routes(self, c: Seq<char>) -> Map<Seq<char>, Seq<char>> {
        if self.sessions@.contains_key(c) {
            route_map(self.sessions@[c].querier_mappings@)
        } else {
            Map::empty()
        }
    }

    /// The client's cookie expiry; meaningful only while the client has a
    /// session.
    pub closed spec fn cookie_expiry_of(self, c: Seq<char>) -> Option<i64> {
        self.sessions@[c].cookie_expiry
    }

    /// The client's last activity time; meaningful only while the client
    /// has a session.
    pub closed spec fn last_active_of(self, c: Seq<char>) -> i64 {
        self.sessions@[c].last_active
    }

    /// The client's drain flag; meaningful only while the client has a
    /// session.
    pub closed spec fn drain_flag_of(self, c: Seq<char>) -> Arc<AtomicBool> {
        self.sessions@[c].is_session_drain_state
    }

    /// The reverse index has an entry for the querier.
    pub closed spec fn has_querier(self, q: Seq<char>) -> bool {
        self.mapped_queriers@.contains_key(q)
    }

    /// The traces the reverse index records for the querier; empty for an
    /// absent querier.
    pub closed spec fn querier_traces(self, q: Seq<char>) -> Set<Seq<char>> {
        itraces(self.mapped_queriers@, q)
    }

    /// The client's in-flight trace ids, one per assignment, in the
    /// registry's storage order; empty for an absent client. Its entries
    /// are distinct and enumerate exactly the domain of `client_routes`
    /// (see `lemma_client_trace_seq`), so its length is the client's number
    /// of in-flight traces.
    pub closed spec fn client_trace_seq(self, c: Seq<char>) -> Seq<Seq<char>> {
        if self.sessions@.contains_key(c) {
            self.sessions@[c].querier_mappings@.map_values(|p: (String, String)| p.0@)
        } else {
            Seq::empty()
        }
    }

    /// The querier assigned to a trace of a client, if any.
    pub open spec fn route_of(self, c: Seq<char>, t: Seq<char>) -> Option<Seq<char>> {
        if self.client_routes(c).contains_key(t) {
            Some(self.client_routes(c)[t])
        } else {
            None
        }
    }

    /// A client counts as idle when it is absent or when more than the idle
    /// window has passed since its last activity.
    pub open spec fn idle_at(self, c: Seq<char>, now: i64, idle_timeout_secs: i64) -> bool {
        !self.has_client(c) || now - self.last_active_of(c) > idle_timeout_secs
    }

    /// A client's cookie is valid when the client is present and its expiry
    /// is unset or still in the future.
    pub open spec fn cookie_valid_at(self, c: Seq<char>, now: i64) -> bool {
        self.has_client(c) && match self.cookie_expiry_of(c) {
            None => true,
            Some(e) => e > now,
        }
    }

    /// Internal well-formedness: the client roster mirrors the session
    /// table; association lists carry distinct keys; and the two indexes
    /// agree:
    /// every recorded route appears in its querier's trace set, every trace
    /// of a trace set is owned by exactly one client routing it to that
    /// querier, and a querier entry is dropped as soon as its trace set
    /// empties.
    pub closed spec fn wf(self) -> bool {
        &&& unique_traces(self.client_ids@)
        &&& (forall|c: Seq<char>|
            #![trigger trace_set(self.client_ids@).contains(c)]
            #![trigger self.sessions@.contains_key(c)]
            trace_set(self.client_ids@).contains(c) <==> self.sessions@.contains_key(c))
        &&& (forall|c: Seq<char>|
            #[trigger] self.sessions@.contains_key(c) ==> unique_route_keys(
                self.sessions@[c].querier_mappings@,
            ))
        &&& index_ok(self.mapped_queriers@)
        &&& (forall|c1: Seq<char>, c2: Seq<char>, t: Seq<char>|
            #![trigger self.client_routes(c1).contains_key(t), self.client_routes(c2).contains_key(t)]
            self.client_routes(c1).contains_key(t) && self.client_routes(c2).contains_key(t)
                ==> c1 == c2)
        &&& (forall|c: Seq<char>, t: Seq<char>|
            #[trigger] self.client_routes(c).contains_key(t) ==> self.has_querier(
                self.client_routes(c)[t],
            ) && self.querier_traces(self.client_routes(c)[t]).contains(t))
        &&& (forall|q: Seq<char>, t: Seq<char>|
            #[trigger] self.querier_traces(q).contains(t) ==> exists|c: Seq<char>|
                self.client_routes(c).contains_key(t) && self.client_routes(c)[t] == q)
    }

    /// An empty registry.
    pub fn new() -> (r: SessionManager)
        ensures
            r.wf(),
            forall|c: Seq<char>| !r.has_client(c),
            forall|q: Seq<char>| !r.has_querier(q),
            forall|c: Seq<char>| #[trigger] r.client_routes(c) == Map::<Seq<char>, Seq<char>>::empty(),
            forall|q: Seq<char>| #[trigger] r.querier_traces(q) == Set::<Seq<char>>::empty(),
    {
        let r = SessionManager {
            sessions: StringHashMap::new(),
            client_ids: Vec::new(),
            mapped_queriers: StringHashMap::new(),
        };
        proof {
            assert forall|c: Seq<char>| #[trigger] r.client_routes(c) == Map::<
                Seq<char>,
                Seq<char>,
            >::empty() by {}
            assert forall|q: Seq<char>| #[trigger] r.querier_traces(q) == Set::<
                Seq<char>,
            >::empty() by {}
        }
        r
    }

    /// Creates a session for the client unless one exists; re-registration
    /// is a no-op that loses none of the accumulated state, which is what
    /// makes racing registrations safe once calls are serialised.
    pub fn register_client(&mut self, client_id: &str, cookie_expiry: Option<i64>, now: i64)
        requires
            old(self).wf(),
            client_id@.len() > 0,
        ensures
            final(self).wf(),
            old(self).has_client(client_id@) ==> *final(self) == *old(self),
            !old(self).has_client(client_id@) ==> {
                &&& final(self).has_client(client_id@)
                &&& final(self).client_routes(client_id@) == Map::<Seq<char>, Seq<char>>::empty()
                &&& final(self).cookie_expiry_of(client_id@) == cookie_expiry
                &&& final(self).last_active_of(client_id@) == now
                &&& forall|c: Seq<char>|
                    c != client_id@ ==> session_unchanged(*old(self), *final(self), c)
                &&& queriers_unchanged(*old(self), *final(self))
            },
    {
        if self.sessions.contains_key(client_id) {
            return;
        }
        let info = SessionInfo {
            querier_mappings: Vec::new(),
            cookie_expiry,
            last_active: now,
            is_session_drain_state: Arc::new(AtomicBool::new(false)),
        };
        let ghost pre = *self;
        self.client_ids.push(client_id.to_owned());
        self.sessions.insert(client_id.to_owned(), info);
        proof {
            lemma_wf_after_fresh_insert(pre, *self, client_id@);
        }
    }

    /// Refreshes the client's `last_active` to the supplied time; absent
    /// clients are silently ignored.
    pub fn update_session_activity(&mut self, client_id: &str, now: i64)
        requires
            old(self).wf(),
        ensures
            final(self).wf(),
            !old(self).has_client(client_id@) ==> *final(self) == *old(self),
            old(self).has_client(client_id@) ==> {
                &&& final(self).has_client(client_id@)
                &&& final(self).last_active_of(client_id@) == now
                &&& final(self).client_routes(client_id@) == old(self).client_routes(client_id@)
                &&& final(self).cookie_expiry_of(client_id@) == old(self).cookie_expiry_of(
                    client_id@,
                )
                &&& final(self).drain_flag_of(client_id@) == old(self).drain_flag_of(client_id@)
                &&& forall|c: Seq<char>|
                    c != client_id@ ==> session_unchanged(*old(self), *final(self), c)
                &&& queriers_unchanged(*old(self), *final(self))
            },
    {
        let updated = match self.sessions.get(client_id) {
            None => None,
            Some(info) => Some(
                SessionInfo {
                    querier_mappings: route_clone(&info.querier_mappings),
                    cookie_expiry: info.cookie_expiry,
                    last_active: now,
                    is_session_drain_state: clone_flag(&info.is_session_drain_state),
                },
            ),
        };
        match updated {
            None => (),
            Some(info) => {
                let ghost pre = *self;
                self.sessions.insert(client_id.to_owned(), info);
                proof {
                    lemma_wf_after_same_routes_insert(pre, *self, client_id@);
                }
            }
        }
    }

    /// Records that the given trace of the given client was dispatched to
    /// the given querier, in both indexes, overwriting any previous
    /// assignment of that trace; a re-routed trace is first retracted from
    /// its old querier's reverse entry (pruned when it empties). Fails with
    /// `SessionNotFound`, changing nothing, when the client has no session.
    /// Trace ids are assigned by the upstream dispatcher and are globally
    /// unique, which is what the quantified precondition records.
    pub fn set_querier_for_trace(&mut self, client_id: &str, trace_id: &str, querier_name: &str)
        -> (r: WsResult<()>)
        requires
            old(self).wf(),
            forall|c: Seq<char>|
                c != client_id@ ==> !old(self).client_routes(c).contains_key(trace_id@),
        ensures
            final(self).wf(),
            match r {
                Ok(_) => old(self).has_client(client_id@) && {
                    &&& final(self).has_client(client_id@)
                    &&& final(self).client_routes(client_id@) == old(self).client_routes(
                        client_id@,
                    ).insert(trace_id@, querier_name@)
                    &&& final(self).cookie_expiry_of(client_id@) == old(self).cookie_expiry_of(
                        client_id@,
                    )
                    &&& final(self).last_active_of(client_id@) == old(self).last_active_of(
                        client_id@,
                    )
                    &&& final(self).drain_flag_of(client_id@) == old(self).drain_flag_of(
                        client_id@,
                    )
                    &&& forall|c: Seq<char>|
                        c != client_id@ ==> session_unchanged(*old(self), *final(self), c)
                    &&& final(self).has_querier(querier_name@)
                    &&& final(self).querier_traces(querier_name@) == old(self).querier_traces(
                        querier_name@,
                    ).insert(trace_id@)
                    &&& (old(self).route_of(client_id@, trace_id@) matches Some(q_old) ==> {
                        &&& (q_old != querier_name@ ==> final(self).querier_traces(q_old) == old(
                            self,
                        ).querier_traces(q_old).remove(trace_id@))
                        &&& (q_old != querier_name@ ==> (final(self).has_querier(q_old) <==> old(
                            self,
                        ).querier_traces(q_old).remove(trace_id@) != Set::<Seq<char>>::empty()))
                        &&& forall|q: Seq<char>|
                            q != querier_name@ && q != q_old ==> querier_unchanged(
                                *old(self),
                                *final(self),
                                q,
                            )
                    })
                    &&& (old(self).route_of(client_id@, trace_id@) is None ==> forall|
                        q: Seq<char>,
                    |
                        q != querier_name@ ==> querier_unchanged(*old(self), *final(self), q))
                },
                Err(e) => {
                    &&& !old(self).has_client(client_id@)
                    &&& *final(self) == *old(self)
                    &&& e matches WsError::SessionNotFound(cid) && cid@ == client_id@
                },
            },
    {
        let updated = match self.sessions.get(client_id) {
            None => None,
            Some(info) => {
                let mut mappings = route_clone(&info.querier_mappings);
                let prev = route_set(&mut mappings, trace_id, querier_name);
                Some(
                    (
                        SessionInfo {
                            querier_mappings: mappings,
                            cookie_expiry: info.cookie_expiry,
                            last_active: info.last_active,
                            is_session_drain_state: clone_flag(&info.is_session_drain_state),
                        },
                        prev,
                    ),
                )
            }
        };
        match updated {
            None => Err(WsError::SessionNotFound(client_id.to_owned())),
            Some((info, prev)) => {
                let ghost pre = *self;
                let ghost prev_v: Option<Seq<char>> = match prev {
                    Some(ref q) => Some(q@),
                    None => None,
                };
                self.sessions.insert(client_id.to_owned(), info);
                match &prev {
                    Some(q_old) => {
                        index_retract(&mut self.mapped_queriers, q_old.as_str(), trace_id);
                    }
                    None => (),
                }
                let ghost mid = *self;
                index_add(&mut self.mapped_queriers, querier_name, trace_id);
                proof {
                    assert forall|qx: Seq<char>| qx != querier_name@
                        implies self.querier_traces(qx) == (match prev_v {
                            Some(qo) => if qx == qo {
                                pre.querier_traces(qo).remove(trace_id@)
                            } else {
                                pre.querier_traces(qx)
                            },
                            None => pre.querier_traces(qx),
                        }) by {}
                    lemma_wf_after_set_route(
                        pre,
                        *self,
                        client_id@,
                        trace_id@,
                        querier_name@,
                        prev_v,
                    );
                    if prev_v matches Some(qo) && qo == querier_name@ {
                        assert(pre.querier_traces(querier_name@).contains(trace_id@));
                        assert(self.querier_traces(querier_name@) =~= pre.querier_traces(
                            querier_name@,
                        ).insert(trace_id@));
                    }
                }
                Ok(())
            }
        }
    }

    /// Deletes the assignment of the given trace for the given client from
    /// both indexes, pruning the querier's reverse entry when its trace set
    /// empties; absent clients and unrecorded traces are silently ignored.
    pub fn remove_trace_id(&mut self, client_id: &str, trace_id: &str)
        requires
            old(self).wf(),
        ensures
            final(self).wf(),
            !old(self).has_client(client_id@) ==> *final(self) == *old(self),
            old(self).has_client(client_id@) ==> {
                &&& final(self).has_client(client_id@)
                &&& final(self).client_routes(client_id@) == old(self).client_routes(
                    client_id@,
                ).remove(trace_id@)
                &&& final(self).cookie_expiry_of(client_id@) == old(self).cookie_expiry_of(
                    client_id@,
                )
                &&& final(self).last_active_of(client_id@) == old(self).last_active_of(client_id@)
                &&& final(self).drain_flag_of(client_id@) == old(self).drain_flag_of(client_id@)
                &&& forall|c: Seq<char>|
                    c != client_id@ ==> session_unchanged(*old(self), *final(self), c)
                &&& (old(self).route_of(client_id@, trace_id@) matches Some(q_old) ==> {
                    &&& final(self).querier_traces(q_old) == old(self).querier_traces(
                        q_old,
                    ).remove(trace_id@)
                    &&& (final(self).has_querier(q_old) <==> old(self).querier_traces(
                        q_old,
                    ).remove(trace_id@) != Set::<Seq<char>>::empty())
                    &&& forall|q: Seq<char>|
                        q != q_old ==> querier_unchanged(*old(self), *final(self), q)
                })
                &&& (old(self).route_of(client_id@, trace_id@) is None ==> queriers_unchanged(
                    *old(self),
                    *final(self),
                ))
            },
    {
        let updated = match self.sessions.get(client_id) {
            None => None,
            Some(info) => {
                let mut mappings = route_clone(&info.querier_mappings);
                let prev = route_delete(&mut mappings, trace_id);
                Some(
                    (
                        SessionInfo {
                            querier_mappings: mappings,
                            cookie_expiry: info.cookie_expiry,
                            last_active: info.last_active,
                            is_session_drain_state: clone_flag(&info.is_session_drain_state),
                        },
                        prev,
                    ),
                )
            }
        };
        match updated {
            None => (),
            Some((info, prev)) => {
                let ghost pre = *self;
                let ghost prev_v: Option<Seq<char>> = match prev {
                    Some(ref q) => Some(q@),
                    None => None,
                };
                self.sessions.insert(client_id.to_owned(), info);
                match &prev {
                    Some(q_old) => {
                        index_retract(&mut self.mapped_queriers, q_old.as_str(), trace_id);
                    }
                    None => (),
                }
                proof {
                    lemma_wf_after_remove_route(pre, *self, client_id@, trace_id@, prev_v);
                    if prev_v is None {
                        assert(self.client_routes(client_id@) =~= pre.client_routes(client_id@));
                        assert(self.client_routes(client_id@) =~= pre.client_routes(
                            client_id@,
                        ).remove(trace_id@));
                    }
                }
            }
        }
    }

    /// Deletes the client's session and, for every trace it held, retracts
    /// that trace from the corresponding querier's reverse entry, pruning
    /// entries that empty; unknown clients are silently ignored.
    pub fn unregister_client(&mut self, client_id: &str)
        requires
            old(self).wf(),
        ensures
            final(self).wf(),
            !old(self).has_client(client_id@) ==> *final(self) == *old(self),
            old(self).has_client(client_id@) ==> {
                &&& !final(self).has_client(client_id@)
                &&& forall|c: Seq<char>|
                    c != client_id@ ==> session_unchanged(*old(self), *final(self), c)
                &&& forall|q: Seq<char>|
                    #![trigger final(self).querier_traces(q)]
                    final(self).querier_traces(q) == old(self).querier_traces(q).difference(
                        old(self).client_routes(client_id@).dom(),
                    )
                &&& forall|q: Seq<char>|
                    #![trigger final(self).has_querier(q)]
                    final(self).has_querier(q) <==> old(self).querier_traces(q).difference(
                        old(self).client_routes(client_id@).dom(),
                    ) != Set::<Seq<char>>::empty()
            },
    {
        let mappings_opt = match self.sessions.get(client_id) {
            None => None,
            Some(info) => Some(route_clone(&info.querier_mappings)),
        };
        match mappings_opt {
            None => (),
            Some(mappings) => {
                let ghost pre = *self;
                let ghost m = mappings@;
                self.sessions.remove(client_id);
                trace_delete(&mut self.client_ids, client_id);
                let ghost mid = *self;
                proof {
                    lemma_route_map_dom(m);
                    assert(m.take(0) =~= Seq::<(String, String)>::empty());
                    assert forall|q: Seq<char>| #[trigger] itraces(self.mapped_queriers@, q)
                        == pre.querier_traces(q).difference(
                        route_map(m.take(0)).dom(),
                    ) by {
                        assert(pre.querier_traces(q).difference(route_map(m.take(0)).dom())
                            =~= pre.querier_traces(q));
                    }
                }
                let mut i: usize = 0;
                while i < mappings.len()
                    invariant
                        i <= m.len(),
                        mappings@ == m,
                        unique_route_keys(m),
                        pre.wf(),
                        pre.sessions@.contains_key(client_id@),
                        route_map(m) == pre.client_routes(client_id@),
                        self.sessions@ == mid.sessions@,
                        self.client_ids@ == mid.client_ids@,
                        index_ok(self.mapped_queriers@),
                        forall|q: Seq<char>| #[trigger]
                            itraces(self.mapped_queriers@, q) == pre.querier_traces(q).difference(
                                route_map(m.take(i as int)).dom(),
                            ),
                    decreases m.len() - i,
                {
                    let ghost cur = self.mapped_queriers@;
                    let ghost ti = m[i as int].0@;
                    let ghost qi = m[i as int].1@;
                    proof {
                        assert(m.take(i as int + 1) =~= m.take(i as int).push(m[i as int]));
                        crate::routes::lemma_route_map_push(m.take(i as int), m[i as int]);
                        crate::routes::lemma_route_map_index(m, i as int);
                        assert(route_map(m.take(i as int + 1)).dom() =~= route_map(
                            m.take(i as int),
                        ).dom().insert(ti));
                    }
                    index_retract(
                        &mut self.mapped_queriers,
                        mappings[i].1.as_str(),
                        mappings[i].0.as_str(),
                    );
                    proof {
                        let ghost dprev = route_map(m.take(i as int)).dom();
                        let ghost dnext = route_map(m.take(i as int + 1)).dom();
                        assert forall|q: Seq<char>| #[trigger] itraces(self.mapped_queriers@, q)
                            == pre.querier_traces(q).difference(dnext) by {
                            if q == qi {
                                assert(itraces(self.mapped_queriers@, q) == itraces(cur,
                                    q,
                                ).remove(ti));
                                assert(itraces(cur, q).remove(ti) =~= pre.querier_traces(
                                    q,
                                ).difference(dnext));
                            } else {
                                assert(itraces(self.mapped_queriers@, q) == itraces(cur, q));
                                assert(!pre.querier_traces(q).contains(ti)) by {
                                    if pre.querier_traces(q).contains(ti) {
                                        let c4 = choose|c4: Seq<char>|
                                            pre.client_routes(c4).contains_key(ti)
                                                && pre.client_routes(c4)[ti] == q;
                                        assert(pre.client_routes(client_id@).contains_key(ti)
                                            && pre.client_routes(client_id@)[ti] == qi);
                                        assert(c4 == client_id@);
                                    }
                                }
                                assert(itraces(cur, q) =~= pre.querier_traces(q).difference(
                                    dnext,
                                ));
                            }
                        }
                    }
                    i = i + 1;
                }
                proof {
                    assert(m.take(m.len() as int) =~= m);
                    lemma_wf_after_unregister(pre, *self, client_id@);
                    assert forall|c: Seq<char>| c != client_id@
                        implies session_unchanged(pre, *self, c) by {
                        if self.sessions@.contains_key(c) {
                            assert(self.sessions@[c] == pre.sessions@[c]);
                        }
                    }
                    assert forall|q: Seq<char>| #[trigger]
                        self.has_querier(q) <==> self.querier_traces(q)
                        != Set::<Seq<char>>::empty() by {
                        if self.mapped_queriers@.contains_key(q) {
                            lemma_trace_set_empty(self.mapped_queriers@[q]@);
                        } else {
                            assert(self.querier_traces(q) =~= Set::<Seq<char>>::empty());
                        }
                    }
                }
            }
        }
    }

    /// Drops the querier's reverse-index entry and removes every trace of
    /// that entry from whichever client held it, in one call; unknown
    /// queriers are a no-op.
    pub fn remove_querier_connection(&mut self, querier_name: &str)
        requires
            old(self).wf(),
        ensures
            final(self).wf(),
            !old(self).has_querier(querier_name@) ==> *final(self) == *old(self),
            old(self).has_querier(querier_name@) ==> {
                &&& !final(self).has_querier(querier_name@)
                &&& forall|q: Seq<char>|
                    q != querier_name@ ==> querier_unchanged(*old(self), *final(self), q)
                &&& forall|c: Seq<char>|
                    #![trigger final(self).has_client(c)]
                    final(self).has_client(c) <==> old(self).has_client(c)
                &&& forall|c: Seq<char>|
                    #![trigger old(self).has_client(c)]
                    old(self).has_client(c) ==> {
                        &&& final(self).client_routes(c) == old(self).client_routes(
                            c,
                        ).remove_keys(old(self).querier_traces(querier_name@))
                        &&& final(self).cookie_expiry_of(c) == old(self).cookie_expiry_of(c)
                        &&& final(self).last_active_of(c) == old(self).last_active_of(c)
                        &&& final(self).drain_flag_of(c) == old(self).drain_flag_of(c)
                    }
            },
    {
        let traces_opt = match self.mapped_queriers.get(querier_name) {
            None => None,
            Some(v) => Some(trace_clone(v)),
        };
        let traces = match traces_opt {
            None => {
                return ;
            }
            Some(v) => v,
        };
        let ghost pre = *self;
        let ghost tset = trace_set(traces@);
        self.mapped_queriers.remove(querier_name);
        let mut i: usize = 0;
        while i < self.client_ids.len()
            invariant
                i <= self.client_ids@.len(),
                pre.wf(),
                pre.mapped_queriers@.contains_key(querier_name@),
                traces@ == pre.mapped_queriers@[querier_name@]@,
                tset == trace_set(traces@),
                tset == pre.querier_traces(querier_name@),
                self.client_ids@ == pre.client_ids@,
                self.mapped_queriers@ == pre.mapped_queriers@.remove(querier_name@),
                forall|c: Seq<char>| #[trigger]
                    self.sessions@.contains_key(c) <==> pre.sessions@.contains_key(c),
                forall|j: int|
                    0 <= j < i ==> updated_client(pre, *self, #[trigger] self.client_ids@[j]@,
                    tset),
                forall|c: Seq<char>|
                    #![trigger self.sessions@[c]]
                    self.sessions@.contains_key(c) && !client_in_prefix(
                        pre.client_ids@,
                        i as int,
                        c,
                    ) ==> self.sessions@[c] == pre.sessions@[c],
            decreases self.client_ids@.len() - i,
        {
            let cid = self.client_ids[i].clone();
            proof {
                assert(trace_set(pre.client_ids@).contains(cid@));
                assert(pre.sessions@.contains_key(cid@));
                assert(!client_in_prefix(pre.client_ids@, i as int, cid@)) by {
                    if client_in_prefix(pre.client_ids@, i as int, cid@) {
                        let j = choose|j: int|
                            0 <= j < i && pre.client_ids@[j]@ == cid@;
                        assert(pre.client_ids@[j]@ != pre.client_ids@[i as int]@);
                    }
                }
            }
            let updated = match self.sessions.get(cid.as_str()) {
                None => {
                    proof {
                        assert(false);
                    }
                    None
                }
                Some(info) => Some(
                    SessionInfo {
                        querier_mappings: route_remove_keys(&info.querier_mappings, &traces),
                        cookie_expiry: info.cookie_expiry,
                        last_active: info.last_active,
                        is_session_drain_state: clone_flag(&info.is_session_drain_state),
                    },
                ),
            };
            let ghost before = *self;
            match updated {
                None => (),
                Some(info) => {
                    self.sessions.insert(cid, info);
                }
            }
            proof {
                assert forall|j: int| 0 <= j < i + 1
                    implies updated_client(pre, *self, #[trigger] self.client_ids@[j]@, tset) by {
                    if j < i {
                        assert(self.client_ids@[j]@ != cid@);
                        assert(self.sessions@[self.client_ids@[j]@]
                            == before.sessions@[self.client_ids@[j]@]);
                        assert(updated_client(pre, before, self.client_ids@[j]@, tset));
                    } else {
                        assert(before.sessions@[cid@] == pre.sessions@[cid@]);
                    }
                }
                assert forall|c: Seq<char>|
                    self.sessions@.contains_key(c) && !client_in_prefix(
                        pre.client_ids@,
                        i as int + 1,
                        c,
                    ) implies #[trigger] self.sessions@[c] == pre.sessions@[c] by {
                    assert(c != cid@);
                    assert(!client_in_prefix(pre.client_ids@, i as int, c));
                }
            }
            i = i + 1;
        }
        proof {
            assert forall|c: Seq<char>| #[trigger] self.sessions@.contains_key(c)
                implies updated_client(pre, *self, c, tset) by {
                assert(pre.sessions@.contains_key(c));
                assert(trace_set(pre.client_ids@).contains(c));
                let j = choose|j: int|
                    0 <= j < pre.client_ids@.len() && pre.client_ids@[j]@ == c;
                assert(updated_client(pre, *self, self.client_ids@[j]@, tset));
            }
            lemma_wf_after_remove_querier(pre, *self, querier_name@);
            assert forall|c: Seq<char>| #[trigger] pre.has_client(c)
                implies self.client_routes(c) == pre.client_routes(c).remove_keys(tset)
                    && self.cookie_expiry_of(c) == pre.cookie_expiry_of(c)
                    && self.last_active_of(c) == pre.last_active_of(c) && self.drain_flag_of(c)
                == pre.drain_flag_of(c) by {
                assert(updated_client(pre, *self, c, tset));
            }
        }
    }

    /// Whether the client's cookie still authorises it at the supplied time;
    /// an absent client is treated as unauthenticated.
    pub fn is_client_cookie_valid(&self, client_id: &str, now: i64) -> (r: bool)
        ensures
            r == self.cookie_valid_at(client_id@, now),
    {
        match self.sessions.get(client_id) {
            None => false,
            Some(info) => match info.cookie_expiry {
                None => true,
                Some(expiry) => expiry > now,
            },
        }
    }

    /// Whether the client has exceeded the idle window at the supplied time;
    /// an absent client counts as idle.
    pub fn reached_max_idle_time(&self, client_id: &str, now: i64, idle_timeout_secs: i64) -> (r:
        bool)
        ensures
            r == self.idle_at(client_id@, now, idle_timeout_secs),
    {
        match self.sessions.get(client_id) {
            None => true,
            Some(info) => (now as i128) - (info.last_active as i128) > (idle_timeout_secs as i128),
        }
    }

    /// The querier recorded for the given trace of the given client, or
    /// `SessionNotFound` when the client has no session.
    pub fn get_querier_for_trace(&self, client_id: &str, trace_id: &str) -> (r: WsResult<
        Option<String>,
    >)
        requires
            self.wf(),
        ensures
            match r {
                Ok(Some(q)) => self.has_client(client_id@) && self.route_of(client_id@, trace_id@)
                    == Some(q@),
                Ok(None) => self.has_client(client_id@) && self.route_of(client_id@, trace_id@)
                    is None,
                Err(e) => !self.has_client(client_id@) && (e matches WsError::SessionNotFound(c)
                    && c@ == client_id@),
            },
    {
        match self.sessions.get(client_id) {
            None => Err(WsError::SessionNotFound(client_id.to_owned())),
            Some(info) => Ok(route_lookup(&info.querier_mappings, trace_id)),
        }
    }

    /// The querier names this client is routed to, one per in-flight trace
    /// (a querier serving several traces is listed once per trace); empty
    /// for an absent client. The result lists, index by index, the querier
    /// assigned to each trace of `client_trace_seq`, so it is exactly the
    /// multiset of the client's assignments.
    pub fn get_querier_connections(&self, client_id: &str) -> (r: Vec<String>)
        requires
            self.wf(),
        ensures
            r@.len() == self.client_trace_seq(client_id@).len(),
            forall|j: int|
                0 <= j < r@.len() ==> #[trigger] r@[j]@ == self.client_routes(client_id@)[
                    self.client_trace_seq(client_id@)[j]],
            forall|j: int|
                0 <= j < r@.len() ==> self.client_routes(client_id@).contains_value(
                    #[trigger] r@[j]@,
                ),
            forall|t: Seq<char>|
                #[trigger] self.client_routes(client_id@).contains_key(t) ==> exists|j: int|
                    0 <= j < r@.len() && r@[j]@ == self.client_routes(client_id@)[t],
    {
        let mut r: Vec<String> = Vec::new();
        match self.sessions.get(client_id) {
            None => r,
            Some(info) => {
                let ghost m = info.querier_mappings@;
                proof {
                    lemma_route_map_dom(m);
                }
                let mut i: usize = 0;
                while i < info.querier_mappings.len()
                    invariant
                        i <= m.len(),
                        info.querier_mappings@ == m,
                        unique_route_keys(m),
                        r@.len() == i,
                        forall|j: int| 0 <= j < i ==> r@[j]@ == m[j].1@,
                    decreases m.len() - i,
                {
                    r.push(info.querier_mappings[i].1.clone());
                    i = i + 1;
                }
                proof {
                    assert forall|j: int| 0 <= j < r@.len()
                        implies #[trigger] r@[j]@ == self.client_routes(client_id@)[
                        self.client_trace_seq(client_id@)[j]] by {
                        crate::routes::lemma_route_map_index(m, j);
                        assert(self.client_trace_seq(client_id@)[j] == m[j].0@);
                    }
                    assert forall|j: int| 0 <= j < r@.len()
                        implies self.client_routes(client_id@).contains_value(r@[j]@) by {
                        crate::routes::lemma_route_map_index(m, j);
                        assert(self.client_routes(client_id@).contains_pair(m[j].0@, m[j].1@));
                    }
                    assert forall|t: Seq<char>|
                        #[trigger] self.client_routes(client_id@).contains_key(t)
                        implies exists|j: int|
                            0 <= j < r@.len() && r@[j]@ == self.client_routes(client_id@)[t] by {
                        assert(has_route_key(m, t));
                        let j = choose|j: int| 0 <= j < m.len() && m[j].0@ == t;
                        crate::routes::lemma_route_map_index(m, j);
                        assert(r@[j]@ == self.client_routes(client_id@)[t]);
                    }
                }
                r
            }
        }
    }

    /// The trace ids currently held by this client; empty for an absent
    /// client. The result is exactly `client_trace_seq`, so it pairs index
    /// by index with `get_querier_connections`.
    pub fn get_trace_ids(&self, client_id: &str) -> (r: Vec<String>)
        requires
            self.wf(),
        ensures
            r@.map_values(|s: String| s@) == self.client_trace_seq(client_id@),
            forall|j: int|
                0 <= j < r@.len() ==> self.client_routes(client_id@).contains_key(
                    #[trigger] r@[j]@,
                ),
            forall|t: Seq<char>|
                #[trigger] self.client_routes(client_id@).contains_key(t) ==> exists|j: int|
                    0 <= j < r@.len() && r@[j]@ == t,
            forall|i: int, j: int| 0 <= i < j < r@.len() ==> r@[i]@ != r@[j]@,
    {
        let mut r: Vec<String> = Vec::new();
        match self.sessions.get(client_id) {
            None => r,
            Some(info) => {
                let ghost m = info.querier_mappings@;
                proof {
                    lemma_route_map_dom(m);
                }
                let mut i: usize = 0;
                while i < info.querier_mappings.len()
                    invariant
                        i <= m.len(),
                        info.querier_mappings@ == m,
                        unique_route_keys(m),
                        r@.len() == i,
                        forall|j: int| 0 <= j < i ==> r@[j]@ == m[j].0@,
                    decreases m.len() - i,
                {
                    r.push(info.querier_mappings[i].0.clone());
                    i = i + 1;
                }
                proof {
                    assert(r@.map_values(|s: String| s@) =~= self.client_trace_seq(client_id@));
                    assert forall|j: int| 0 <= j < r@.len()
                        implies self.client_routes(client_id@).contains_key(r@[j]@) by {
                        assert(has_route_key(m, m[j].0@));
                    }
                    assert forall|t: Seq<char>|
                        #[trigger] self.client_routes(client_id@).contains_key(t)
                        implies exists|j: int| 0 <= j < r@.len() && r@[j]@ == t by {
                        assert(has_route_key(m, t));
                        let j = choose|j: int| 0 <= j < m.len() && m[j].0@ == t;
                        assert(r@[j]@ == t);
                    }
                }
                r
            }
        }
    }

    /// The client's shared drain flag, or a freshly allocated, unattached
    /// flag for an unknown client, so that callers need not special-case
    /// absence; mutating the fresh flag affects no stored session.
    pub fn is_session_drain_state(&self, client_id: &str) -> (r: Arc<AtomicBool>)
        ensures
            self.has_client(client_id@) ==> r == self.drain_flag_of(client_id@),
    {
        match self.sessions.get(client_id) {
            None => Arc::new(AtomicBool::new(false)),
            Some(info) => clone_flag(&info.is_session_drain_state),
        }
    }

    /// Whether the reverse index holds an entry for the querier; the
    /// registry prunes an entry as soon as its trace set empties, so tests
    /// can observe that bookkeeping directly.
    pub fn has_querier_entry(&self, querier_name: &str) -> (r: bool)
        ensures
            r == self.has_querier(querier_name@),
    {
        self.mapped_queriers.contains_key(querier_name)
    }
}

impl SessionManager {
    /// Whether no other client currently maps the given trace. Trace ids
    /// come from the upstream dispatcher, which assigns them globally
    /// uniquely; this check lets a caller establish that guarantee locally
    /// before recording a route.
    pub fn trace_unclaimed(&self, client_id: &str, trace_id: &str) -> (r: bool)
        requires
            self.wf(),
        ensures
            r == forall|c: Seq<char>|
                c != client_id@ ==> !self.client_routes(c).contains_key(trace_id@),
    {
        let mut i: usize = 0;
        while i < self.client_ids.len()
            invariant
                i <= self.client_ids@.len(),
                self.wf(),
                forall|j: int|
                    0 <= j < i ==> (#[trigger] self.client_ids@[j]@ == client_id@
                        || !self.client_routes(self.client_ids@[j]@).contains_key(trace_id@)),
            decreases self.client_ids@.len() - i,
        {
            if !str_eq(self.client_ids[i].as_str(), client_id) {
                proof {
                    assert(trace_set(self.client_ids@).contains(self.client_ids@[i as int]@));
                }
                let found = match self.sessions.get(self.client_ids[i].as_str()) {
                    None => {
                        proof {
                            assert(false);
                        }
                        false
                    }
                    Some(info) => {
                        proof {
                            lemma_route_map_dom(info.querier_mappings@);
                        }
                        match crate::routes::route_find(&info.querier_mappings, trace_id) {
                            Some(k) => {
                                proof {
                                    assert(has_route_key(info.querier_mappings@, trace_id@));
                                }
                                true
                            }
                            None => false,
                        }
                    }
                };
                if found {
                    proof {
                        assert(self.client_routes(self.client_ids@[i as int]@).contains_key(
                            trace_id@,
                        ));
                    }
                    return false;
                }
            }
            i = i + 1;
        }
        proof {
            assert forall|c: Seq<char>| c != client_id@
                implies !self.client_routes(c).contains_key(trace_id@) by {
                if self.sessions@.contains_key(c) {
                    assert(trace_set(self.client_ids@).contains(c));
                    let j = choose|j: int|
                        0 <= j < self.client_ids@.len() && self.client_ids@[j]@ == c;
                    assert(self.client_ids@[j]@ == c);
                }
            }
        }
        true
    }
}

/// An absent client has no routes.
pub proof fn lemma_absent_client_routes(m: SessionManager, c: Seq<char>)
    requires
        !m.has_client(c),
    ensures
        m.client_routes(c) == Map::<Seq<char>, Seq<char>>::empty(),
{
}

/// An absent querier records no traces.
pub proof fn lemma_absent_querier_traces(m: SessionManager, q: Seq<char>)
    requires
        !m.has_querier(q),
    ensures
        m.querier_traces(q) == Set::<Seq<char>>::empty(),
{
}

/// The trace sequence of a client enumerates, without repetition, exactly
/// the traces of its routing map: its length is the client's number of
/// in-flight traces.
pub proof fn lemma_client_trace_seq(m: SessionManager, c: Seq<char>)
    requires
        m.wf(),
    ensures
        forall|i: int, j: int|
            0 <= i < j < m.client_trace_seq(c).len() ==> m.client_trace_seq(c)[i]
                != m.client_trace_seq(c)[j],
        forall|j: int|
            0 <= j < m.client_trace_seq(c).len() ==> m.client_routes(c).contains_key(
                #[trigger] m.client_trace_seq(c)[j],
            ),
        forall|t: Seq<char>|
            #[trigger] m.client_routes(c).contains_key(t) ==> exists|j: int|
                0 <= j < m.client_trace_seq(c).len() && m.client_trace_seq(c)[j] == t,
{
    if m.sessions@.contains_key(c) {
        let mm = m.sessions@[c].querier_mappings@;
        lemma_route_map_dom(mm);
        assert forall|i: int, j: int| 0 <= i < j < m.client_trace_seq(c).len()
            implies m.client_trace_seq(c)[i] != m.client_trace_seq(c)[j] by {
            assert(m.client_trace_seq(c)[i] == mm[i].0@);
            assert(m.client_trace_seq(c)[j] == mm[j].0@);
        }
        assert forall|j: int| 0 <= j < m.client_trace_seq(c).len()
            implies m.client_routes(c).contains_key(#[trigger] m.client_trace_seq(c)[j]) by {
            assert(m.client_trace_seq(c)[j] == mm[j].0@);
            assert(has_route_key(mm, mm[j].0@));
        }
        assert forall|t: Seq<char>| #[trigger] m.client_routes(c).contains_key(t)
            implies exists|j: int|
                0 <= j < m.client_trace_seq(c).len() && m.client_trace_seq(c)[j] == t by {
            assert(has_route_key(mm, t));
            let j = choose|j: int| 0 <= j < mm.len() && mm[j].0@ == t;
            assert(m.client_trace_seq(c)[j] == t);
        }
    }
}

// What should hold of the registry, stated once and proved: each of the
// following proof functions is a law about the contracts above.

/// Cookie validity after registration: a session created without an expiry
/// is always valid, one whose expiry has passed is invalid, and one whose
/// expiry lies ahead is valid.
pub proof fn lemma_cookie_validity_after_register(
    post: SessionManager,
    c: Seq<char>,
    expiry: Option<i64>,
    now: i64,
)
    requires
        post.has_client(c),
        post.cookie_expiry_of(c) == expiry,
    ensures
        expiry is None ==> post.cookie_valid_at(c, now),
        (expiry matches Some(e) && e <= now) ==> !post.cookie_valid_at(c, now),
        (expiry matches Some(e) && e > now) ==> post.cookie_valid_at(c, now),
{
}

/// A recorded routing decision is read back: once a client's routes carry
/// `trace -> querier` (as `set_querier_for_trace` ensures), the route the
/// registry reports for that trace is exactly that querier.
pub proof fn lemma_route_recorded(
    pre: SessionManager,
    post: SessionManager,
    c: Seq<char>,
    t: Seq<char>,
    q: Seq<char>,
)
    requires
        post.has_client(c),
        post.client_routes(c) == pre.client_routes(c).insert(t, q),
    ensures
        post.route_of(c, t) == Some(q),
{
}

/// Pruning on the last trace: when a querier's reverse entry holds exactly
/// the trace being deleted, deleting that trace (as `remove_trace_id`
/// ensures) leaves the querier without an entry, so removing the querier
/// afterwards finds nothing to do.
pub proof fn lemma_prune_after_last_trace(
    pre: SessionManager,
    post: SessionManager,
    t: Seq<char>,
    q: Seq<char>,
)
    requires
        pre.querier_traces(q) == Set::<Seq<char>>::empty().insert(t),
        post.querier_traces(q) == pre.querier_traces(q).remove(t),
        post.has_querier(q) <==> pre.querier_traces(q).remove(t) != Set::<Seq<char>>::empty(),
    ensures
        !post.has_querier(q),
{
    assert(pre.querier_traces(q).remove(t) =~= Set::<Seq<char>>::empty());
}

/// Cascading cleanup on unregistration: a querier whose recorded traces all
/// belonged to the departing client loses its reverse entry entirely (as
/// `unregister_client` ensures), so removing that querier afterwards finds
/// nothing to do.
pub proof fn lemma_unregister_clears_querier(
    pre: SessionManager,
    post: SessionManager,
    c: Seq<char>,
    q: Seq<char>,
)
    requires
        pre.querier_traces(q).subset_of(pre.client_routes(c).dom()),
        post.querier_traces(q) == pre.querier_traces(q).difference(pre.client_routes(c).dom()),
        post.has_querier(q) <==> pre.querier_traces(q).difference(pre.client_routes(c).dom())
            != Set::<Seq<char>>::empty(),
    ensures
        !post.has_querier(q),
{
    assert(pre.querier_traces(q).difference(pre.client_routes(c).dom())
        =~= Set::<Seq<char>>::empty());
}

/// Cross-client cascade: removing a querier (as `remove_querier_connection`
/// ensures) leaves no client — however many there were — routing any trace
/// to it.
pub proof fn lemma_remove_querier_clears_routes(
    pre: SessionManager,
    post: SessionManager,
    q: Seq<char>,
)
    requires
        pre.wf(),
        forall|c: Seq<char>|
            #![trigger post.has_client(c)]
            post.has_client(c) <==> pre.has_client(c),
        forall|c: Seq<char>|
            #![trigger pre.has_client(c)]
            pre.has_client(c) ==> post.client_routes(c) == pre.client_routes(c).remove_keys(
                pre.querier_traces(q),
            ),
    ensures
        forall|c: Seq<char>, t: Seq<char>| #[trigger] post.route_of(c, t) != Some(q),
{
    assert forall|c: Seq<char>, t: Seq<char>| #[trigger] post.route_of(c, t) != Some(q) by {
        if post.route_of(c, t) == Some(q) {
            assert(post.client_routes(c).contains_key(t));
            assert(post.has_client(c));
            assert(pre.client_routes(c).contains_key(t) && pre.client_routes(c)[t] == q);
            assert(pre.querier_traces(q).contains(t));
            assert(!post.client_routes(c).contains_key(t));
        }
    }
}

/// Stale sessions are idle: a client whose last activity lies further back
/// than the idle window counts as idle.
pub proof fn lemma_stale_is_idle(m: SessionManager, c: Seq<char>, now: i64, idle_timeout_secs: i64)
    requires
        m.has_client(c),
        now - m.last_active_of(c) > idle_timeout_secs,
    ensures
        m.idle_at(c, now, idle_timeout_secs),
{
}

/// An activity refresh resets idleness: right after `update_session_activity`
/// at time `now`, a present client is not idle for any nonnegative window.
pub proof fn lemma_touch_resets_idle(
    post: SessionManager,
    c: Seq<char>,
    now: i64,
    idle_timeout_secs: i64,
)
    requires
        post.has_client(c),
        post.last_active_of(c) == now,
        idle_timeout_secs >= 0,
    ensures
        !post.idle_at(c, now, idle_timeout_secs),
{
}

impl Default for SessionManager {
    /// An empty registry.
    fn default() -> (r: SessionManager)
        ensures
            r.wf(),
            forall|c: Seq<char>| !r.has_client(c),
            forall|q: Seq<char>| !r.has_querier(q),
    {
        SessionManager::new()
    }
}

/// The set of trace ids a reverse-index table records for a querier; empty
/// for an absent querier.
pub open spec fn itraces(mm: Map<Seq<char>, Vec<String>>, q: Seq<char>) -> Set<Seq<char>> {
    if mm.contains_key(q) {
        trace_set(mm[q]@)
    } else {
        Set::empty()
    }
}

/// Every entry of a reverse-index table holds distinct trace ids and is
/// nonempty: an entry whose trace set empties is dropped at once.
pub open spec fn index_ok(mm: Map<Seq<char>, Vec<String>>) -> bool {
    forall|q: Seq<char>| #[trigger]
        mm.contains_key(q) ==> unique_traces(mm[q]@) && mm[q]@.len() > 0
}

/// Removes one trace id from a querier's entry of the reverse index,
/// dropping the entry when its trace set empties; absent queriers are left
/// alone.
fn index_retract(m: &mut StringHashMap<Vec<String>>, querier_name: &str, trace_id: &str)
    requires
        index_ok(old(m)@),
    ensures
        index_ok(final(m)@),
        itraces(final(m)@, querier_name@) == itraces(old(m)@, querier_name@).remove(trace_id@),
        final(m)@.contains_key(querier_name@) <==> itraces(old(m)@, querier_name@).remove(
            trace_id@,
        ) != Set::<Seq<char>>::empty(),
        forall|q: Seq<char>|
            q != querier_name@ ==> ((final(m)@.contains_key(q) <==> old(m)@.contains_key(q)) && (
            old(m)@.contains_key(q) ==> final(m)@[q] == old(m)@[q])),
        forall|q: Seq<char>|
            q != querier_name@ ==> itraces(final(m)@, q) == itraces(old(m)@, q),
{
    let updated = match m.get(querier_name) {
        None => None,
        Some(v) => {
            let mut v2 = trace_clone(v);
            trace_delete(&mut v2, trace_id);
            Some(v2)
        }
    };
    match updated {
        None => {
            proof {
                assert(itraces(m@, querier_name@) =~= itraces(m@, querier_name@).remove(
                    trace_id@,
                ));
            }
        }
        Some(v2) => {
            proof {
                lemma_trace_set_empty(v2@);
            }
            if v2.is_empty() {
                m.remove(querier_name);
            } else {
                m.insert(querier_name.to_owned(), v2);
            }
        }
    }
}

/// Adds one trace id to a querier's entry of the reverse index, creating
/// the entry when absent.
fn index_add(m: &mut StringHashMap<Vec<String>>, querier_name: &str, trace_id: &str)
    requires
        index_ok(old(m)@),
    ensures
        index_ok(final(m)@),
        final(m)@.contains_key(querier_name@),
        itraces(final(m)@, querier_name@) == itraces(old(m)@, querier_name@).insert(trace_id@),
        forall|q: Seq<char>|
            q != querier_name@ ==> ((final(m)@.contains_key(q) <==> old(m)@.contains_key(q)) && (
            old(m)@.contains_key(q) ==> final(m)@[q] == old(m)@[q])),
        forall|q: Seq<char>|
            q != querier_name@ ==> itraces(final(m)@, q) == itraces(old(m)@, q),
{
    let updated = match m.get(querier_name) {
        None => {
            let mut v: Vec<String> = Vec::new();
            v.push(trace_id.to_owned());
            proof {
                assert(trace_set(v@) =~= itraces(m@, querier_name@).insert(trace_id@)) by {
                    assert forall|t: Seq<char>| trace_set(v@).contains(t)
                        implies itraces(m@, querier_name@).insert(trace_id@).contains(t) by {}
                    assert forall|t: Seq<char>|
                        itraces(m@, querier_name@).insert(trace_id@).contains(t)
                        implies trace_set(v@).contains(t) by {
                        assert(v@[0]@ == trace_id@);
                    }
                }
            }
            v
        }
        Some(v) => {
            let mut v2 = trace_clone(v);
            trace_add(&mut v2, trace_id);
            v2
        }
    };
    let ghost u = updated@;
    proof {
        lemma_trace_set_empty(u);
        assert(unique_traces(u));
        assert(trace_set(u).contains(trace_id@));
        assert(u.len() > 0);
    }
    m.insert(querier_name.to_owned(), updated);
    proof {
        assert forall|q: Seq<char>| #[trigger] m@.contains_key(q)
            implies unique_traces(m@[q]@) && m@[q]@.len() > 0 by {
            if q == querier_name@ {
                assert(m@[q]@ == u);
            }
        }
    }
}

/// The client either has no session in both registries, or has one with the
/// same routes, cookie expiry, activity time and drain flag in both.
pub open spec fn session_unchanged(a: SessionManager, b: SessionManager, c: Seq<char>) -> bool {
    &&& (a.has_client(c) <==> b.has_client(c))
    &&& a.has_client(c) ==> {
        &&& a.client_routes(c) == b.client_routes(c)
        &&& a.cookie_expiry_of(c) == b.cookie_expiry_of(c)
        &&& a.last_active_of(c) == b.last_active_of(c)
        &&& a.drain_flag_of(c) == b.drain_flag_of(c)
    }
}

/// The reverse index describes the same entry for the querier in both
/// registries.
pub open spec fn querier_unchanged(a: SessionManager, b: SessionManager, q: Seq<char>) -> bool {
    &&& (a.has_querier(q) <==> b.has_querier(q))
    &&& a.querier_traces(q) == b.querier_traces(q)
}

/// The reverse index describes the same queriers and trace sets in both
/// registries.
pub open spec fn queriers_unchanged(a: SessionManager, b: SessionManager) -> bool {
    forall|q: Seq<char>|
        #![trigger a.querier_traces(q)]
        #![trigger b.querier_traces(q)]
        #![trigger a.has_querier(q)]
        #![trigger b.has_querier(q)]
        (a.has_querier(q) <==> b.has_querier(q)) && a.querier_traces(q) == b.querier_traces(q)
}

/// In `cur`, the client's session agrees with its session in `pre` except
/// that the routes whose trace lies in `tset` are gone.
spec fn updated_client(
    pre: SessionManager,
    cur: SessionManager,
    c: Seq<char>,
    tset: Set<Seq<char>>,
) -> bool {
    &&& cur.sessions@.contains_key(c)
    &&& pre.sessions@.contains_key(c)
    &&& unique_route_keys(cur.sessions@[c].querier_mappings@)
    &&& route_map(cur.sessions@[c].querier_mappings@) == route_map(
        pre.sessions@[c].querier_mappings@,
    ).remove_keys(tset)
    &&& cur.sessions@[c].cookie_expiry == pre.sessions@[c].cookie_expiry
    &&& cur.sessions@[c].last_active == pre.sessions@[c].last_active
    &&& cur.sessions@[c].is_session_drain_state == pre.sessions@[c].is_session_drain_state
}

/// The client id occurs among the first `n` entries of the roster.
spec fn client_in_prefix(roster: Seq<String>, n: int, c: Seq<char>) -> bool {
    exists|j: int| 0 <= j < n && roster[j]@ == c
}

/// Deleting a client's session, with each of its traces retracted from the
/// reverse index, preserves well-formedness.
proof fn lemma_wf_after_unregister(pre: SessionManager, post: SessionManager, c: Seq<char>)
    requires
        pre.wf(),
        pre.has_client(c),
        post.sessions@ =~= pre.sessions@.remove(c),
        unique_traces(post.client_ids@),
        trace_set(post.client_ids@) == trace_set(pre.client_ids@).remove(c),
        index_ok(post.mapped_queriers@),
        forall|q: Seq<char>| #[trigger]
            itraces(post.mapped_queriers@, q) == pre.querier_traces(q).difference(
                pre.client_routes(c).dom(),
            ),
    ensures
        post.wf(),
{
    assert forall|c2: Seq<char>| c2 != c implies #[trigger] post.client_routes(c2)
        == pre.client_routes(c2) by {
        if post.sessions@.contains_key(c2) {
            assert(post.sessions@[c2] == pre.sessions@[c2]);
        }
    }
    assert(post.client_routes(c) =~= Map::<Seq<char>, Seq<char>>::empty());
    assert forall|c2: Seq<char>| #[trigger] post.sessions@.contains_key(c2)
        implies unique_route_keys(post.sessions@[c2].querier_mappings@) by {
        assert(post.sessions@[c2] == pre.sessions@[c2]);
    }
    assert forall|c1: Seq<char>, c2: Seq<char>, t: Seq<char>|
        #![trigger post.client_routes(c1).contains_key(t), post.client_routes(c2).contains_key(t)]
        post.client_routes(c1).contains_key(t) && post.client_routes(c2).contains_key(t)
        implies c1 == c2 by {
        assert(c1 != c && c2 != c);
        assert(pre.client_routes(c1).contains_key(t));
        assert(pre.client_routes(c2).contains_key(t));
    }
    assert forall|c2: Seq<char>, t: Seq<char>| #[trigger]
        post.client_routes(c2).contains_key(t)
        implies post.has_querier(post.client_routes(c2)[t]) && post.querier_traces(
            post.client_routes(c2)[t],
        ).contains(t) by {
        assert(c2 != c);
        let q2 = post.client_routes(c2)[t];
        assert(pre.client_routes(c2).contains_key(t) && pre.client_routes(c2)[t] == q2);
        assert(pre.querier_traces(q2).contains(t));
        assert(!pre.client_routes(c).contains_key(t)) by {
            if pre.client_routes(c).contains_key(t) {
                assert(pre.client_routes(c2).contains_key(t));
            }
        }
        assert(itraces(post.mapped_queriers@, q2).contains(t));
        assert(post.mapped_queriers@.contains_key(q2));
    }
    assert forall|q2: Seq<char>, t: Seq<char>| #[trigger] post.querier_traces(q2).contains(t)
        implies exists|c2: Seq<char>|
            post.client_routes(c2).contains_key(t) && post.client_routes(c2)[t] == q2 by {
        assert(pre.querier_traces(q2).contains(t));
        assert(!pre.client_routes(c).dom().contains(t));
        let c3 = choose|c3: Seq<char>|
            pre.client_routes(c3).contains_key(t) && pre.client_routes(c3)[t] == q2;
        assert(c3 != c);
        assert(post.client_routes(c3).contains_key(t) && post.client_routes(c3)[t] == q2);
    }
}

/// Dropping a querier's reverse entry, with that querier's traces removed
/// from every client's routes, preserves well-formedness.
proof fn lemma_wf_after_remove_querier(pre: SessionManager, post: SessionManager, q: Seq<char>)
    requires
        pre.wf(),
        pre.has_querier(q),
        post.client_ids@ == pre.client_ids@,
        forall|c: Seq<char>| #[trigger]
            post.sessions@.contains_key(c) <==> pre.sessions@.contains_key(c),
        forall|c: Seq<char>| #[trigger]
            post.sessions@.contains_key(c) ==> updated_client(pre, post, c, pre.querier_traces(q)),
        post.mapped_queriers@ == pre.mapped_queriers@.remove(q),
    ensures
        post.wf(),
{
    let tset = pre.querier_traces(q);
    assert forall|c2: Seq<char>| #[trigger]
        post.client_routes(c2) == pre.client_routes(c2).remove_keys(tset) by {
        if post.sessions@.contains_key(c2) {
        } else {
            assert(post.client_routes(c2) =~= pre.client_routes(c2).remove_keys(tset));
        }
    }
    assert(index_ok(post.mapped_queriers@)) by {
        assert forall|q2: Seq<char>| #[trigger] post.mapped_queriers@.contains_key(q2)
            implies unique_traces(post.mapped_queriers@[q2]@) && post.mapped_queriers@[q2]@.len()
                > 0 by {
            assert(pre.mapped_queriers@.contains_key(q2));
            assert(post.mapped_queriers@[q2] == pre.mapped_queriers@[q2]);
        }
    }
    assert forall|q2: Seq<char>| q2 != q implies #[trigger] post.querier_traces(q2)
        == pre.querier_traces(q2) by {}
    assert forall|c1: Seq<char>, c2: Seq<char>, t: Seq<char>|
        #![trigger post.client_routes(c1).contains_key(t), post.client_routes(c2).contains_key(t)]
        post.client_routes(c1).contains_key(t) && post.client_routes(c2).contains_key(t)
        implies c1 == c2 by {
        assert(pre.client_routes(c1).contains_key(t));
        assert(pre.client_routes(c2).contains_key(t));
    }
    assert forall|c2: Seq<char>, t: Seq<char>| #[trigger]
        post.client_routes(c2).contains_key(t)
        implies post.has_querier(post.client_routes(c2)[t]) && post.querier_traces(
            post.client_routes(c2)[t],
        ).contains(t) by {
        let q2 = post.client_routes(c2)[t];
        assert(pre.client_routes(c2).contains_key(t) && pre.client_routes(c2)[t] == q2);
        assert(pre.querier_traces(q2).contains(t));
        assert(!tset.contains(t));
        assert(q2 != q);
        assert(post.querier_traces(q2).contains(t));
        assert(post.mapped_queriers@.contains_key(q2));
    }
    assert forall|q2: Seq<char>, t: Seq<char>| #[trigger] post.querier_traces(q2).contains(t)
        implies exists|c2: Seq<char>|
            post.client_routes(c2).contains_key(t) && post.client_routes(c2)[t] == q2 by {
        assert(q2 != q);
        assert(pre.querier_traces(q2).contains(t));
        let c3 = choose|c3: Seq<char>|
            pre.client_routes(c3).contains_key(t) && pre.client_routes(c3)[t] == q2;
        assert(!tset.contains(t)) by {
            if tset.contains(t) {
                let c4 = choose|c4: Seq<char>|
                    pre.client_routes(c4).contains_key(t) && pre.client_routes(c4)[t] == q;
                assert(c4 == c3);
            }
        }
        assert(post.client_routes(c3).contains_key(t) && post.client_routes(c3)[t] == q2);
    }
}

/// Recording a route for a client, with the reverse index adjusted to match
/// (the new querier gains the trace, the trace's previous querier loses
/// it), preserves well-formedness.
proof fn lemma_wf_after_set_route(
    pre: SessionManager,
    post: SessionManager,
    c: Seq<char>,
    t: Seq<char>,
    q: Seq<char>,
    prev: Option<Seq<char>>,
)
    requires
        pre.wf(),
        pre.has_client(c),
        forall|c2: Seq<char>| c2 != c ==> !pre.client_routes(c2).contains_key(t),
        post.client_ids@ == pre.client_ids@,
        post.sessions@.contains_key(c),
        post.sessions@ =~= pre.sessions@.insert(c, post.sessions@[c]),
        unique_route_keys(post.sessions@[c].querier_mappings@),
        route_map(post.sessions@[c].querier_mappings@) == route_map(
            pre.sessions@[c].querier_mappings@,
        ).insert(t, q),
        match prev {
            Some(qo) => pre.client_routes(c).contains_key(t) && pre.client_routes(c)[t] == qo,
            None => !pre.client_routes(c).contains_key(t),
        },
        index_ok(post.mapped_queriers@),
        post.querier_traces(q) == (match prev {
            Some(qo) => if qo == q {
                pre.querier_traces(q).remove(t)
            } else {
                pre.querier_traces(q)
            },
            None => pre.querier_traces(q),
        }).insert(t),
        forall|qx: Seq<char>|
            qx != q ==> post.querier_traces(qx) == (match prev {
                Some(qo) => if qx == qo {
                    pre.querier_traces(qo).remove(t)
                } else {
                    pre.querier_traces(qx)
                },
                None => pre.querier_traces(qx),
            }),
    ensures
        post.wf(),
{
    assert forall|c2: Seq<char>| c2 != c implies #[trigger] post.client_routes(c2)
        == pre.client_routes(c2) by {
        if post.sessions@.contains_key(c2) {
            assert(post.sessions@[c2] == pre.sessions@[c2]);
        }
    }
    assert(post.client_routes(c) == pre.client_routes(c).insert(t, q));
    assert forall|c2: Seq<char>| #[trigger] post.sessions@.contains_key(c2)
        implies pre.sessions@.contains_key(c2) && unique_route_keys(
            post.sessions@[c2].querier_mappings@,
        ) by {
        if c2 != c {
            assert(post.sessions@[c2] == pre.sessions@[c2]);
        }
    }
    // single owner
    assert forall|c1: Seq<char>, c2: Seq<char>, t2: Seq<char>|
        #![trigger post.client_routes(c1).contains_key(t2), post.client_routes(c2).contains_key(t2)]
        post.client_routes(c1).contains_key(t2) && post.client_routes(c2).contains_key(t2)
        implies c1 == c2 by {
        if t2 == t {
            if c1 != c {
                assert(pre.client_routes(c1).contains_key(t2));
            }
            if c2 != c {
                assert(pre.client_routes(c2).contains_key(t2));
            }
        } else {
            assert(pre.client_routes(c1).contains_key(t2));
            assert(pre.client_routes(c2).contains_key(t2));
        }
    }
    // every route is reflected in the reverse index
    assert forall|c2: Seq<char>, t2: Seq<char>| #[trigger]
        post.client_routes(c2).contains_key(t2)
        implies post.has_querier(post.client_routes(c2)[t2]) && post.querier_traces(
            post.client_routes(c2)[t2],
        ).contains(t2) by {
        let q2 = post.client_routes(c2)[t2];
        if c2 == c && t2 == t {
            assert(q2 == q);
            assert(post.querier_traces(q).contains(t));
        } else {
            assert(pre.client_routes(c2).contains_key(t2) && pre.client_routes(c2)[t2] == q2);
            assert(pre.querier_traces(q2).contains(t2));
            assert(t2 != t) by {
                if c2 != c && t2 == t {
                    assert(pre.client_routes(c2).contains_key(t));
                }
            }
            assert(post.querier_traces(q2).contains(t2));
        }
        assert(post.mapped_queriers@.contains_key(q2));
    }
    // every reverse entry is owned by a routing client
    assert forall|q2: Seq<char>, t2: Seq<char>| #[trigger] post.querier_traces(q2).contains(t2)
        implies exists|c2: Seq<char>|
            post.client_routes(c2).contains_key(t2) && post.client_routes(c2)[t2] == q2 by {
        if q2 == q && t2 == t {
            assert(post.client_routes(c).contains_key(t) && post.client_routes(c)[t] == q);
        } else {
            assert(pre.querier_traces(q2).contains(t2));
            let c3 = choose|c3: Seq<char>|
                pre.client_routes(c3).contains_key(t2) && pre.client_routes(c3)[t2] == q2;
            if t2 == t {
                // q2 != q here; pre-ownership of t pins c3 == c and q2 to the
                // previous querier, whose post entry no longer holds t
                assert(c3 == c);
                match prev {
                    Some(qo) => {
                        assert(q2 == qo);
                        assert(!post.querier_traces(q2).contains(t2));
                    }
                    None => {
                        assert(false);
                    }
                }
            } else {
                if c3 == c {
                    assert(post.client_routes(c).contains_key(t2) && post.client_routes(c)[t2]
                        == q2);
                } else {
                    assert(post.client_routes(c3).contains_key(t2) && post.client_routes(c3)[t2]
                        == q2);
                }
            }
        }
    }
}

/// Deleting one trace of a client, with the trace retracted from its
/// querier's reverse entry, preserves well-formedness.
proof fn lemma_wf_after_remove_route(
    pre: SessionManager,
    post: SessionManager,
    c: Seq<char>,
    t: Seq<char>,
    prev: Option<Seq<char>>,
)
    requires
        pre.wf(),
        pre.has_client(c),
        post.client_ids@ == pre.client_ids@,
        post.sessions@.contains_key(c),
        post.sessions@ =~= pre.sessions@.insert(c, post.sessions@[c]),
        unique_route_keys(post.sessions@[c].querier_mappings@),
        route_map(post.sessions@[c].querier_mappings@) == route_map(
            pre.sessions@[c].querier_mappings@,
        ).remove(t),
        match prev {
            Some(qo) => pre.client_routes(c).contains_key(t) && pre.client_routes(c)[t] == qo,
            None => !pre.client_routes(c).contains_key(t),
        },
        index_ok(post.mapped_queriers@),
        match prev {
            Some(qo) => post.querier_traces(qo) == pre.querier_traces(qo).remove(t)
                && forall|qx: Seq<char>|
                    qx != qo ==> post.querier_traces(qx) == pre.querier_traces(qx),
            None => forall|qx: Seq<char>| post.querier_traces(qx) == pre.querier_traces(qx),
        },
    ensures
        post.wf(),
{
    assert forall|c2: Seq<char>| c2 != c implies #[trigger] post.client_routes(c2)
        == pre.client_routes(c2) by {
        if post.sessions@.contains_key(c2) {
            assert(post.sessions@[c2] == pre.sessions@[c2]);
        }
    }
    assert(post.client_routes(c) == pre.client_routes(c).remove(t));
    assert forall|c2: Seq<char>| #[trigger] post.sessions@.contains_key(c2)
        implies pre.sessions@.contains_key(c2) && unique_route_keys(
            post.sessions@[c2].querier_mappings@,
        ) by {
        if c2 != c {
            assert(post.sessions@[c2] == pre.sessions@[c2]);
        }
    }
    assert forall|c2: Seq<char>, t2: Seq<char>| #[trigger]
        post.client_routes(c2).contains_key(t2)
        implies post.has_querier(post.client_routes(c2)[t2]) && post.querier_traces(
            post.client_routes(c2)[t2],
        ).contains(t2) by {
        let q2 = post.client_routes(c2)[t2];
        assert(pre.client_routes(c2).contains_key(t2) && pre.client_routes(c2)[t2] == q2);
        assert(pre.querier_traces(q2).contains(t2));
        assert(t2 != t || c2 != c);
        if t2 == t {
            // the surviving route to t belongs to another client, so no
            // retraction happened for t
            match prev {
                Some(qo) => {
                    assert(pre.client_routes(c).contains_key(t));
                    assert(c2 == c);
                    assert(false);
                }
                None => {}
            }
        }
        assert(post.querier_traces(q2).contains(t2));
        assert(post.mapped_queriers@.contains_key(q2));
    }
    assert forall|q2: Seq<char>, t2: Seq<char>| #[trigger] post.querier_traces(q2).contains(t2)
        implies exists|c2: Seq<char>|
            post.client_routes(c2).contains_key(t2) && post.client_routes(c2)[t2] == q2 by {
        assert(pre.querier_traces(q2).contains(t2));
        let c3 = choose|c3: Seq<char>|
            pre.client_routes(c3).contains_key(t2) && pre.client_routes(c3)[t2] == q2;
        if c3 == c && t2 == t {
            match prev {
                Some(qo) => {
                    assert(q2 == qo);
                    assert(!post.querier_traces(q2).contains(t2));
                }
                None => {
                    assert(false);
                }
            }
        } else {
            if c3 == c {
                assert(post.client_routes(c).contains_key(t2) && post.client_routes(c)[t2] == q2);
            } else {
                assert(post.client_routes(c3).contains_key(t2) && post.client_routes(c3)[t2]
                    == q2);
            }
        }
    }
}

/// Inserting a fresh client with no routes preserves well-formedness.
proof fn lemma_wf_after_fresh_insert(pre: SessionManager, post: SessionManager, c: Seq<char>)
    requires
        pre.wf(),
        !pre.has_client(c),
        post.sessions@ =~= pre.sessions@.insert(c, post.sessions@[c]),
        post.sessions@.contains_key(c),
        post.sessions@[c].querier_mappings@.len() == 0,
        post.client_ids@.len() == pre.client_ids@.len() + 1,
        forall|j: int| 0 <= j < pre.client_ids@.len() ==> post.client_ids@[j] == pre.client_ids@[j],
        post.client_ids@.last()@ == c,
        post.mapped_queriers@ == pre.mapped_queriers@,
    ensures
        post.wf(),
{
    assert(route_map(post.sessions@[c].querier_mappings@) =~= Map::<Seq<char>, Seq<char>>::empty())
        by {
        lemma_route_map_dom(post.sessions@[c].querier_mappings@);
    }
    assert(post.client_ids@ =~= pre.client_ids@.push(post.client_ids@.last()));
    lemma_trace_set_push(pre.client_ids@, post.client_ids@.last());
    lemma_unique_traces_push(pre.client_ids@, post.client_ids@.last());
    assert forall|c2: Seq<char>|
        trace_set(post.client_ids@).contains(c2) <==> #[trigger] post.sessions@.contains_key(c2)
        by {}
    assert forall|c2: Seq<char>| c2 != c implies pre.client_routes(c2) == post.client_routes(c2)
        by {}
    assert forall|c1: Seq<char>, c2: Seq<char>, t: Seq<char>|
        #![trigger post.client_routes(c1).contains_key(t), post.client_routes(c2).contains_key(t)]
        post.client_routes(c1).contains_key(t) && post.client_routes(c2).contains_key(t)
        implies c1 == c2 by {
        assert(c1 != c && c2 != c);
    }
    assert forall|q: Seq<char>, t: Seq<char>| #[trigger] post.querier_traces(q).contains(t)
        implies exists|c2: Seq<char>|
            post.client_routes(c2).contains_key(t) && post.client_routes(c2)[t] == q by {
        assert(pre.querier_traces(q).contains(t));
        let c2 = choose|c2: Seq<char>|
            pre.client_routes(c2).contains_key(t) && pre.client_routes(c2)[t] == q;
        assert(c2 != c);
        assert(post.client_routes(c2).contains_key(t) && post.client_routes(c2)[t] == q);
    }
}

/// Replacing a session with one that carries the same routes preserves
/// well-formedness.
proof fn lemma_wf_after_same_routes_insert(pre: SessionManager, post: SessionManager, c: Seq<char>)
    requires
        pre.wf(),
        pre.has_client(c),
        post.sessions@ =~= pre.sessions@.insert(c, post.sessions@[c]),
        post.sessions@.contains_key(c),
        post.sessions@[c].querier_mappings@ == pre.sessions@[c].querier_mappings@,
        post.client_ids@ == pre.client_ids@,
        post.mapped_queriers@ == pre.mapped_queriers@,
    ensures
        post.wf(),
{
    assert forall|c2: Seq<char>| #[trigger] post.client_routes(c2) == pre.client_routes(c2) by {
        if post.sessions@.contains_key(c2) {
            if c2 != c {
                assert(post.sessions@[c2] == pre.sessions@[c2]);
            }
        }
    }
    assert forall|q: Seq<char>| #[trigger] post.querier_traces(q) == pre.querier_traces(q) by {}
    assert forall|c2: Seq<char>| #[trigger] post.sessions@.contains_key(c2)
        implies pre.sessions@.contains_key(c2) && post.sessions@[c2].querier_mappings@
            == pre.sessions@[c2].querier_mappings@ by {
        if c2 != c {
            assert(post.sessions@[c2] == pre.sessions@[c2]);
        }
    }
    assert forall|q: Seq<char>, t: Seq<char>| #[trigger] post.querier_traces(q).contains(t)
        implies exists|c2: Seq<char>|
            post.client_routes(c2).contains_key(t) && post.client_routes(c2)[t] == q by {
        assert(pre.querier_traces(q).contains(t));
        let c2 = choose|c2: Seq<char>|
            pre.client_routes(c2).contains_key(t) && pre.client_routes(c2)[t] == q;
        assert(post.client_routes(c2).contains_key(t) && post.client_routes(c2)[t] == q);
    }
}

} // verus!
