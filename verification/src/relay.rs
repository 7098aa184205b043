//! The relay engine: connection admission and lifecycle, the subscription
//! index, and the broadcast fanout, behind one state type. Every mutation
//! keeps the engine's central invariant: a client identifier appears under a
//! resource in the index exactly when that resource is in the client's
//! interest set, and every registered client holds exactly one fanout
//! receiver.
//!
//! The embedding application owns the transport: it hands each inbound text
//! frame to [`Relay::handle_message`], sends back the encoded acknowledgement
//! if one is returned, drains [`Relay::next_outbound`] into the connection's
//! outbound path, and calls [`Relay::teardown`] when the connection ends.

use crate::fanout::Fanout;
use crate::index::SubscriptionIndex;
use crate::messages::WsResponse;
use crate::protocol::{parse_request, spec_parse_request};
use crate::registry::{ConnectionRegistry, ORIGIN_CAP};
use vstd::prelude::*;
use vstd::string::StringExecFns;

verus! {

/// The whole engine state: registry, index and fanout, kept consistent.
pub struct Relay {
    registry: ConnectionRegistry,
    index: SubscriptionIndex,
    fanout: Fanout,
}

impl Relay {
    /// Whether a client with this identifier is currently connected.
    pub closed spec fn spec_contains(self, id: u64) -> bool {
        self.registry.spec_contains(id)
    }

    /// The interest set of client `id`.
    pub closed spec fn interests(self, id: u64) -> Set<Seq<char>> {
        self.registry.interests_of(id)
    }

    /// The set of client identifiers subscribed to resource `r`.
    pub closed spec fn subs(self, r: Seq<char>) -> Set<u64> {
        self.index.subs(r)
    }

    /// Whether the index holds an entry for resource `r`.
    pub closed spec fn spec_has_resource(self, r: Seq<char>) -> bool {
        self.index.spec_has(r)
    }

    /// The messages delivered to client `id`'s receiver and not yet drained.
    pub closed spec fn outbound(self, id: u64) -> Seq<Seq<char>> {
        self.fanout.pending(id)
    }

    /// The origin address client `id` connected from.
    pub closed spec fn origin_of(self, id: u64) -> Seq<char> {
        self.registry.origin_of(id)
    }

    /// How many connected clients share origin `ip`.
    pub closed spec fn origin_count(self, ip: Seq<char>) -> nat {
        self.registry.origin_count(ip)
    }

    /// Whether the identifier space is used up (identifiers are never
    /// reused, so admission rejects once it is).
    pub closed spec fn ids_exhausted(self) -> bool {
        self.registry.ids_exhausted()
    }

    /// The engine invariant: each part is well-formed; a client id stands
    /// under a resource in the index exactly when the resource is in that
    /// client's interest set; and a fanout receiver is attached exactly for
    /// the registered clients.
    pub closed spec fn wf(self) -> bool {
        &&& self.registry.wf()
        &&& self.index.wf()
        &&& self.fanout.wf()
        &&& forall|id: u64, r: Seq<char>|
            #![trigger self.index.subs(r).contains(id)]
            #![trigger self.registry.interests_of(id).contains(r)]
            self.index.subs(r).contains(id) <==> (self.registry.spec_contains(id)
                && self.registry.interests_of(id).contains(r))
        &&& forall|id: u64| #[trigger] self.fanout.attached(id) == self.registry.spec_contains(id)
    }

    /// A relay with no clients, no subscriptions and no receivers.
    pub fn new() -> (r: Relay)
        ensures
            r.wf(),
            forall|id: u64| !r.spec_contains(id),
            forall|res: Seq<char>| r.subs(res) == Set::<u64>::empty(),
            forall|res: Seq<char>| !r.spec_has_resource(res),
            forall|ip: Seq<char>| r.origin_count(ip) == 0,
    {
        let r = Relay {
            registry: ConnectionRegistry::new(),
            index: SubscriptionIndex::new(),
            fanout: Fanout::new(),
        };
        r
    }

    /// Admission: registers a fresh client from `origin` — with an empty
    /// interest set and a fresh, empty fanout receiver — unless `ORIGIN_CAP`
    /// connections from that origin are already registered (or identifiers
    /// are exhausted), in which case the connection is rejected and the
    /// caller must close it silently.
    pub fn accept(&mut self, origin: String) -> (r: Option<u64>)
        requires
            old(self).wf(),
        ensures
            final(self).wf(),
            r is Some <==> (old(self).origin_count(origin@) < ORIGIN_CAP as nat && !old(
                self,
            ).ids_exhausted()),
            r is None ==> *final(self) == *old(self),
            r is Some ==> !old(self).spec_contains(r->0) && final(self).spec_contains(r->0),
            r is Some ==> final(self).interests(r->0) == Set::<Seq<char>>::empty(),
            r is Some ==> final(self).outbound(r->0) == Seq::<Seq<char>>::empty(),
            r is Some ==> final(self).origin_of(r->0) == origin@,
            r is Some ==> final(self).origin_count(origin@) == old(self).origin_count(origin@)
                + 1,
            r is Some ==> forall|ip: Seq<char>|
                ip != origin@ ==> final(self).origin_count(ip) == old(self).origin_count(ip),
            r is Some ==> forall|x: u64|
                x != r->0 ==> final(self).spec_contains(x) == old(self).spec_contains(x),
            r is Some ==> forall|x: u64|
                x != r->0 && old(self).spec_contains(x) ==> final(self).interests(x) == old(
                    self,
                ).interests(x) && final(self).outbound(x) == old(self).outbound(x),
            forall|res: Seq<char>| final(self).subs(res) == old(self).subs(res),
            forall|res: Seq<char>|
                final(self).spec_has_resource(res) == old(self).spec_has_resource(res),
    {
        match self.registry.accept(origin) {
            Some(id) => {
                self.fanout.attach(id);
                proof {
                    assert forall|x: u64, res: Seq<char>| self.index.subs(res).contains(x)
                        <==> (self.registry.spec_contains(x)
                        && self.registry.interests_of(x).contains(res)) by {
                        if x == id {
                            assert(!old(self).registry.spec_contains(id));
                            assert(!old(self).index.subs(res).contains(id));
                            assert(self.registry.interests_of(id) == Set::<Seq<char>>::empty());
                        }
                    }
                }
                Some(id)
            },
            None => None,
        }
    }

    /// Whether client `id` is still registered: the authoritative liveness
    /// signal for its read loop.
    pub fn is_alive(&self, id: u64) -> (r: bool)
        ensures
            r == self.spec_contains(id),
    {
        self.registry.is_alive(id)
    }

    /// How many connected clients share this origin.
    pub fn origin_count_now(&self, origin: &String) -> (n: usize)
        ensures
            n == self.origin_count(origin@),
    {
        self.registry.origin_count_now(origin)
    }

    /// The protocol handler: interprets one inbound text frame from client
    /// `id` and returns the acknowledgement to send back, if any.
    ///
    /// - malformed input (not matching the request grammar): dropped
    ///   silently — no state change, no response;
    /// - `sub` with a resource list: each listed resource is added to the
    ///   client's interests and to the index; acknowledged with `ok`;
    /// - `unsub` with a resource list: symmetric removal; acknowledged with
    ///   `ok` whether or not the client was subscribed;
    /// - `sub` / `unsub` without a resource list: no state change and no
    ///   acknowledgement (such a request falls through unanswered);
    /// - `keepalive`: no state change, acknowledged with `ok`;
    /// - any other method: no state change, acknowledged with `error`.
    ///
    /// A frame from an identifier that is no longer registered (evicted
    /// out-of-band) is dropped silently.
    pub fn handle_message(&mut self, id: u64, text: &str) -> (resp: Option<WsResponse>)
        requires
            old(self).wf(),
        ensures
            final(self).wf(),
            forall|x: u64| final(self).spec_contains(x) == old(self).spec_contains(x),
            forall|x: u64| final(self).outbound(x) == old(self).outbound(x),
            forall|ip: Seq<char>| final(self).origin_count(ip) == old(self).origin_count(ip),
            forall|x: u64|
                old(self).spec_contains(x) ==> final(self).origin_of(x) == old(self).origin_of(
                    x,
                ),
            (!old(self).spec_contains(id) || spec_parse_request(text@) is None) ==> (*final(self)
                == *old(self) && resp is None),
            old(self).spec_contains(id) && spec_parse_request(text@) is Some ==> ({
                let m = (spec_parse_request(text@)->0).0;
                let rs = (spec_parse_request(text@)->0).1;
                &&& (m == "sub"@ && rs is Some ==> {
                    &&& final(self).interests(id) == old(self).interests(id).union(
                        rs->0.to_set(),
                    )
                    &&& forall|res: Seq<char>|
                        rs->0.contains(res) ==> final(self).subs(res) == old(self).subs(
                            res,
                        ).insert(id)
                    &&& forall|res: Seq<char>|
                        !rs->0.contains(res) ==> final(self).subs(res) == old(self).subs(res)
                    &&& forall|x: u64|
                        x != id && old(self).spec_contains(x) ==> final(self).interests(x) == old(
                            self,
                        ).interests(x)
                    &&& resp is Some
                    &&& (resp->0).status@ == "ok"@
                    &&& (resp->0).message@ == "Subscribed successfully"@
                })
                &&& (m == "sub"@ && rs is None ==> *final(self) == *old(self) && resp is None)
                &&& (m == "unsub"@ && rs is Some ==> {
                    &&& final(self).interests(id) == old(self).interests(id).difference(
                        rs->0.to_set(),
                    )
                    &&& forall|res: Seq<char>|
                        rs->0.contains(res) ==> final(self).subs(res) == old(self).subs(
                            res,
                        ).remove(id)
                    &&& forall|res: Seq<char>|
                        !rs->0.contains(res) ==> final(self).subs(res) == old(self).subs(res)
                    &&& forall|x: u64|
                        x != id && old(self).spec_contains(x) ==> final(self).interests(x) == old(
                            self,
                        ).interests(x)
                    &&& resp is Some
                    &&& (resp->0).status@ == "ok"@
                    &&& (resp->0).message@ == "Unsubscribed successfully"@
                })
                &&& (m == "unsub"@ && rs is None ==> *final(self) == *old(self) && resp is None)
                &&& (m == "keepalive"@ ==> *final(self) == *old(self) && resp is Some && (
                resp->0).status@ == "ok"@ && (resp->0).message@ == "Keepalive received"@)
                &&& (m != "sub"@ && m != "unsub"@ && m != "keepalive"@ ==> *final(self) == *old(
                    self,
                ) && resp is Some && (resp->0).status@ == "error"@ && (resp->0).message@
                    == "Unknown method"@)
            }),
    {
        proof {
            reveal_strlit("sub");
            reveal_strlit("unsub");
            reveal_strlit("keepalive");
            assert("sub"@.len() == 3 && "unsub"@.len() == 5 && "keepalive"@.len() == 9);
        }
        let alive = self.registry.is_alive(id);
        if !alive {
            return None;
        }
        let req = match parse_request(text) {
            None => {
                return None;
            },
            Some(q) => q,
        };
        let sub_name = String::from_str("sub");
        let unsub_name = String::from_str("unsub");
        let keepalive_name = String::from_str("keepalive");
        if req.method == sub_name {
            match req.resources {
                Some(resources) => {
                    self.subscribe_all(id, &resources);
                    Some(
                        WsResponse {
                            status: String::from_str("ok"),
                            message: String::from_str("Subscribed successfully"),
                        },
                    )
                },
                None => None,
            }
        } else if req.method == unsub_name {
            match req.resources {
                Some(resources) => {
                    self.unsubscribe_all(id, &resources);
                    Some(
                        WsResponse {
                            status: String::from_str("ok"),
                            message: String::from_str("Unsubscribed successfully"),
                        },
                    )
                },
                None => None,
            }
        } else if req.method == keepalive_name {
            Some(
                WsResponse {
                    status: String::from_str("ok"),
                    message: String::from_str("Keepalive received"),
                },
            )
        } else {
            Some(
                WsResponse {
                    status: String::from_str("error"),
                    message: String::from_str("Unknown method"),
                },
            )
        }
    }

    /// Adds every resource of `resources` to client `id`'s interests and to
    /// the index, keeping the two consistent at each step.
    fn subscribe_all(&mut self, id: u64, resources: &Vec<String>)
        requires
            old(self).wf(),
            old(self).spec_contains(id),
        ensures
            final(self).wf(),
            final(self).interests(id) == old(self).interests(id).union(
                resources.deep_view().to_set(),
            ),
            forall|res: Seq<char>|
                resources.deep_view().contains(res) ==> final(self).subs(res) == old(self).subs(
                    res,
                ).insert(id),
            forall|res: Seq<char>|
                !resources.deep_view().contains(res) ==> final(self).subs(res) == old(self).subs(
                    res,
                ),
            forall|x: u64| final(self).spec_contains(x) == old(self).spec_contains(x),
            forall|x: u64|
                x != id && old(self).spec_contains(x) ==> final(self).interests(x) == old(
                    self,
                ).interests(x),
            forall|x: u64|
                old(self).spec_contains(x) ==> final(self).origin_of(x) == old(self).origin_of(
                    x,
                ),
            forall|ip: Seq<char>| final(self).origin_count(ip) == old(self).origin_count(ip),
            forall|x: u64| final(self).outbound(x) == old(self).outbound(x),
            final(self).fanout == old(self).fanout,
    {
        let ghost pre = *self;
        let mut k: usize = 0;
        while k < resources.len()
            invariant
                pre.wf(),
                pre.spec_contains(id),
                self.wf(),
                k <= resources@.len(),
                self.interests(id) == pre.interests(id).union(
                    resources.deep_view().take(k as int).to_set(),
                ),
                forall|res: Seq<char>|
                    resources.deep_view().take(k as int).contains(res) ==> self.subs(res)
                        == pre.subs(res).insert(id),
                forall|res: Seq<char>|
                    !resources.deep_view().take(k as int).contains(res) ==> self.subs(res)
                        == pre.subs(res),
                forall|x: u64| self.spec_contains(x) == pre.spec_contains(x),
                forall|x: u64|
                    x != id && pre.spec_contains(x) ==> self.registry.rec(x) == pre.registry.rec(
                        x,
                    ),
                self.origin_of(id) == pre.origin_of(id),
                forall|ip: Seq<char>| self.origin_count(ip) == pre.origin_count(ip),
                self.fanout == pre.fanout,
            decreases resources@.len() - k,
        {
            let ghost mid = *self;
            let ghost prefix = resources.deep_view().take(k as int);
            let r = &resources[k];
            let _ = self.registry.add_interest(id, r.clone());
            self.index.add(id, r);
            proof {
                let longer = resources.deep_view().take(k + 1);
                assert(longer.drop_last() =~= prefix);
                assert(longer.last() == r@);
                crate::distinct::lemma_push_to_set(prefix, r@);
                assert(longer =~= prefix.push(r@));
                assert(mid.spec_contains(id) && pre.spec_contains(id));
                assert(self.registry.interests_of(id) == mid.registry.interests_of(id).insert(
                    r@,
                ));
                assert(self.interests(id) =~= pre.interests(id).union(longer.to_set()));
                assert forall|x: u64|
                    x != id && pre.spec_contains(x) implies self.registry.rec(x)
                    == pre.registry.rec(x) by {
                    assert(self.registry.spec_contains(x) == mid.registry.spec_contains(x));
                    assert(mid.registry.spec_contains(x) == pre.registry.spec_contains(x));
                }
                assert forall|res: Seq<char>| longer.contains(res) implies self.subs(res)
                    == pre.subs(res).insert(id) by {
                    if res == r@ {
                        assert(self.index.subs(res) == mid.index.subs(res).insert(id));
                        if prefix.contains(res) {
                            assert(mid.subs(res) == pre.subs(res).insert(id));
                            assert(mid.subs(res).insert(id) =~= pre.subs(res).insert(id));
                        } else {
                            assert(mid.subs(res) == pre.subs(res));
                        }
                    } else {
                        assert(prefix.contains(res));
                        assert(self.index.subs(res) == mid.index.subs(res));
                        assert(mid.subs(res) == pre.subs(res).insert(id));
                    }
                }
                assert forall|res: Seq<char>| !longer.contains(res) implies self.subs(res)
                    == pre.subs(res) by {
                    assert(!prefix.contains(res) && res != r@);
                    assert(self.index.subs(res) == mid.index.subs(res));
                    assert(mid.subs(res) == pre.subs(res));
                }
                assert forall|x: u64, res: Seq<char>| self.index.subs(res).contains(x)
                    <==> (self.registry.spec_contains(x)
                    && self.registry.interests_of(x).contains(res)) by {
                    if x == id && res == r@ {
                    } else if x == id {
                        assert(self.index.subs(res).contains(id) == mid.index.subs(res).contains(
                            id,
                        ));
                    } else if res == r@ {
                        assert(self.index.subs(res) == mid.index.subs(res).insert(id));
                    }
                }
            }
            k = k + 1;
        }
        proof {
            assert(resources.deep_view().take(resources@.len() as int)
                =~= resources.deep_view());
        }
    }

    /// Removes every resource of `resources` from client `id`'s interests
    /// and from the index, keeping the two consistent at each step.
    fn unsubscribe_all(&mut self, id: u64, resources: &Vec<String>)
        requires
            old(self).wf(),
            old(self).spec_contains(id),
        ensures
            final(self).wf(),
            final(self).interests(id) == old(self).interests(id).difference(
                resources.deep_view().to_set(),
            ),
            forall|res: Seq<char>|
                resources.deep_view().contains(res) ==> final(self).subs(res) == old(self).subs(
                    res,
                ).remove(id),
            forall|res: Seq<char>|
                !resources.deep_view().contains(res) ==> final(self).subs(res) == old(self).subs(
                    res,
                ),
            forall|x: u64| final(self).spec_contains(x) == old(self).spec_contains(x),
            forall|x: u64|
                x != id && old(self).spec_contains(x) ==> final(self).interests(x) == old(
                    self,
                ).interests(x),
            forall|x: u64|
                old(self).spec_contains(x) ==> final(self).origin_of(x) == old(self).origin_of(
                    x,
                ),
            forall|ip: Seq<char>| final(self).origin_count(ip) == old(self).origin_count(ip),
            forall|x: u64| final(self).outbound(x) == old(self).outbound(x),
            final(self).fanout == old(self).fanout,
    {
        let ghost pre = *self;
        let mut k: usize = 0;
        while k < resources.len()
            invariant
                pre.wf(),
                pre.spec_contains(id),
                self.wf(),
                k <= resources@.len(),
                self.interests(id) == pre.interests(id).difference(
                    resources.deep_view().take(k as int).to_set(),
                ),
                forall|res: Seq<char>|
                    resources.deep_view().take(k as int).contains(res) ==> self.subs(res)
                        == pre.subs(res).remove(id),
                forall|res: Seq<char>|
                    !resources.deep_view().take(k as int).contains(res) ==> self.subs(res)
                        == pre.subs(res),
                forall|x: u64| self.spec_contains(x) == pre.spec_contains(x),
                forall|x: u64|
                    x != id && pre.spec_contains(x) ==> self.registry.rec(x) == pre.registry.rec(
                        x,
                    ),
                self.origin_of(id) == pre.origin_of(id),
                forall|ip: Seq<char>| self.origin_count(ip) == pre.origin_count(ip),
                self.fanout == pre.fanout,
            decreases resources@.len() - k,
        {
            let ghost mid = *self;
            let ghost prefix = resources.deep_view().take(k as int);
            let r = &resources[k];
            self.registry.remove_interest(id, r);
            self.index.remove(id, r);
            proof {
                let longer = resources.deep_view().take(k + 1);
                assert(longer.drop_last() =~= prefix);
                assert(longer.last() == r@);
                crate::distinct::lemma_push_to_set(prefix, r@);
                assert(longer =~= prefix.push(r@));
                assert(mid.spec_contains(id) && pre.spec_contains(id));
                assert(self.registry.interests_of(id) == mid.registry.interests_of(id).remove(
                    r@,
                ));
                assert(self.interests(id) =~= pre.interests(id).difference(longer.to_set()));
                assert forall|x: u64|
                    x != id && pre.spec_contains(x) implies self.registry.rec(x)
                    == pre.registry.rec(x) by {
                    assert(self.registry.spec_contains(x) == mid.registry.spec_contains(x));
                    assert(mid.registry.spec_contains(x) == pre.registry.spec_contains(x));
                }
                assert forall|res: Seq<char>| longer.contains(res) implies self.subs(res)
                    == pre.subs(res).remove(id) by {
                    if res == r@ {
                        assert(self.index.subs(res) == mid.index.subs(res).remove(id));
                        if prefix.contains(res) {
                            assert(mid.subs(res) == pre.subs(res).remove(id));
                            assert(mid.subs(res).remove(id) =~= pre.subs(res).remove(id));
                        } else {
                            assert(mid.subs(res) == pre.subs(res));
                        }
                    } else {
                        assert(prefix.contains(res));
                        assert(self.index.subs(res) == mid.index.subs(res));
                        assert(mid.subs(res) == pre.subs(res).remove(id));
                    }
                }
                assert forall|res: Seq<char>| !longer.contains(res) implies self.subs(res)
                    == pre.subs(res) by {
                    assert(!prefix.contains(res) && res != r@);
                    assert(self.index.subs(res) == mid.index.subs(res));
                    assert(mid.subs(res) == pre.subs(res));
                }
                assert forall|x: u64, res: Seq<char>| self.index.subs(res).contains(x)
                    <==> (self.registry.spec_contains(x)
                    && self.registry.interests_of(x).contains(res)) by {
                    if x == id && res == r@ {
                    } else if x == id {
                        assert(self.index.subs(res).contains(id) == mid.index.subs(res).contains(
                            id,
                        ));
                    } else if res == r@ {
                        assert(self.index.subs(res) == mid.index.subs(res).remove(id));
                    }
                }
            }
            k = k + 1;
        }
        proof {
            assert(resources.deep_view().take(resources@.len() as int)
                =~= resources.deep_view());
        }
    }

    /// The teardown cascade: removes client `id` from the registry, drops
    /// its identifier from every resource it was subscribed to (pruning
    /// entries it vacates), and detaches its fanout receiver. Idempotent.
    pub fn teardown(&mut self, id: u64)
        requires
            old(self).wf(),
        ensures
            final(self).wf(),
            !final(self).spec_contains(id),
            forall|res: Seq<char>| !final(self).subs(res).contains(id),
            forall|res: Seq<char>| final(self).subs(res) == old(self).subs(res).remove(id),
            forall|x: u64| x != id ==> final(self).spec_contains(x) == old(self).spec_contains(x),
            forall|x: u64|
                x != id && old(self).spec_contains(x) ==> (final(self).interests(x) == old(
                    self,
                ).interests(x) && final(self).outbound(x) == old(self).outbound(x)
                    && final(self).origin_of(x) == old(self).origin_of(x)),
            forall|ip: Seq<char>|
                ip != old(self).origin_of(id) ==> final(self).origin_count(ip) == old(
                    self,
                ).origin_count(ip),
            old(self).spec_contains(id) ==> final(self).origin_count(old(self).origin_of(id))
                == old(self).origin_count(old(self).origin_of(id)) - 1,
            !old(self).spec_contains(id) ==> *final(self) == *old(self),
    {
        let ghost pre = *self;
        match self.registry.remove(id) {
            Some(c) => {
                proof {
                    assert(c == pre.registry.rec(id));
                    assert(c.interests() == pre.interests(id));
                }
                self.index.remove_all(id, &c.subscriptions);
                self.fanout.detach(id);
                proof {
                    assert forall|x: u64|
                        x != id && pre.spec_contains(x) implies self.registry.rec(x)
                        == pre.registry.rec(x) by {
                        assert(self.registry.spec_contains(x) == pre.registry.spec_contains(x));
                    }
                    assert forall|res: Seq<char>| self.index.subs(res) == pre.index.subs(
                        res,
                    ).remove(id) by {
                        if c.subscriptions.deep_view().contains(res) {
                        } else {
                            assert(!c.interests().contains(res));
                            assert(!pre.index.subs(res).contains(id));
                            assert(pre.index.subs(res).remove(id) =~= pre.index.subs(res));
                        }
                    }
                    assert forall|x: u64, res: Seq<char>| self.index.subs(res).contains(x)
                        <==> (self.registry.spec_contains(x)
                        && self.registry.interests_of(x).contains(res)) by {
                        assert(self.index.subs(res) == pre.index.subs(res).remove(id));
                        if x != id {
                            assert(self.registry.spec_contains(x) == pre.registry.spec_contains(
                                x,
                            ));
                        }
                    }
                }
            },
            None => {
                proof {
                    assert forall|res: Seq<char>| self.subs(res) == pre.subs(res).remove(id) by {
                        assert(!pre.index.subs(res).contains(id));
                        assert(pre.index.subs(res).remove(id) =~= pre.index.subs(res));
                    }
                }
            },
        }
    }

    /// Publishes one message: it is appended to the outbound queue of every
    /// connected client, unconditionally — the fanout does not filter by
    /// subscription. Never blocks, never fails.
    pub fn publish(&mut self, message: &String)
        requires
            old(self).wf(),
        ensures
            final(self).wf(),
            forall|x: u64| final(self).spec_contains(x) == old(self).spec_contains(x),
            forall|x: u64|
                old(self).spec_contains(x) ==> final(self).outbound(x) == old(self).outbound(
                    x,
                ).push(message@),
            forall|x: u64|
                old(self).spec_contains(x) ==> (final(self).interests(x) == old(self).interests(
                    x,
                ) && final(self).origin_of(x) == old(self).origin_of(x)),
            forall|res: Seq<char>| final(self).subs(res) == old(self).subs(res),
            forall|res: Seq<char>|
                final(self).spec_has_resource(res) == old(self).spec_has_resource(res),
            forall|ip: Seq<char>| final(self).origin_count(ip) == old(self).origin_count(ip),
    {
        self.fanout.publish(message);
    }

    /// Takes the oldest undelivered message for client `id`, in publish
    /// order; `None` when its queue is empty or the client is gone.
    pub fn next_outbound(&mut self, id: u64) -> (r: Option<String>)
        requires
            old(self).wf(),
        ensures
            final(self).wf(),
            forall|x: u64| final(self).spec_contains(x) == old(self).spec_contains(x),
            forall|x: u64| x != id ==> final(self).outbound(x) == old(self).outbound(x),
            forall|x: u64|
                old(self).spec_contains(x) ==> (final(self).interests(x) == old(self).interests(
                    x,
                ) && final(self).origin_of(x) == old(self).origin_of(x)),
            forall|res: Seq<char>| final(self).subs(res) == old(self).subs(res),
            forall|res: Seq<char>|
                final(self).spec_has_resource(res) == old(self).spec_has_resource(res),
            forall|ip: Seq<char>| final(self).origin_count(ip) == old(self).origin_count(ip),
            old(self).outbound(id).len() == 0 ==> r is None && *final(self) == *old(self),
            old(self).outbound(id).len() > 0 ==> r is Some && r->0@ == old(self).outbound(id)[0]
                && final(self).outbound(id) == old(self).outbound(id).drop_first(),
    {
        self.fanout.pop_next(id)
    }

    /// Whether client `id` is currently subscribed to `resource`, as the
    /// index records it.
    pub fn is_subscribed(&self, id: u64, resource: &String) -> (r: bool)
        requires
            self.wf(),
        ensures
            r == self.subs(resource@).contains(id),
            r == (self.spec_contains(id) && self.interests(id).contains(resource@)),
    {
        self.index.is_subscribed(id, resource)
    }

    /// Whether any client at all is subscribed to `resource`.
    pub fn has_resource(&self, resource: &String) -> (r: bool)
        requires
            self.wf(),
        ensures
            r == self.spec_has_resource(resource@),
    {
        self.index.has_resource(resource)
    }

    /// Per-origin cap: in every reachable relay state, no origin holds more
    /// than `ORIGIN_CAP` simultaneous connections; together with the
    /// contract of [`Relay::accept`], the next attempt past the cap is
    /// rejected before the connection ever becomes active.
    pub proof fn lemma_per_origin_cap(self, ip: Seq<char>)
        requires
            self.wf(),
        ensures
            self.origin_count(ip) <= ORIGIN_CAP as nat,
    {
        self.registry.lemma_origin_cap(ip);
    }

    /// Subscription/index consistency: a resource is in a client's interest
    /// set exactly when the client's identifier stands under that resource
    /// in the subscription index. Every mutating operation returns a
    /// well-formed relay, so this holds after each of them.
    pub proof fn lemma_consistency(self, id: u64, r: Seq<char>)
        requires
            self.wf(),
        ensures
            self.subs(r).contains(id) <==> (self.spec_contains(id) && self.interests(
                id,
            ).contains(r)),
    {
    }

    /// No vacated entries linger: the index holds an entry for a resource
    /// exactly when some still-connected client is subscribed to it.
    pub proof fn lemma_entries_live(self, r: Seq<char>)
        requires
            self.wf(),
        ensures
            self.spec_has_resource(r) <==> exists|x: u64|
                self.subs(r).contains(x) && self.spec_contains(x),
    {
        self.index.lemma_entry_iff_subscriber(r);
        if self.spec_has_resource(r) {
            if forall|x: u64| !(#[trigger] self.subs(r).contains(x)) {
                assert(self.subs(r) =~= Set::empty());
            }
            let x = choose|x: u64| self.subs(r).contains(x);
            assert(self.spec_contains(x));
        }
        if exists|x: u64| self.subs(r).contains(x) && self.spec_contains(x) {
            let x = choose|x: u64| self.subs(r).contains(x) && self.spec_contains(x);
            assert(self.subs(r) !== Set::empty());
        }
    }
}

/// Subscribing is idempotent: adding the same resource set again changes
/// neither an interest set nor a subscriber set. With the contract of
/// [`Relay::handle_message`], a repeated `sub` request leaves the relay
/// exactly where the first one did.
pub proof fn lemma_subscribe_idempotent(
    interests: Set<Seq<char>>,
    subscribers: Set<u64>,
    id: u64,
    rs: Set<Seq<char>>,
)
    ensures
        interests.union(rs).union(rs) == interests.union(rs),
        subscribers.insert(id).insert(id) == subscribers.insert(id),
{
    assert(interests.union(rs).union(rs) =~= interests.union(rs));
    assert(subscribers.insert(id).insert(id) =~= subscribers.insert(id));
}

/// Unsubscribing from a resource never subscribed to changes nothing: with
/// the contract of [`Relay::handle_message`], such an `unsub` is a safe
/// no-op that still yields the same success acknowledgement.
pub proof fn lemma_unsubscribe_absent(subscribers: Set<u64>, id: u64)
    requires
        !subscribers.contains(id),
    ensures
        subscribers.remove(id) == subscribers,
{
    assert(subscribers.remove(id) =~= subscribers);
}

} // verus!
