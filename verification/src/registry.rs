//! Connection registry: the authoritative set of currently connected clients.
//! It enforces the per-origin connection limit at admission, allocates
//! process-unique client identifiers, and is the source of truth for whether
//! a client is still alive.

use crate::distinct::{lemma_push_distinct, lemma_push_to_set, lemma_remove_to_set};
use crate::messages::Client;
use vstd::prelude::*;

verus! {

/// Largest number of simultaneous connections allowed per distinct origin
/// address.
pub const ORIGIN_CAP: usize = 10;

/// Whether some position of `s` holds a client with identifier `id`.
pub open spec fn has_id(s: Seq<Client>, id: u64) -> bool {
    exists|i: int| 0 <= i < s.len() && s[i].id == id
}

/// The client record with identifier `id` (meaningful only when `has_id`).
pub open spec fn rec_at(s: Seq<Client>, id: u64) -> Client {
    s[choose|i: int| 0 <= i < s.len() && s[i].id == id]
}

/// No two positions of `s` hold the same client identifier.
pub open spec fn ids_distinct(s: Seq<Client>) -> bool {
    forall|i: int, j: int| 0 <= i < j < s.len() ==> s[i].id != s[j].id
}

/// How many clients of `s` connected from origin `ip`.
pub open spec fn count_ip(s: Seq<Client>, ip: Seq<char>) -> nat
    decreases s.len(),
{
    if s.len() == 0 {
        0
    } else {
        count_ip(s.drop_last(), ip) + (if s.last().ip@ == ip {
            1nat
        } else {
            0nat
        })
    }
}

proof fn lemma_count_push(s: Seq<Client>, c: Client, ip: Seq<char>)
    ensures
        count_ip(s.push(c), ip) == count_ip(s, ip) + (if c.ip@ == ip {
            1nat
        } else {
            0nat
        }),
{
    assert(s.push(c).drop_last() =~= s);
    assert(s.push(c).last() == c);
}

proof fn lemma_count_remove(s: Seq<Client>, i: int, ip: Seq<char>)
    requires
        0 <= i < s.len(),
    ensures
        count_ip(s, ip) == count_ip(s.remove(i), ip) + (if s[i].ip@ == ip {
            1nat
        } else {
            0nat
        }),
    decreases s.len(),
{
    if i == s.len() - 1 {
        assert(s.remove(i) =~= s.drop_last());
    } else {
        assert(s.remove(i).drop_last() =~= s.drop_last().remove(i));
        assert(s.remove(i).last() == s.last());
        lemma_count_remove(s.drop_last(), i, ip);
    }
}

proof fn lemma_count_update(s: Seq<Client>, i: int, c: Client, ip: Seq<char>)
    requires
        0 <= i < s.len(),
        s[i].ip@ == c.ip@,
    ensures
        count_ip(s.update(i, c), ip) == count_ip(s, ip),
    decreases s.len(),
{
    if i == s.len() - 1 {
        assert(s.update(i, c).drop_last() =~= s.drop_last());
        assert(s.update(i, c).last() == c);
    } else {
        assert(s.update(i, c).drop_last() =~= s.drop_last().update(i, c));
        assert(s.update(i, c).last() == s.last());
        lemma_count_update(s.drop_last(), i, c, ip);
    }
}

/// With distinct identifiers, the record found for the identifier at a known
/// position is the record at that position.
proof fn lemma_rec_at(s: Seq<Client>, j: int)
    requires
        ids_distinct(s),
        0 <= j < s.len(),
    ensures
        has_id(s, s[j].id),
        rec_at(s, s[j].id) == s[j],
{
    assert(has_id(s, s[j].id));
    let i = choose|i: int| 0 <= i < s.len() && s[i].id == s[j].id;
    if i != j {
        assert(s[i].id != s[j].id);
    }
}

/// Deleting position `i` affects only the identifier that stood there.
proof fn lemma_remove_id_frame(s: Seq<Client>, i: int)
    requires
        ids_distinct(s),
        0 <= i < s.len(),
    ensures
        ids_distinct(s.remove(i)),
        !has_id(s.remove(i), s[i].id),
        forall|x: u64| x != s[i].id ==> has_id(s.remove(i), x) == has_id(s, x),
        forall|x: u64|
            x != s[i].id && has_id(s, x) ==> rec_at(s.remove(i), x) == rec_at(s, x),
{
    let t = s.remove(i);
    assert forall|a: int, b: int| 0 <= a < b < t.len() implies t[a].id != t[b].id by {
        let a0: int = if a < i {
            a
        } else {
            a + 1
        };
        let b0: int = if b < i {
            b
        } else {
            b + 1
        };
        assert(t[a] == s[a0] && t[b] == s[b0]);
    }
    assert forall|k: int| 0 <= k < t.len() implies t[k].id != s[i].id by {
        let k0: int = if k < i {
            k
        } else {
            k + 1
        };
        assert(t[k] == s[k0]);
    }
    assert forall|x: u64| x != s[i].id && has_id(t, x) implies has_id(s, x) && rec_at(t, x)
        == rec_at(s, x) by {
        let k = choose|k: int| 0 <= k < t.len() && t[k].id == x;
        let k0: int = if k < i {
            k
        } else {
            k + 1
        };
        assert(t[k] == s[k0]);
        lemma_rec_at(s, k0);
        lemma_rec_at(t, k);
    }
    assert forall|x: u64| x != s[i].id && has_id(s, x) implies has_id(t, x) by {
        let k = choose|k: int| 0 <= k < s.len() && s[k].id == x;
        if k < i {
            assert(t[k] == s[k]);
        } else if k > i {
            assert(t[k - 1] == s[k]);
        }
    }
}

/// Replacing the record at position `i` by one with the same identifier
/// affects no other identifier.
proof fn lemma_update_id_frame(s: Seq<Client>, i: int, c: Client)
    requires
        ids_distinct(s),
        0 <= i < s.len(),
        c.id == s[i].id,
    ensures
        ids_distinct(s.update(i, c)),
        forall|x: u64| has_id(s.update(i, c), x) == has_id(s, x),
        rec_at(s.update(i, c), c.id) == c,
        forall|x: u64| x != c.id && has_id(s, x) ==> rec_at(s.update(i, c), x) == rec_at(s, x),
{
    let t = s.update(i, c);
    assert forall|x: u64| has_id(t, x) == has_id(s, x) by {
        if has_id(t, x) {
            let k = choose|k: int| 0 <= k < t.len() && t[k].id == x;
            assert(s[k].id == x);
        }
        if has_id(s, x) {
            let k = choose|k: int| 0 <= k < s.len() && s[k].id == x;
            assert(t[k].id == x);
        }
    }
    lemma_rec_at(t, i);
    assert forall|x: u64| x != c.id && has_id(s, x) implies rec_at(t, x) == rec_at(s, x) by {
        let k = choose|k: int| 0 <= k < s.len() && s[k].id == x;
        assert(k != i);
        assert(t[k] == s[k]);
        lemma_rec_at(s, k);
        lemma_rec_at(t, k);
    }
}

/// Appending a record with a fresh identifier affects no other identifier.
proof fn lemma_push_id_frame(s: Seq<Client>, c: Client)
    requires
        ids_distinct(s),
        !has_id(s, c.id),
    ensures
        ids_distinct(s.push(c)),
        has_id(s.push(c), c.id),
        rec_at(s.push(c), c.id) == c,
        forall|x: u64| x != c.id ==> has_id(s.push(c), x) == has_id(s, x),
        forall|x: u64| x != c.id && has_id(s, x) ==> rec_at(s.push(c), x) == rec_at(s, x),
{
    let t = s.push(c);
    assert forall|a: int, b: int| 0 <= a < b < t.len() implies t[a].id != t[b].id by {
        if b < s.len() {
            assert(t[a] == s[a] && t[b] == s[b]);
        } else {
            assert(t[b] == c && t[a] == s[a]);
            assert(has_id(s, s[a].id));
        }
    }
    assert(t[s.len() as int] == c);
    lemma_rec_at(t, s.len() as int);
    assert forall|x: u64| x != c.id implies has_id(t, x) == has_id(s, x) by {
        if has_id(t, x) {
            let k = choose|k: int| 0 <= k < t.len() && t[k].id == x;
            assert(k < s.len());
            assert(s[k].id == x);
        }
        if has_id(s, x) {
            let k = choose|k: int| 0 <= k < s.len() && s[k].id == x;
            assert(t[k].id == x);
        }
    }
    assert forall|x: u64| x != c.id && has_id(s, x) implies rec_at(t, x) == rec_at(s, x) by {
        let k = choose|k: int| 0 <= k < s.len() && s[k].id == x;
        assert(t[k] == s[k]);
        lemma_rec_at(s, k);
        lemma_rec_at(t, k);
    }
}

/// The authoritative map of connected clients, with the next identifier to
/// hand out. A client identifier present here denotes a live connection;
/// absence is the authoritative "client is gone" signal.
pub struct ConnectionRegistry {
    clients: Vec<Client>,
    next_id: u64,
}

impl ConnectionRegistry {
    /// Whether a client with this identifier is currently registered.
    pub closed spec fn spec_contains(self, id: u64) -> bool {
        has_id(self.clients@, id)
    }

    /// The record of the client with this identifier (meaningful only when
    /// `spec_contains(id)`).
    pub closed spec fn rec(self, id: u64) -> Client {
        rec_at(self.clients@, id)
    }

    /// The origin address the client with this identifier connected from.
    pub open spec fn origin_of(self, id: u64) -> Seq<char> {
        self.rec(id).ip@
    }

    /// The interest set of the client with this identifier.
    pub open spec fn interests_of(self, id: u64) -> Set<Seq<char>> {
        self.rec(id).interests()
    }

    /// How many currently registered clients connected from origin `ip`.
    pub closed spec fn origin_count(self, ip: Seq<char>) -> nat {
        count_ip(self.clients@, ip)
    }

    /// Whether the identifier space is used up; identifiers are never reused,
    /// so admission rejects once it is.
    pub closed spec fn ids_exhausted(self) -> bool {
        self.next_id == u64::MAX
    }

    /// How many clients are currently registered.
    pub closed spec fn client_count(self) -> nat {
        self.clients@.len()
    }

    /// Well-formedness: identifiers are unique and below the allocation
    /// counter, every record's interest list is free of repeats, and no
    /// origin holds more than `ORIGIN_CAP` connections.
    pub closed spec fn wf(self) -> bool {
        &&& ids_distinct(self.clients@)
        &&& forall|i: int|
            0 <= i < self.clients@.len() ==> (#[trigger] self.clients@[i]).id < self.next_id
        &&& forall|i: int| 0 <= i < self.clients@.len() ==> (#[trigger] self.clients@[i]).wf()
        &&& forall|ip: Seq<char>| count_ip(self.clients@, ip) <= ORIGIN_CAP
    }

    /// Both registries hold the same clients, with the same records, except
    /// possibly at identifier `id`.
    pub open spec fn same_except(pre: ConnectionRegistry, post: ConnectionRegistry, id: u64) -> bool {
        forall|x: u64|
            x != id ==> {
                &&& (#[trigger] post.spec_contains(x)) == pre.spec_contains(x)
                &&& (pre.spec_contains(x) ==> post.rec(x) == pre.rec(x))
            }
    }

    /// A well-formed registry never holds more than `ORIGIN_CAP` clients
    /// from one origin: admission is the only way in, and it rejects at the
    /// cap.
    pub proof fn lemma_origin_cap(self, ip: Seq<char>)
        requires
            self.wf(),
        ensures
            self.origin_count(ip) <= ORIGIN_CAP as nat,
    {
    }

    /// An empty registry.
    pub fn new() -> (r: ConnectionRegistry)
        ensures
            r.wf(),
            r.client_count() == 0,
            forall|id: u64| !r.spec_contains(id),
            forall|ip: Seq<char>| r.origin_count(ip) == 0,
            !r.ids_exhausted(),
    {
        ConnectionRegistry { clients: Vec::new(), next_id: 0 }
    }

    /// The position of the client with this identifier, if registered.
    fn find_index(&self, id: u64) -> (r: Option<usize>)
        ensures
            match r {
                Some(i) => i < self.clients@.len() && self.clients@[i as int].id == id,
                None => !self.spec_contains(id),
            },
    {
        let mut i: usize = 0;
        while i < self.clients.len()
            invariant
                i <= self.clients@.len(),
                forall|k: int| 0 <= k < i ==> (#[trigger] self.clients@[k]).id != id,
            decreases self.clients@.len() - i,
        {
            if self.clients[i].id == id {
                return Some(i);
            }
            i = i + 1;
        }
        None
    }

    /// How many currently registered clients connected from this origin.
    pub fn origin_count_now(&self, origin: &String) -> (n: usize)
        ensures
            n == self.origin_count(origin@),
    {
        let mut n: usize = 0;
        let mut i: usize = 0;
        while i < self.clients.len()
            invariant
                i <= self.clients@.len(),
                n <= i,
                n == count_ip(self.clients@.take(i as int), origin@),
            decreases self.clients@.len() - i,
        {
            proof {
                assert(self.clients@.take(i + 1).drop_last() =~= self.clients@.take(i as int));
                assert(self.clients@.take(i + 1).last() == self.clients@[i as int]);
            }
            if self.clients[i].ip == *origin {
                n = n + 1;
            }
            i = i + 1;
        }
        proof {
            assert(self.clients@.take(self.clients@.len() as int) =~= self.clients@);
        }
        n
    }

    /// Admission: if fewer than `ORIGIN_CAP` registered clients share this
    /// origin (and identifiers are not exhausted), registers a fresh client
    /// with an empty interest set and returns its new identifier; otherwise
    /// rejects and leaves the registry unchanged.
    pub fn accept(&mut self, origin: String) -> (r: Option<u64>)
        requires
            old(self).wf(),
        ensures
            final(self).wf(),
            r is Some <==> (old(self).origin_count(origin@) < ORIGIN_CAP as nat && !old(
                self,
            ).ids_exhausted()),
            r is None ==> *final(self) == *old(self),
            r is Some ==> !old(self).spec_contains(r->0),
            r is Some ==> final(self).spec_contains(r->0),
            r is Some ==> final(self).origin_of(r->0) == origin@,
            r is Some ==> final(self).interests_of(r->0) == Set::<Seq<char>>::empty(),
            r is Some ==> final(self).origin_count(origin@) == old(self).origin_count(origin@)
                + 1,
            r is Some ==> forall|ip: Seq<char>|
                ip != origin@ ==> final(self).origin_count(ip) == old(self).origin_count(ip),
            r is Some ==> ConnectionRegistry::same_except(*old(self), *final(self), r->0),
            r is Some ==> final(self).client_count() == old(self).client_count() + 1,
    {
        let n = self.origin_count_now(&origin);
        if n >= ORIGIN_CAP || self.next_id == u64::MAX {
            return None;
        }
        let id = self.next_id;
        self.next_id = id + 1;
        let c = Client { id, ip: origin, subscriptions: Vec::new() };
        proof {
            assert(!has_id(self.clients@, id));
            lemma_push_id_frame(self.clients@, c);
            assert forall|ip: Seq<char>|
                #[trigger] count_ip(self.clients@.push(c), ip) <= ORIGIN_CAP && (ip != c.ip@
                    ==> count_ip(self.clients@.push(c), ip) == count_ip(self.clients@, ip)) by {
                lemma_count_push(self.clients@, c, ip);
            }
            lemma_count_push(self.clients@, c, c.ip@);
            assert(c.subscriptions.deep_view() =~= Seq::<Seq<char>>::empty());
            assert(c.interests() =~= Set::<Seq<char>>::empty());
        }
        self.clients.push(c);
        Some(id)
    }

    /// Whether the client with this identifier is still registered.
    pub fn is_alive(&self, id: u64) -> (r: bool)
        ensures
            r == self.spec_contains(id),
    {
        match self.find_index(id) {
            Some(i) => {
                proof {
                    assert(has_id(self.clients@, id));
                }
                true
            },
            None => false,
        }
    }

    /// Removes the client with this identifier and returns its record;
    /// idempotent — removing an absent identifier changes nothing.
    pub fn remove(&mut self, id: u64) -> (r: Option<Client>)
        requires
            old(self).wf(),
        ensures
            final(self).wf(),
            !final(self).spec_contains(id),
            ConnectionRegistry::same_except(*old(self), *final(self), id),
            forall|ip: Seq<char>|
                ip != old(self).origin_of(id) ==> final(self).origin_count(ip) == old(
                    self,
                ).origin_count(ip),
            old(self).spec_contains(id) ==> {
                &&& r == Some(old(self).rec(id))
                &&& final(self).origin_count(old(self).origin_of(id)) == old(self).origin_count(
                    old(self).origin_of(id),
                ) - 1
                &&& final(self).client_count() == old(self).client_count() - 1
            },
            !old(self).spec_contains(id) ==> r is None && *final(self) == *old(self),
    {
        match self.find_index(id) {
            Some(i) => {
                proof {
                    lemma_rec_at(self.clients@, i as int);
                    lemma_remove_id_frame(self.clients@, i as int);
                    assert forall|ip: Seq<char>| #[trigger] count_ip(
                        self.clients@.remove(i as int),
                        ip,
                    ) <= ORIGIN_CAP && (ip != self.clients@[i as int].ip@ ==> count_ip(
                        self.clients@.remove(i as int),
                        ip,
                    ) == count_ip(self.clients@, ip)) by {
                        lemma_count_remove(self.clients@, i as int, ip);
                    }
                    lemma_count_remove(self.clients@, i as int, self.clients@[i as int].ip@);
                }
                let c = self.clients.remove(i);
                Some(c)
            },
            None => None,
        }
    }

    /// Adds `resource` to the interest set of client `id` (no effect on an
    /// unregistered identifier). Idempotent per pair: returns whether the
    /// interest was new.
    pub fn add_interest(&mut self, id: u64, resource: String) -> (added: bool)
        requires
            old(self).wf(),
        ensures
            final(self).wf(),
            ConnectionRegistry::same_except(*old(self), *final(self), id),
            final(self).spec_contains(id) == old(self).spec_contains(id),
            forall|ip: Seq<char>| final(self).origin_count(ip) == old(self).origin_count(ip),
            !old(self).spec_contains(id) ==> *final(self) == *old(self) && !added,
            old(self).spec_contains(id) ==> {
                &&& final(self).interests_of(id) == old(self).interests_of(id).insert(resource@)
                &&& final(self).origin_of(id) == old(self).origin_of(id)
                &&& added == !old(self).interests_of(id).contains(resource@)
            },
    {
        match self.find_index(id) {
            Some(i) => {
                proof {
                    lemma_rec_at(self.clients@, i as int);
                }
                let ghost pre = self.clients@;
                let present = contains_string(&self.clients[i].subscriptions, &resource);
                if present {
                    proof {
                        assert(self.rec(id).interests().insert(resource@) =~= self.rec(
                            id,
                        ).interests());
                    }
                    return false;
                }
                let ghost oldc = self.clients@[i as int];
                self.clients[i].subscriptions.push(resource);
                proof {
                    let c = self.clients@[i as int];
                    assert(self.clients@ =~= pre.update(i as int, c));
                    assert(c.subscriptions.deep_view() =~= oldc.subscriptions.deep_view().push(
                        resource@,
                    ));
                    lemma_push_to_set(oldc.subscriptions.deep_view(), resource@);
                    assert(!oldc.subscriptions.deep_view().contains(resource@));
                    lemma_push_distinct(oldc.subscriptions.deep_view(), resource@);
                    lemma_update_id_frame(pre, i as int, c);
                    assert forall|ip: Seq<char>| #[trigger] count_ip(self.clients@, ip)
                        == count_ip(pre, ip) by {
                        lemma_count_update(pre, i as int, c, ip);
                    }
                }
                true
            },
            None => false,
        }
    }

    /// Drops `resource` from the interest set of client `id` (no effect on an
    /// unregistered identifier or an interest never held).
    pub fn remove_interest(&mut self, id: u64, resource: &String)
        requires
            old(self).wf(),
        ensures
            final(self).wf(),
            ConnectionRegistry::same_except(*old(self), *final(self), id),
            final(self).spec_contains(id) == old(self).spec_contains(id),
            forall|ip: Seq<char>| final(self).origin_count(ip) == old(self).origin_count(ip),
            !old(self).spec_contains(id) ==> *final(self) == *old(self),
            old(self).spec_contains(id) ==> {
                &&& final(self).interests_of(id) == old(self).interests_of(id).remove(resource@)
                &&& final(self).origin_of(id) == old(self).origin_of(id)
            },
    {
        match self.find_index(id) {
            Some(i) => {
                proof {
                    lemma_rec_at(self.clients@, i as int);
                }
                let ghost pre = self.clients@;
                let ghost oldc = self.clients@[i as int];
                match find_string(&self.clients[i].subscriptions, resource) {
                    Some(j) => {
                        let _ = self.clients[i].subscriptions.remove(j);
                        proof {
                            let c = self.clients@[i as int];
                            assert(self.clients@ =~= pre.update(i as int, c));
                            assert(c.subscriptions.deep_view()
                                =~= oldc.subscriptions.deep_view().remove(j as int));
                            lemma_remove_to_set(oldc.subscriptions.deep_view(), j as int);
                            lemma_update_id_frame(pre, i as int, c);
                            assert forall|ip: Seq<char>| #[trigger] count_ip(self.clients@, ip)
                                == count_ip(pre, ip) by {
                                lemma_count_update(pre, i as int, c, ip);
                            }
                        }
                    },
                    None => {
                        proof {
                            assert(oldc.interests().remove(resource@) =~= oldc.interests());
                        }
                    },
                }
            },
            None => {},
        }
    }
}

/// Whether some element of `v` equals `x`, as strings.
pub fn contains_string(v: &Vec<String>, x: &String) -> (r: bool)
    ensures
        r == v.deep_view().to_set().contains(x@),
{
    match find_string(v, x) {
        Some(i) => {
            proof {
                assert(v.deep_view().contains(x@));
            }
            true
        },
        None => false,
    }
}

/// The first position of `v` whose element equals `x`, as strings.
pub fn find_string(v: &Vec<String>, x: &String) -> (r: Option<usize>)
    ensures
        match r {
            Some(i) => i < v.deep_view().len() && v.deep_view()[i as int] == x@,
            None => !v.deep_view().to_set().contains(x@),
        },
{
    let mut i: usize = 0;
    while i < v.len()
        invariant
            i <= v@.len(),
            forall|k: int| 0 <= k < i ==> v.deep_view()[k] != x@,
        decreases v@.len() - i,
    {
        if v[i] == *x {
            proof {
                assert(v.deep_view()[i as int] == x@);
            }
            return Some(i);
        }
        i = i + 1;
    }
    proof {
        assert forall|y: Seq<char>| v.deep_view().contains(y) implies y != x@ by {
            let k = choose|k: int| 0 <= k < v.deep_view().len() && v.deep_view()[k] == y;
        }
    }
    None
}

} // verus!
