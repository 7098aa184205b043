//! Subscription index: the mapping from resource name to the set of
//! interested client identifiers. A resource key exists if and only if its
//! subscriber list is non-empty — entries vacated by their last subscriber
//! are pruned immediately.

use crate::distinct::{distinct_seq, lemma_push_distinct, lemma_push_to_set, lemma_remove_to_set};
use vstd::prelude::*;

verus! {

struct ResourceEntry {
    resource: String,
    subscribers: Vec<u64>,
}

spec fn has_res(s: Seq<ResourceEntry>, r: Seq<char>) -> bool {
    exists|i: int| 0 <= i < s.len() && s[i].resource@ == r
}

spec fn ent_at(s: Seq<ResourceEntry>, r: Seq<char>) -> ResourceEntry {
    s[choose|i: int| 0 <= i < s.len() && s[i].resource@ == r]
}

spec fn res_distinct(s: Seq<ResourceEntry>) -> bool {
    forall|i: int, j: int| 0 <= i < j < s.len() ==> s[i].resource@ != s[j].resource@
}

proof fn lemma_ent_at(s: Seq<ResourceEntry>, j: int)
    requires
        res_distinct(s),
        0 <= j < s.len(),
    ensures
        has_res(s, s[j].resource@),
        ent_at(s, s[j].resource@) == s[j],
{
    assert(has_res(s, s[j].resource@));
    let i = choose|i: int| 0 <= i < s.len() && s[i].resource@ == s[j].resource@;
    if i != j {
        assert(s[i].resource@ != s[j].resource@);
    }
}

proof fn lemma_remove_res_frame(s: Seq<ResourceEntry>, i: int)
    requires
        res_distinct(s),
        0 <= i < s.len(),
    ensures
        res_distinct(s.remove(i)),
        !has_res(s.remove(i), s[i].resource@),
        forall|r: Seq<char>| r != s[i].resource@ ==> has_res(s.remove(i), r) == has_res(s, r),
        forall|r: Seq<char>|
            r != s[i].resource@ && has_res(s, r) ==> ent_at(s.remove(i), r) == ent_at(s, r),
{
    let t = s.remove(i);
    assert forall|a: int, b: int| 0 <= a < b < t.len() implies t[a].resource@ != t[b].resource@ by {
        let a0: int = if a < i {
            a
        } else {
            a + 1
        };
        let b0: int = if b < i {
            b
        } else {
            b + 1
        };
        assert(t[a] == s[a0] && t[b] == s[b0]);
    }
    assert forall|k: int| 0 <= k < t.len() implies t[k].resource@ != s[i].resource@ by {
        let k0: int = if k < i {
            k
        } else {
            k + 1
        };
        assert(t[k] == s[k0]);
    }
    assert forall|r: Seq<char>| r != s[i].resource@ && has_res(t, r) implies has_res(s, r) && ent_at(
        t,
        r,
    ) == ent_at(s, r) by {
        let k = choose|k: int| 0 <= k < t.len() && t[k].resource@ == r;
        let k0: int = if k < i {
            k
        } else {
            k + 1
        };
        assert(t[k] == s[k0]);
        lemma_ent_at(s, k0);
        lemma_ent_at(t, k);
    }
    assert forall|r: Seq<char>| r != s[i].resource@ && has_res(s, r) implies has_res(t, r) by {
        let k = choose|k: int| 0 <= k < s.len() && s[k].resource@ == r;
        if k < i {
            assert(t[k] == s[k]);
        } else if k > i {
            assert(t[k - 1] == s[k]);
        }
    }
}

proof fn lemma_update_res_frame(s: Seq<ResourceEntry>, i: int, e: ResourceEntry)
    requires
        res_distinct(s),
        0 <= i < s.len(),
        e.resource@ == s[i].resource@,
    ensures
        res_distinct(s.update(i, e)),
        forall|r: Seq<char>| has_res(s.update(i, e), r) == has_res(s, r),
        ent_at(s.update(i, e), e.resource@) == e,
        forall|r: Seq<char>|
            r != e.resource@ && has_res(s, r) ==> ent_at(s.update(i, e), r) == ent_at(s, r),
{
    let t = s.update(i, e);
    assert forall|r: Seq<char>| has_res(t, r) == has_res(s, r) by {
        if has_res(t, r) {
            let k = choose|k: int| 0 <= k < t.len() && t[k].resource@ == r;
            assert(s[k].resource@ == r);
        }
        if has_res(s, r) {
            let k = choose|k: int| 0 <= k < s.len() && s[k].resource@ == r;
            assert(t[k].resource@ == r);
        }
    }
    lemma_ent_at(t, i);
    assert forall|r: Seq<char>| r != e.resource@ && has_res(s, r) implies ent_at(t, r) == ent_at(
        s,
        r,
    ) by {
        let k = choose|k: int| 0 <= k < s.len() && s[k].resource@ == r;
        assert(k != i);
        assert(t[k] == s[k]);
        lemma_ent_at(s, k);
        lemma_ent_at(t, k);
    }
}

proof fn lemma_push_res_frame(s: Seq<ResourceEntry>, e: ResourceEntry)
    requires
        res_distinct(s),
        !has_res(s, e.resource@),
    ensures
        res_distinct(s.push(e)),
        has_res(s.push(e), e.resource@),
        ent_at(s.push(e), e.resource@) == e,
        forall|r: Seq<char>| r != e.resource@ ==> has_res(s.push(e), r) == has_res(s, r),
        forall|r: Seq<char>|
            r != e.resource@ && has_res(s, r) ==> ent_at(s.push(e), r) == ent_at(s, r),
{
    let t = s.push(e);
    assert forall|a: int, b: int| 0 <= a < b < t.len() implies t[a].resource@ != t[b].resource@ by {
        if b < s.len() {
            assert(t[a] == s[a] && t[b] == s[b]);
        } else {
            assert(t[b] == e && t[a] == s[a]);
            assert(has_res(s, s[a].resource@));
        }
    }
    assert(t[s.len() as int] == e);
    lemma_ent_at(t, s.len() as int);
    assert forall|r: Seq<char>| r != e.resource@ implies has_res(t, r) == has_res(s, r) by {
        if has_res(t, r) {
            let k = choose|k: int| 0 <= k < t.len() && t[k].resource@ == r;
            assert(k < s.len());
            assert(s[k].resource@ == r);
        }
        if has_res(s, r) {
            let k = choose|k: int| 0 <= k < s.len() && s[k].resource@ == r;
            assert(t[k].resource@ == r);
        }
    }
    assert forall|r: Seq<char>| r != e.resource@ && has_res(s, r) implies ent_at(t, r) == ent_at(
        s,
        r,
    ) by {
        let k = choose|k: int| 0 <= k < s.len() && s[k].resource@ == r;
        assert(t[k] == s[k]);
        lemma_ent_at(s, k);
        lemma_ent_at(t, k);
    }
}

/// The mapping from resource name to the set of subscribed client
/// identifiers.
pub struct SubscriptionIndex {
    entries: Vec<ResourceEntry>,
}

impl SubscriptionIndex {
    /// The set of client identifiers subscribed to resource `r` (empty when
    /// the resource has no entry).
    pub closed spec fn subs(self, r: Seq<char>) -> Set<u64> {
        if has_res(self.entries@, r) {
            ent_at(self.entries@, r).subscribers@.to_set()
        } else {
            Set::empty()
        }
    }

    /// Whether the index holds an entry for resource `r`.
    pub closed spec fn spec_has(self, r: Seq<char>) -> bool {
        has_res(self.entries@, r)
    }

    /// Well-formedness: resource keys are unique, subscriber lists are free
    /// of repeats, and no entry is empty.
    pub closed spec fn wf(self) -> bool {
        &&& res_distinct(self.entries@)
        &&& forall|i: int|
            0 <= i < self.entries@.len() ==> distinct_seq(
                (#[trigger] self.entries@[i]).subscribers@,
            )
        &&& forall|i: int|
            0 <= i < self.entries@.len() ==> (#[trigger] self.entries@[i]).subscribers@.len() > 0
    }

    /// A well-formed index holds an entry for a resource exactly when some
    /// client is subscribed to it: vacated entries never linger.
    pub proof fn lemma_entry_iff_subscriber(self, r: Seq<char>)
        requires
            self.wf(),
        ensures
            self.spec_has(r) <==> self.subs(r) !== Set::empty(),
    {
        if self.spec_has(r) {
            let i = choose|i: int| 0 <= i < self.entries@.len() && self.entries@[i].resource@ == r;
            lemma_ent_at(self.entries@, i);
            let e = self.entries@[i];
            assert(e.subscribers@.to_set().contains(e.subscribers@[0]));
            assert(self.subs(r).contains(e.subscribers@[0]));
        }
    }

    /// An empty index.
    pub fn new() -> (r: SubscriptionIndex)
        ensures
            r.wf(),
            forall|res: Seq<char>| r.subs(res) == Set::<u64>::empty(),
            forall|res: Seq<char>| !r.spec_has(res),
    {
        SubscriptionIndex { entries: Vec::new() }
    }

    fn find_res(&self, resource: &String) -> (r: Option<usize>)
        ensures
            match r {
                Some(i) => i < self.entries@.len() && self.entries@[i as int].resource@
                    == resource@,
                None => !self.spec_has(resource@),
            },
    {
        let mut i: usize = 0;
        while i < self.entries.len()
            invariant
                i <= self.entries@.len(),
                forall|k: int| 0 <= k < i ==> (#[trigger] self.entries@[k]).resource@ != resource@,
            decreases self.entries@.len() - i,
        {
            if self.entries[i].resource == *resource {
                return Some(i);
            }
            i = i + 1;
        }
        None
    }

    /// Inserts `client_id` into the subscriber set of `resource`, creating
    /// the entry if absent. Idempotent per (client, resource) pair.
    pub fn add(&mut self, client_id: u64, resource: &String)
        requires
            old(self).wf(),
        ensures
            final(self).wf(),
            final(self).subs(resource@) == old(self).subs(resource@).insert(client_id),
            final(self).spec_has(resource@),
            forall|r: Seq<char>| r != resource@ ==> final(self).subs(r) == old(self).subs(r),
            forall|r: Seq<char>|
                r != resource@ ==> final(self).spec_has(r) == old(self).spec_has(r),
    {
        let ghost pre = self.entries@;
        match self.find_res(resource) {
            Some(i) => {
                proof {
                    lemma_ent_at(pre, i as int);
                }
                if contains_u64(&self.entries[i].subscribers, client_id) {
                    proof {
                        assert(self.subs(resource@).insert(client_id) =~= self.subs(resource@));
                    }
                } else {
                    let ghost olde = self.entries@[i as int];
                    self.entries[i].subscribers.push(client_id);
                    proof {
                        let e = self.entries@[i as int];
                        assert(self.entries@ =~= pre.update(i as int, e));
                        lemma_push_to_set(olde.subscribers@, client_id);
                        lemma_push_distinct(olde.subscribers@, client_id);
                        lemma_update_res_frame(pre, i as int, e);
                    }
                }
            },
            None => {
                let mut subscribers: Vec<u64> = Vec::new();
                subscribers.push(client_id);
                let e = ResourceEntry { resource: resource.clone(), subscribers };
                proof {
                    lemma_push_res_frame(pre, e);
                    assert(e.subscribers@.len() == 1 && e.subscribers@[0] == client_id);
                    assert forall|y: u64| e.subscribers@.to_set().contains(y) implies y
                        == client_id by {
                        let k = choose|k: int|
                            0 <= k < e.subscribers@.len() && e.subscribers@[k] == y;
                    }
                    assert(e.subscribers@.contains(client_id));
                    assert(e.subscribers@.to_set() =~= Set::<u64>::empty().insert(client_id));
                }
                self.entries.push(e);
            },
        }
    }

    /// Removes `client_id` from the subscriber set of `resource`; if that
    /// empties the set, deletes the resource entry entirely. A safe no-op
    /// when the client was never subscribed.
    pub fn remove(&mut self, client_id: u64, resource: &String)
        requires
            old(self).wf(),
        ensures
            final(self).wf(),
            final(self).subs(resource@) == old(self).subs(resource@).remove(client_id),
            forall|r: Seq<char>| r != resource@ ==> final(self).subs(r) == old(self).subs(r),
            forall|r: Seq<char>|
                r != resource@ ==> final(self).spec_has(r) == old(self).spec_has(r),
    {
        let ghost pre = self.entries@;
        match self.find_res(resource) {
            Some(i) => {
                proof {
                    lemma_ent_at(pre, i as int);
                }
                match find_u64(&self.entries[i].subscribers, client_id) {
                    Some(j) => {
                        let ghost olde = self.entries@[i as int];
                        let _ = self.entries[i].subscribers.remove(j);
                        proof {
                            lemma_remove_to_set(olde.subscribers@, j as int);
                        }
                        if self.entries[i].subscribers.is_empty() {
                            proof {
                                let e = self.entries@[i as int];
                                assert(self.entries@ =~= pre.update(i as int, e));
                                lemma_update_res_frame(pre, i as int, e);
                                lemma_remove_res_frame(self.entries@, i as int);
                                assert(olde.subscribers@.to_set().remove(client_id)
                                    =~= Set::<u64>::empty());
                            }
                            let _ = self.entries.remove(i);
                        } else {
                            proof {
                                let e = self.entries@[i as int];
                                assert(self.entries@ =~= pre.update(i as int, e));
                                lemma_update_res_frame(pre, i as int, e);
                            }
                        }
                    },
                    None => {
                        proof {
                            assert(self.subs(resource@).remove(client_id) =~= self.subs(
                                resource@,
                            ));
                        }
                    },
                }
            },
            None => {
                proof {
                    assert(self.subs(resource@).remove(client_id) =~= self.subs(resource@));
                }
            },
        }
    }

    /// Removes `client_id` from every resource named in `resources`, as one
    /// operation: the teardown cascade.
    pub fn remove_all(&mut self, client_id: u64, resources: &Vec<String>)
        requires
            old(self).wf(),
        ensures
            final(self).wf(),
            forall|r: Seq<char>|
                resources.deep_view().contains(r) ==> final(self).subs(r) == old(self).subs(
                    r,
                ).remove(client_id),
            forall|r: Seq<char>|
                !resources.deep_view().contains(r) ==> final(self).subs(r) == old(self).subs(r),
            forall|r: Seq<char>|
                !resources.deep_view().contains(r) ==> final(self).spec_has(r) == old(
                    self,
                ).spec_has(r),
    {
        let mut i: usize = 0;
        while i < resources.len()
            invariant
                old(self).wf(),
                self.wf(),
                i <= resources@.len(),
                forall|r: Seq<char>|
                    resources.deep_view().take(i as int).contains(r) ==> self.subs(r) == old(
                        self,
                    ).subs(r).remove(client_id),
                forall|r: Seq<char>|
                    !resources.deep_view().take(i as int).contains(r) ==> self.subs(r) == old(
                        self,
                    ).subs(r),
                forall|r: Seq<char>|
                    !resources.deep_view().take(i as int).contains(r) ==> self.spec_has(r) == old(
                        self,
                    ).spec_has(r),
            decreases resources@.len() - i,
        {
            let ghost prefix = resources.deep_view().take(i as int);
            let r = &resources[i];
            self.remove(client_id, r);
            proof {
                let longer = resources.deep_view().take(i + 1);
                assert(longer.drop_last() =~= prefix);
                assert(longer.last() == r@);
                assert forall|x: Seq<char>| longer.contains(x) implies (prefix.contains(x) || x
                    == r@) by {
                    let k = choose|k: int| 0 <= k < longer.len() && longer[k] == x;
                    if k < i {
                        assert(prefix[k] == x);
                    }
                }
                assert forall|x: Seq<char>| prefix.contains(x) implies longer.contains(x) by {
                    let k = choose|k: int| 0 <= k < prefix.len() && prefix[k] == x;
                    assert(longer[k] == x);
                }
                assert(longer.contains(r@));
            }
            i = i + 1;
        }
        proof {
            assert(resources.deep_view().take(resources@.len() as int) =~= resources.deep_view());
        }
    }

    /// Whether `client_id` is currently subscribed to `resource`.
    pub fn is_subscribed(&self, client_id: u64, resource: &String) -> (r: bool)
        requires
            self.wf(),
        ensures
            r == self.subs(resource@).contains(client_id),
    {
        match self.find_res(resource) {
            Some(i) => {
                proof {
                    lemma_ent_at(self.entries@, i as int);
                }
                contains_u64(&self.entries[i].subscribers, client_id)
            },
            None => false,
        }
    }

    /// Whether the index holds an entry for `resource`.
    pub fn has_resource(&self, resource: &String) -> (r: bool)
        ensures
            r == self.spec_has(resource@),
    {
        match self.find_res(resource) {
            Some(i) => {
                proof {
                    assert(has_res(self.entries@, resource@));
                }
                true
            },
            None => false,
        }
    }
}

/// Whether some element of `v` equals `x`.
pub fn contains_u64(v: &Vec<u64>, x: u64) -> (r: bool)
    ensures
        r == v@.to_set().contains(x),
{
    match find_u64(v, x) {
        Some(_) => true,
        None => false,
    }
}

/// The first position of `v` whose element equals `x`.
pub fn find_u64(v: &Vec<u64>, x: u64) -> (r: Option<usize>)
    ensures
        match r {
            Some(i) => i < v@.len() && v@[i as int] == x && v@.to_set().contains(x),
            None => !v@.to_set().contains(x),
        },
{
    let mut i: usize = 0;
    while i < v.len()
        invariant
            i <= v@.len(),
            forall|k: int| 0 <= k < i ==> v@[k] != x,
        decreases v@.len() - i,
    {
        if v[i] == x {
            return Some(i);
        }
        i = i + 1;
    }
    None
}

} // verus!
