//! Broadcast fanout: the single distribution point that delivers every
//! published message to every currently attached receiver. Each receiver has
//! an independent pending queue drained by that connection's outbound task;
//! publishing never blocks and never fails, whatever the receivers' state.

use vstd::prelude::*;

verus! {

struct OutQueue {
    handle: u64,
    pending: Vec<String>,
}

spec fn has_handle(s: Seq<OutQueue>, h: u64) -> bool {
    exists|i: int| 0 <= i < s.len() && s[i].handle == h
}

spec fn qidx(s: Seq<OutQueue>, h: u64) -> int {
    choose|i: int| 0 <= i < s.len() && s[i].handle == h
}

spec fn handles_distinct(s: Seq<OutQueue>) -> bool {
    forall|i: int, j: int| 0 <= i < j < s.len() ==> s[i].handle != s[j].handle
}

proof fn lemma_qidx(s: Seq<OutQueue>, j: int)
    requires
        handles_distinct(s),
        0 <= j < s.len(),
    ensures
        has_handle(s, s[j].handle),
        qidx(s, s[j].handle) == j,
{
    assert(has_handle(s, s[j].handle));
    let i = qidx(s, s[j].handle);
    if i != j {
        assert(s[i].handle != s[j].handle);
    }
}

/// Two queue sequences of the same length with the same handles position by
/// position locate every handle at the same place.
proof fn lemma_same_handles(s: Seq<OutQueue>, t: Seq<OutQueue>)
    requires
        handles_distinct(s),
        t.len() == s.len(),
        forall|k: int| 0 <= k < s.len() ==> (#[trigger] t[k]).handle == s[k].handle,
    ensures
        handles_distinct(t),
        forall|h: u64| has_handle(t, h) == has_handle(s, h),
        forall|h: u64| has_handle(s, h) ==> qidx(t, h) == qidx(s, h),
{
    assert forall|h: u64| has_handle(t, h) == has_handle(s, h) by {
        if has_handle(t, h) {
            let k = choose|k: int| 0 <= k < t.len() && t[k].handle == h;
            assert(s[k].handle == h);
        }
        if has_handle(s, h) {
            let k = choose|k: int| 0 <= k < s.len() && s[k].handle == h;
            assert(t[k].handle == h);
        }
    }
    assert forall|h: u64| has_handle(s, h) implies qidx(t, h) == qidx(s, h) by {
        let j = qidx(s, h);
        assert(0 <= j < s.len() && s[j].handle == h);
        assert(t[j].handle == h);
        lemma_qidx(t, j);
    }
}

proof fn lemma_remove_handle_frame(s: Seq<OutQueue>, i: int)
    requires
        handles_distinct(s),
        0 <= i < s.len(),
    ensures
        handles_distinct(s.remove(i)),
        !has_handle(s.remove(i), s[i].handle),
        forall|h: u64| h != s[i].handle ==> has_handle(s.remove(i), h) == has_handle(s, h),
        forall|h: u64|
            h != s[i].handle && has_handle(s, h) ==> s.remove(i)[qidx(s.remove(i), h)]
                == s[qidx(s, h)],
{
    let t = s.remove(i);
    assert forall|a: int, b: int| 0 <= a < b < t.len() implies t[a].handle != t[b].handle by {
        let a0: int = if a < i {
            a
        } else {
            a + 1
        };
        let b0: int = if b < i {
            b
        } else {
            b + 1
        };
        assert(t[a] == s[a0] && t[b] == s[b0]);
    }
    assert forall|k: int| 0 <= k < t.len() implies t[k].handle != s[i].handle by {
        let k0: int = if k < i {
            k
        } else {
            k + 1
        };
        assert(t[k] == s[k0]);
    }
    assert forall|h: u64| h != s[i].handle && has_handle(t, h) implies has_handle(s, h)
        && t[qidx(t, h)] == s[qidx(s, h)] by {
        let k = choose|k: int| 0 <= k < t.len() && t[k].handle == h;
        let k0: int = if k < i {
            k
        } else {
            k + 1
        };
        assert(t[k] == s[k0]);
        lemma_qidx(s, k0);
        lemma_qidx(t, k);
    }
    assert forall|h: u64| h != s[i].handle && has_handle(s, h) implies has_handle(t, h) by {
        let k = choose|k: int| 0 <= k < s.len() && s[k].handle == h;
        if k < i {
            assert(t[k] == s[k]);
        } else if k > i {
            assert(t[k - 1] == s[k]);
        }
    }
}

proof fn lemma_push_handle_frame(s: Seq<OutQueue>, q: OutQueue)
    requires
        handles_distinct(s),
        !has_handle(s, q.handle),
    ensures
        handles_distinct(s.push(q)),
        has_handle(s.push(q), q.handle),
        s.push(q)[qidx(s.push(q), q.handle)] == q,
        forall|h: u64| h != q.handle ==> has_handle(s.push(q), h) == has_handle(s, h),
        forall|h: u64|
            h != q.handle && has_handle(s, h) ==> s.push(q)[qidx(s.push(q), h)] == s[qidx(s, h)],
{
    let t = s.push(q);
    assert forall|a: int, b: int| 0 <= a < b < t.len() implies t[a].handle != t[b].handle by {
        if b < s.len() {
            assert(t[a] == s[a] && t[b] == s[b]);
        } else {
            assert(t[b] == q && t[a] == s[a]);
            assert(has_handle(s, s[a].handle));
        }
    }
    assert(t[s.len() as int] == q);
    lemma_qidx(t, s.len() as int);
    assert forall|h: u64| h != q.handle implies has_handle(t, h) == has_handle(s, h) by {
        if has_handle(t, h) {
            let k = choose|k: int| 0 <= k < t.len() && t[k].handle == h;
            assert(k < s.len());
            assert(s[k].handle == h);
        }
        if has_handle(s, h) {
            let k = choose|k: int| 0 <= k < s.len() && s[k].handle == h;
            assert(t[k].handle == h);
        }
    }
    assert forall|h: u64| h != q.handle && has_handle(s, h) implies t[qidx(t, h)] == s[qidx(
        s,
        h,
    )] by {
        let k = choose|k: int| 0 <= k < s.len() && s[k].handle == h;
        assert(t[k] == s[k]);
        lemma_qidx(s, k);
        lemma_qidx(t, k);
    }
}

/// The multi-consumer distribution point: one pending queue per attached
/// receiver. Receiver handles are issued by the caller (the relay uses the
/// client identifier); each queue is created at admission and destroyed at
/// teardown, together with its client record.
pub struct Fanout {
    queues: Vec<OutQueue>,
}

impl Fanout {
    /// Whether a receiver with this handle is attached.
    pub closed spec fn attached(self, h: u64) -> bool {
        has_handle(self.queues@, h)
    }

    /// The messages delivered to receiver `h` and not yet drained, oldest
    /// first (empty when the handle is not attached).
    pub closed spec fn pending(self, h: u64) -> Seq<Seq<char>> {
        if has_handle(self.queues@, h) {
            self.queues@[qidx(self.queues@, h)].pending.deep_view()
        } else {
            Seq::empty()
        }
    }

    /// Well-formedness: no handle is attached twice.
    pub closed spec fn wf(self) -> bool {
        handles_distinct(self.queues@)
    }

    /// A fanout with no receivers.
    pub fn new() -> (r: Fanout)
        ensures
            r.wf(),
            forall|h: u64| !r.attached(h),
    {
        Fanout { queues: Vec::new() }
    }

    fn find_handle(&self, h: u64) -> (r: Option<usize>)
        ensures
            match r {
                Some(i) => i < self.queues@.len() && self.queues@[i as int].handle == h,
                None => !self.attached(h),
            },
    {
        let mut i: usize = 0;
        while i < self.queues.len()
            invariant
                i <= self.queues@.len(),
                forall|k: int| 0 <= k < i ==> (#[trigger] self.queues@[k]).handle != h,
            decreases self.queues@.len() - i,
        {
            if self.queues[i].handle == h {
                return Some(i);
            }
            i = i + 1;
        }
        None
    }

    /// Attaches a new receiver under this handle, with an empty queue: a
    /// receiver observes only messages published after its creation, never
    /// history. No effect if the handle is already attached.
    pub fn attach(&mut self, h: u64)
        requires
            old(self).wf(),
        ensures
            final(self).wf(),
            final(self).attached(h),
            !old(self).attached(h) ==> final(self).pending(h) == Seq::<Seq<char>>::empty(),
            old(self).attached(h) ==> *final(self) == *old(self),
            forall|x: u64| x != h ==> final(self).attached(x) == old(self).attached(x),
            forall|x: u64| x != h ==> final(self).pending(x) == old(self).pending(x),
    {
        match self.find_handle(h) {
            Some(i) => {
                proof {
                    assert(has_handle(self.queues@, h));
                }
            },
            None => {
                let q = OutQueue { handle: h, pending: Vec::new() };
                proof {
                    lemma_push_handle_frame(self.queues@, q);
                    assert(q.pending.deep_view() =~= Seq::<Seq<char>>::empty());
                }
                self.queues.push(q);
            },
        }
    }

    /// Detaches the receiver under this handle and discards whatever it had
    /// not drained; idempotent.
    pub fn detach(&mut self, h: u64)
        requires
            old(self).wf(),
        ensures
            final(self).wf(),
            !final(self).attached(h),
            forall|x: u64| x != h ==> final(self).attached(x) == old(self).attached(x),
            forall|x: u64| x != h ==> final(self).pending(x) == old(self).pending(x),
            !old(self).attached(h) ==> *final(self) == *old(self),
    {
        match self.find_handle(h) {
            Some(i) => {
                proof {
                    lemma_remove_handle_frame(self.queues@, i as int);
                }
                let _ = self.queues.remove(i);
            },
            None => {},
        }
    }

    /// Publishes one message: it is appended to the pending queue of every
    /// attached receiver, and to no other. The publisher never blocks and
    /// never fails, whatever the receivers' state.
    pub fn publish(&mut self, message: &String)
        requires
            old(self).wf(),
        ensures
            final(self).wf(),
            forall|h: u64| final(self).attached(h) == old(self).attached(h),
            forall|h: u64|
                old(self).attached(h) ==> final(self).pending(h) == old(self).pending(h).push(
                    message@,
                ),
    {
        let ghost pre = self.queues@;
        let mut i: usize = 0;
        while i < self.queues.len()
            invariant
                self.queues@.len() == pre.len(),
                i <= pre.len(),
                forall|k: int| 0 <= k < pre.len() ==> (#[trigger] self.queues@[k]).handle
                    == pre[k].handle,
                forall|k: int|
                    0 <= k < i ==> (#[trigger] self.queues@[k]).pending.deep_view()
                        == pre[k].pending.deep_view().push(message@),
                forall|k: int| i <= k < pre.len() ==> #[trigger] self.queues@[k] == pre[k],
            decreases pre.len() - i,
        {
            let ghost before = self.queues@[i as int];
            self.queues[i].pending.push(message.clone());
            proof {
                assert(self.queues@[i as int].pending.deep_view() =~= before.pending.deep_view()
                    .push(message@));
            }
            i = i + 1;
        }
        proof {
            lemma_same_handles(pre, self.queues@);
            assert forall|h: u64| has_handle(pre, h) implies self.pending(h) == old(self).pending(
                h,
            ).push(message@) by {
                let j = qidx(pre, h);
                assert(0 <= j < pre.len() && pre[j].handle == h);
                assert(qidx(self.queues@, h) == j);
                assert(self.queues@[j].pending.deep_view() == pre[j].pending.deep_view().push(
                    message@,
                ));
            }
        }
    }

    /// Takes the oldest pending message for receiver `h`, in publish order;
    /// `None` when the handle is not attached or its queue is empty.
    pub fn pop_next(&mut self, h: u64) -> (r: Option<String>)
        requires
            old(self).wf(),
        ensures
            final(self).wf(),
            forall|x: u64| final(self).attached(x) == old(self).attached(x),
            forall|x: u64| x != h ==> final(self).pending(x) == old(self).pending(x),
            old(self).pending(h).len() == 0 ==> r is None && *final(self) == *old(self),
            old(self).pending(h).len() > 0 ==> r is Some && r->0@ == old(self).pending(h)[0]
                && final(self).pending(h) == old(self).pending(h).drop_first(),
    {
        let ghost pre = self.queues@;
        match self.find_handle(h) {
            Some(i) => {
                proof {
                    lemma_qidx(pre, i as int);
                }
                if self.queues[i].pending.is_empty() {
                    proof {
                        assert(self.pending(h) =~= Seq::<Seq<char>>::empty());
                    }
                    None
                } else {
                    let ghost before = self.queues@[i as int];
                    let m = self.queues[i].pending.remove(0);
                    proof {
                        let q = self.queues@[i as int];
                        assert(self.queues@ =~= pre.update(i as int, q));
                        assert(q.pending.deep_view() =~= before.pending.deep_view().drop_first());
                        assert(m@ == before.pending.deep_view()[0]);
                        lemma_same_handles(pre, self.queues@);
                    }
                    Some(m)
                }
            },
            None => None,
        }
    }

    /// How many messages wait in receiver `h`'s queue.
    pub fn pending_count(&self, h: u64) -> (n: usize)
        requires
            self.wf(),
        ensures
            n == self.pending(h).len(),
    {
        match self.find_handle(h) {
            Some(i) => {
                proof {
                    lemma_qidx(self.queues@, i as int);
                }
                self.queues[i].pending.len()
            },
            None => 0,
        }
    }
}

} // verus!
