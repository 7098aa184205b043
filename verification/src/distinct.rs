//! Facts about sequences without repeated elements, used to reason about the
//! interest lists and subscriber lists as mathematical sets.

use vstd::prelude::*;

verus! {

/// No element occurs twice in the sequence.
pub open spec fn distinct_seq<A>(s: Seq<A>) -> bool {
    forall|i: int, j: int| 0 <= i < j < s.len() ==> s[i] != s[j]
}

/// Appending an element adds exactly that element to the sequence's set.
pub proof fn lemma_push_to_set<A>(s: Seq<A>, x: A)
    ensures
        s.push(x).to_set() == s.to_set().insert(x),
{
    assert forall|y: A| s.push(x).contains(y) implies (s.contains(y) || y == x) by {
        let i = choose|i: int| 0 <= i < s.push(x).len() && s.push(x)[i] == y;
        if i < s.len() {
            assert(s[i] == y);
        }
    }
    assert forall|y: A| s.contains(y) implies s.push(x).contains(y) by {
        let i = choose|i: int| 0 <= i < s.len() && s[i] == y;
        assert(s.push(x)[i] == y);
    }
    assert(s.push(x)[s.len() as int] == x);
    assert(s.push(x).to_set() =~= s.to_set().insert(x));
}

/// Appending a fresh element keeps the sequence free of repeats.
pub proof fn lemma_push_distinct<A>(s: Seq<A>, x: A)
    requires
        distinct_seq(s),
        !s.contains(x),
    ensures
        distinct_seq(s.push(x)),
{
    assert forall|i: int, j: int| 0 <= i < j < s.push(x).len() implies s.push(x)[i] != s.push(
        x,
    )[j] by {
        if j < s.len() {
            assert(s.push(x)[i] == s[i] && s.push(x)[j] == s[j]);
        } else {
            assert(s.push(x)[j] == x);
            assert(s[i] == s.push(x)[i]);
            assert(s.contains(s[i]));
        }
    }
}

/// In a repeat-free sequence, deleting position `j` removes exactly the
/// element that stood there from the sequence's set.
pub proof fn lemma_remove_to_set<A>(s: Seq<A>, j: int)
    requires
        distinct_seq(s),
        0 <= j < s.len(),
    ensures
        s.remove(j).to_set() == s.to_set().remove(s[j]),
        distinct_seq(s.remove(j)),
{
    assert forall|y: A| s.remove(j).contains(y) implies (s.contains(y) && y != s[j]) by {
        let i = choose|i: int| 0 <= i < s.remove(j).len() && s.remove(j)[i] == y;
        if i < j {
            assert(s[i] == y);
        } else {
            assert(s[i + 1] == y);
        }
    }
    assert forall|y: A| s.contains(y) && y != s[j] implies s.remove(j).contains(y) by {
        let i = choose|i: int| 0 <= i < s.len() && s[i] == y;
        if i < j {
            assert(s.remove(j)[i] == y);
        } else {
            assert(s.remove(j)[i - 1] == y);
        }
    }
    assert(s.remove(j).to_set() =~= s.to_set().remove(s[j]));
    assert forall|a: int, b: int| 0 <= a < b < s.remove(j).len() implies s.remove(j)[a] != s.remove(
        j,
    )[b] by {
        let a0: int = if a < j {
            a
        } else {
            a + 1
        };
        let b0: int = if b < j {
            b
        } else {
            b + 1
        };
        assert(s.remove(j)[a] == s[a0] && s.remove(j)[b] == s[b0]);
    }
}

} // verus!
