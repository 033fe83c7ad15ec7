//! Facts about ordered lists without repeats.

use vstd::prelude::*;

verus! {

/// In a list without repeats, an element is found at its own index.
pub proof fn lemma_index_of_unique<A>(s: Seq<A>, i: int)
    requires
        s.no_duplicates(),
        0 <= i < s.len(),
    ensures
        s.index_of(s[i]) == i,
        s.contains(s[i]),
{
    let j = s.index_of(s[i]);
    assert(0 <= j < s.len() && s[j] == s[i]);
}

/// An element of a list is found at an index that holds it.
pub proof fn lemma_index_of_found<A>(s: Seq<A>, x: A)
    requires
        s.contains(x),
    ensures
        0 <= s.index_of(x) < s.len(),
        s[s.index_of(x)] == x,
{
}

/// Putting a new element into a list without repeats gives such a list
/// again, with the old elements and the new one.
pub proof fn lemma_insert_fresh<A>(s: Seq<A>, i: int, x: A)
    requires
        s.no_duplicates(),
        !s.contains(x),
        0 <= i <= s.len(),
    ensures
        s.insert(i, x).no_duplicates(),
        s.insert(i, x).len() == s.len() + 1,
        s.insert(i, x)[i] == x,
        s.insert(i, x).index_of(x) == i,
        forall|y: A| #[trigger] s.insert(i, x).contains(y) <==> (y == x || s.contains(y)),
        forall|j: int| 0 <= j < i ==> #[trigger] s.insert(i, x)[j] == s[j],
        forall|j: int| i < j <= s.len() ==> #[trigger] s.insert(i, x)[j] == s[j - 1],
{
    let t = s.insert(i, x);
    s.insert_ensures(i, x);
    assert forall|a: int, b: int| 0 <= a < t.len() && 0 <= b < t.len() && a != b implies t[a]
        != t[b] by {
        let a0 = if a < i { a } else { a - 1 };
        let b0 = if b < i { b } else { b - 1 };
        if a != i && b != i {
            assert(t[a] == s[a0] && t[b] == s[b0]);
        } else if a == i {
            assert(t[b] == s[b0]);
        } else {
            assert(t[a] == s[a0]);
        }
    }
    assert forall|y: A| #[trigger] t.contains(y) <==> (y == x || s.contains(y)) by {
        if t.contains(y) {
            let a = choose|a: int| 0 <= a < t.len() && t[a] == y;
            if a != i {
                let a0 = if a < i { a } else { a - 1 };
                assert(s[a0] == y);
            }
        }
        if y == x {
            assert(t[i] == y);
        }
        if s.contains(y) {
            let a0 = choose|a0: int| 0 <= a0 < s.len() && s[a0] == y;
            let a = if a0 < i { a0 } else { a0 + 1 };
            assert(t[a] == y);
        }
    }
    lemma_index_of_unique(t, i);
}

/// Taking an element out of a list without repeats gives such a list again,
/// with the other elements in their order.
pub proof fn lemma_remove_at<A>(s: Seq<A>, i: int)
    requires
        s.no_duplicates(),
        0 <= i < s.len(),
    ensures
        s.remove(i).no_duplicates(),
        s.remove(i).len() == s.len() - 1,
        !s.remove(i).contains(s[i]),
        forall|y: A| #[trigger] s.remove(i).contains(y) <==> (y != s[i] && s.contains(y)),
        forall|j: int| 0 <= j < i ==> #[trigger] s.remove(i)[j] == s[j],
        forall|j: int| i <= j < s.len() - 1 ==> #[trigger] s.remove(i)[j] == s[j + 1],
        s.remove(i).insert(i, s[i]) =~= s,
{
    let t = s.remove(i);
    s.remove_ensures(i);
    assert forall|y: A| #[trigger] t.contains(y) <==> (y != s[i] && s.contains(y)) by {
        if t.contains(y) {
            let a = choose|a: int| 0 <= a < t.len() && t[a] == y;
            let a0 = if a < i { a } else { a + 1 };
            assert(s[a0] == y);
        }
        if y != s[i] && s.contains(y) {
            let a0 = choose|a0: int| 0 <= a0 < s.len() && s[a0] == y;
            let a = if a0 < i { a0 } else { a0 - 1 };
            assert(t[a] == y);
        }
    }
    t.insert_ensures(i, s[i]);
}

/// A list without repeats whose elements all lie in a finite set is no longer
/// than the set is large.
pub proof fn lemma_unique_within<A>(s: Seq<A>, all: Set<A>)
    requires
        s.no_duplicates(),
        all.finite(),
        forall|i: int| 0 <= i < s.len() ==> all.contains(#[trigger] s[i]),
    ensures
        s.len() <= all.len(),
{
    s.unique_seq_to_set();
    assert(s.to_set().subset_of(all)) by {
        assert forall|x: A| s.to_set().contains(x) implies all.contains(x) by {
            let i = choose|i: int| 0 <= i < s.len() && s[i] == x;
        }
    }
    vstd::set_lib::lemma_len_subset(s.to_set(), all);
}

} // verus!
