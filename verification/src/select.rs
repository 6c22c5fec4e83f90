//! Choosing an element of a sequence: the first one with a property, or
//! the first one of least score among those with a property.

use vstd::prelude::*;

verus! {

/// The first index at or after `from` whose element satisfies `p`.
pub open spec fn first_index<A>(s: Seq<A>, p: spec_fn(A) -> bool, from: int) -> Option<int>
    decreases s.len() - from,
{
    if from < 0 || from >= s.len() {
        None
    } else if p(s[from]) {
        Some(from)
    } else {
        first_index(s, p, from + 1)
    }
}

/// What [`first_index`] answers, without recursion.
pub proof fn lemma_first_index<A>(s: Seq<A>, p: spec_fn(A) -> bool, from: int)
    requires
        0 <= from,
    ensures
        first_index(s, p, from) matches Some(i) ==> from <= i < s.len() && p(s[i]) && forall|j: int|
            from <= j < i ==> !p(s[j]),
        first_index(s, p, from) is None ==> forall|j: int| from <= j < s.len() ==> !p(s[j]),
    decreases s.len() - from,
{
    if from < s.len() && !p(s[from]) {
        lemma_first_index(s, p, from + 1);
    }
}

/// Among the elements that satisfy `p`, the index of the first one of least
/// score: scanning in order, a later element replaces the chosen one only
/// when its score is strictly smaller.
pub open spec fn best_index<A>(s: Seq<A>, p: spec_fn(A) -> bool, score: spec_fn(A) -> nat) -> Option<
    int,
>
    decreases s.len(),
{
    if s.len() == 0 {
        None
    } else {
        let b = best_index(s.drop_last(), p, score);
        let i = s.len() - 1;
        if p(s[i]) && (b is None || score(s[i]) < score(s[b->0])) {
            Some(i)
        } else {
            b
        }
    }
}

/// The index that [`best_index`] chooses satisfies `p`, has the least score
/// of all that do, and no earlier one that satisfies `p` has the same score;
/// it chooses none exactly when no element satisfies `p`.
pub proof fn lemma_best_index<A>(s: Seq<A>, p: spec_fn(A) -> bool, score: spec_fn(A) -> nat)
    ensures
        best_index(s, p, score) matches Some(i) ==> {
            &&& 0 <= i < s.len()
            &&& p(s[i])
            &&& forall|j: int| 0 <= j < s.len() && p(s[j]) ==> score(s[i]) <= score(s[j])
            &&& forall|j: int| 0 <= j < i && p(s[j]) ==> score(s[i]) < score(s[j])
        },
        best_index(s, p, score) is None <==> forall|j: int| 0 <= j < s.len() ==> !p(s[j]),
    decreases s.len(),
{
    if s.len() > 0 {
        let t = s.drop_last();
        lemma_best_index(t, p, score);
        assert forall|j: int| 0 <= j < t.len() implies t[j] == s[j] by {}
    }
}

/// The sequences `f(s[0])`, `f(s[1])`, ... one after the other.
pub open spec fn flat_map<A, B>(s: Seq<A>, f: spec_fn(A) -> Seq<B>) -> Seq<B>
    decreases s.len(),
{
    if s.len() == 0 {
        Seq::empty()
    } else {
        flat_map(s.drop_last(), f) + f(s.last())
    }
}

/// Extending the prefix by one element appends that element's sequence.
pub proof fn lemma_flat_map_take<A, B>(s: Seq<A>, f: spec_fn(A) -> Seq<B>, i: int)
    requires
        0 <= i < s.len(),
    ensures
        flat_map(s.take(i + 1), f) == flat_map(s.take(i), f) + f(s[i]),
{
    assert(s.take(i + 1).drop_last() == s.take(i));
    assert(s.take(i + 1).last() == s[i]);
}

/// When every sequence `f(x)` of an element `x` of `s` holds only elements
/// with property `q`, so does their concatenation.
pub proof fn lemma_flat_map_all<A, B>(s: Seq<A>, f: spec_fn(A) -> Seq<B>, q: spec_fn(B) -> bool)
    requires
        forall|j: int, k: int| 0 <= j < s.len() && 0 <= k < f(s[j]).len() ==> q(#[trigger] f(s[j])[k]),
    ensures
        forall|i: int| 0 <= i < flat_map(s, f).len() ==> q(#[trigger] flat_map(s, f)[i]),
    decreases s.len(),
{
    if s.len() > 0 {
        let t = s.drop_last();
        assert forall|j: int, k: int| 0 <= j < t.len() && 0 <= k < f(t[j]).len() implies q(
            #[trigger] f(t[j])[k],
        ) by {
            assert(t[j] == s[j]);
        }
        lemma_flat_map_all(t, f, q);
        let a = flat_map(t, f);
        let b = f(s.last());
        assert forall|i: int| 0 <= i < flat_map(s, f).len() implies q(#[trigger] flat_map(s, f)[i]) by {
            if i < a.len() {
                assert(flat_map(s, f)[i] == a[i]);
            } else {
                assert(flat_map(s, f)[i] == b[i - a.len()]);
                assert(s[s.len() - 1] == s.last());
            }
        }
    }
}

/// An element of the sequence of some element of `s` is an element of
/// their concatenation.
pub proof fn lemma_flat_map_contains<A, B>(s: Seq<A>, f: spec_fn(A) -> Seq<B>, j: int, x: B)
    requires
        0 <= j < s.len(),
        f(s[j]).contains(x),
    ensures
        flat_map(s, f).contains(x),
    decreases s.len(),
{
    let t = s.drop_last();
    let a = flat_map(t, f);
    if j < t.len() {
        assert(t[j] == s[j]);
        lemma_flat_map_contains(t, f, j, x);
        let m = choose|m: int| 0 <= m < a.len() && a[m] == x;
        assert(flat_map(s, f)[m] == a[m]);
    } else {
        assert(s[j] == s.last());
        let b = f(s.last());
        let m = choose|m: int| 0 <= m < b.len() && b[m] == x;
        assert(flat_map(s, f)[a.len() + m] == b[m]);
    }
}

} // verus!
