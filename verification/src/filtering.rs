//! Facts about `Seq::filter`: how the elements that a predicate keeps relate
//! to the sequence they are taken from, and how many of them there are.

use vstd::prelude::*;
use vstd::seq_lib::{lemma_no_dup_in_concat, to_multiset_contains, to_multiset_len, to_multiset_remove};

verus! {

/// The predicate that holds where both `p` and `q` hold.
pub open spec fn both<A>(p: spec_fn(A) -> bool, q: spec_fn(A) -> bool) -> spec_fn(A) -> bool {
    |x: A| p(x) && q(x)
}

/// The predicate that holds where `p` or `q` holds.
pub open spec fn either<A>(p: spec_fn(A) -> bool, q: spec_fn(A) -> bool) -> spec_fn(A) -> bool {
    |x: A| p(x) || q(x)
}

/// The predicate that holds where `p` does not.
pub open spec fn negation<A>(p: spec_fn(A) -> bool) -> spec_fn(A) -> bool {
    |x: A| !p(x)
}

/// A sequence that is not empty is its front with its last element pushed.
pub proof fn lemma_front_and_last<A>(s: Seq<A>)
    requires
        s.len() > 0,
    ensures
        s == s.drop_last().push(s.last()),
{
    assert(s =~= s.drop_last().push(s.last()));
}

/// Filtering the first `i + 1` elements is filtering the first `i` and then
/// deciding on the element at `i`.
pub proof fn lemma_filter_next<A>(s: Seq<A>, p: spec_fn(A) -> bool, i: int)
    requires
        0 <= i < s.len(),
    ensures
        s.take(i + 1).filter(p) == if p(s[i]) {
            s.take(i).filter(p).push(s[i])
        } else {
            s.take(i).filter(p)
        },
{
    assert(s.take(i + 1) =~= s.take(i).push(s[i]));
    s.take(i).lemma_filter_push(s[i], p);
}

/// A filtered element is an element of the sequence on which the predicate holds,
/// and every such element is kept.
pub proof fn lemma_filter_member<A>(s: Seq<A>, p: spec_fn(A) -> bool, x: A)
    ensures
        s.filter(p).contains(x) <==> s.contains(x) && p(x),
{
    if s.filter(p).contains(x) {
        s.lemma_filter_contains_rev(p, x);
        let i = choose|i: int| 0 <= i < s.filter(p).len() && s.filter(p)[i] == x;
        s.lemma_filter_pred(p, i);
    }
    if s.contains(x) && p(x) {
        let i = choose|i: int| 0 <= i < s.len() && s[i] == x;
        s.lemma_filter_contains(p, i);
    }
}

/// Two predicates that agree on every element of a sequence keep the same elements.
pub proof fn lemma_filter_agree<A>(s: Seq<A>, p: spec_fn(A) -> bool, q: spec_fn(A) -> bool)
    requires
        forall|i: int| 0 <= i < s.len() ==> p(#[trigger] s[i]) == q(s[i]),
    ensures
        s.filter(p) == s.filter(q),
    decreases s.len(),
{
    if s.len() == 0 {
        reveal(Seq::filter);
    } else {
        let front = s.drop_last();
        assert forall|i: int| 0 <= i < front.len() implies p(#[trigger] front[i]) == q(front[i]) by {
            assert(front[i] == s[i]);
        }
        lemma_filter_agree(front, p, q);
        lemma_front_and_last(s);
        front.lemma_filter_push(s.last(), p);
        front.lemma_filter_push(s.last(), q);
        assert(s.last() == s[s.len() - 1]);
    }
}

/// A predicate that holds of every element keeps the whole sequence.
pub proof fn lemma_filter_keeps_all<A>(s: Seq<A>, p: spec_fn(A) -> bool)
    requires
        forall|i: int| 0 <= i < s.len() ==> p(#[trigger] s[i]),
    ensures
        s.filter(p) == s,
    decreases s.len(),
{
    if s.len() == 0 {
        reveal(Seq::filter);
    } else {
        let front = s.drop_last();
        assert forall|i: int| 0 <= i < front.len() implies p(#[trigger] front[i]) by {
            assert(front[i] == s[i]);
        }
        lemma_filter_keeps_all(front, p);
        lemma_front_and_last(s);
        front.lemma_filter_push(s.last(), p);
        assert(s.last() == s[s.len() - 1]);
    }
}

/// A predicate that holds of no element keeps nothing.
pub proof fn lemma_filter_keeps_none<A>(s: Seq<A>, p: spec_fn(A) -> bool)
    requires
        forall|i: int| 0 <= i < s.len() ==> !p(#[trigger] s[i]),
    ensures
        s.filter(p) == Seq::<A>::empty(),
    decreases s.len(),
{
    if s.len() == 0 {
        reveal(Seq::filter);
        assert(s =~= Seq::<A>::empty());
    } else {
        let front = s.drop_last();
        assert forall|i: int| 0 <= i < front.len() implies !p(#[trigger] front[i]) by {
            assert(front[i] == s[i]);
        }
        lemma_filter_keeps_none(front, p);
        lemma_front_and_last(s);
        front.lemma_filter_push(s.last(), p);
        assert(s.last() == s[s.len() - 1]);
    }
}

/// Filtering by `p` and then by `q` is filtering by both at once.
pub proof fn lemma_filter_twice<A>(s: Seq<A>, p: spec_fn(A) -> bool, q: spec_fn(A) -> bool)
    ensures
        s.filter(p).filter(q) == s.filter(both(p, q)),
    decreases s.len(),
{
    if s.len() == 0 {
        reveal(Seq::filter);
    } else {
        let front = s.drop_last();
        lemma_filter_twice(front, p, q);
        lemma_front_and_last(s);
        front.lemma_filter_push(s.last(), p);
        front.lemma_filter_push(s.last(), both(p, q));
        front.filter(p).lemma_filter_push(s.last(), q);
    }
}

/// Counting by two predicates: what either keeps and what both keep add up
/// to what each keeps.
pub proof fn lemma_filter_counts<A>(s: Seq<A>, p: spec_fn(A) -> bool, q: spec_fn(A) -> bool)
    ensures
        s.filter(p).len() + s.filter(q).len() == s.filter(either(p, q)).len() + s.filter(
            both(p, q),
        ).len(),
    decreases s.len(),
{
    if s.len() == 0 {
        reveal(Seq::filter);
    } else {
        let front = s.drop_last();
        lemma_filter_counts(front, p, q);
        lemma_front_and_last(s);
        front.lemma_filter_push(s.last(), p);
        front.lemma_filter_push(s.last(), q);
        front.lemma_filter_push(s.last(), either(p, q));
        front.lemma_filter_push(s.last(), both(p, q));
    }
}

/// What a predicate keeps and what it drops add up to the whole sequence.
pub proof fn lemma_filter_complement<A>(s: Seq<A>, p: spec_fn(A) -> bool)
    ensures
        s.filter(p).len() + s.filter(negation(p)).len() == s.len(),
{
    let n = negation(p);
    lemma_filter_counts(s, p, n);
    assert forall|i: int| 0 <= i < s.len() implies either(p, n)(#[trigger] s[i]) by {}
    lemma_filter_keeps_all(s, either(p, n));
    assert forall|i: int| 0 <= i < s.len() implies !both(p, n)(#[trigger] s[i]) by {}
    lemma_filter_keeps_none(s, both(p, n));
}

/// Filtering a sequence without duplicates leaves no duplicates.
pub proof fn lemma_filter_distinct<A>(s: Seq<A>, p: spec_fn(A) -> bool)
    requires
        s.no_duplicates(),
    ensures
        s.filter(p).no_duplicates(),
    decreases s.len(),
{
    if s.len() == 0 {
        reveal(Seq::filter);
    } else {
        let front = s.drop_last();
        lemma_filter_distinct(front, p);
        lemma_front_and_last(s);
        front.lemma_filter_push(s.last(), p);
        if p(s.last()) {
            let kept = front.filter(p);
            assert forall|i: int| 0 <= i < kept.len() implies kept[i] != s.last() by {
                assert(kept.contains(kept[i]));
                lemma_filter_member(front, p, kept[i]);
                let k = choose|k: int| 0 <= k < front.len() && front[k] == kept[i];
                assert(s[k] == front[k]);
            }
            lemma_no_dup_in_concat(kept, seq![s.last()]);
            assert(kept + seq![s.last()] =~= kept.push(s.last()));
        }
    }
}

/// In a sequence without duplicates a predicate that holds of one value at
/// most keeps one element at most.
pub proof fn lemma_filter_at_most_one<A>(s: Seq<A>, p: spec_fn(A) -> bool)
    requires
        s.no_duplicates(),
        forall|i: int, j: int|
            0 <= i < s.len() && 0 <= j < s.len() && p(#[trigger] s[i]) && p(#[trigger] s[j])
                ==> s[i] == s[j],
    ensures
        s.filter(p).len() <= 1,
{
    let kept = s.filter(p);
    lemma_filter_distinct(s, p);
    if kept.len() >= 2 {
        s.lemma_filter_pred(p, 0);
        s.lemma_filter_pred(p, 1);
        assert(kept.contains(kept[0]));
        assert(kept.contains(kept[1]));
        lemma_filter_member(s, p, kept[0]);
        lemma_filter_member(s, p, kept[1]);
        let i = choose|i: int| 0 <= i < s.len() && s[i] == kept[0];
        let j = choose|j: int| 0 <= j < s.len() && s[j] == kept[1];
        assert(s[i] == s[j]);
    }
}

/// Taking one element out of a sequence takes it out of what a predicate
/// keeps, where the predicate holds of it.
pub proof fn lemma_filter_remove<A>(s: Seq<A>, k: int, p: spec_fn(A) -> bool)
    requires
        0 <= k < s.len(),
    ensures
        s.filter(p).len() == s.remove(k).filter(p).len() + if p(s[k]) {
            1int
        } else {
            0int
        },
{
    let before = s.subrange(0, k);
    let one = Seq::<A>::empty().push(s[k]);
    let after = s.subrange(k + 1, s.len() as int);
    assert(s =~= before + one + after);
    Seq::filter_distributes_over_add(before + one, after, p);
    Seq::filter_distributes_over_add(before, one, p);
    Seq::filter_distributes_over_add(before, after, p);
    assert(Seq::<A>::empty().filter(p) =~= Seq::<A>::empty()) by {
        reveal(Seq::filter);
    }
    Seq::<A>::empty().lemma_filter_push(s[k], p);
}

/// Two sequences that hold the same elements, each as often, hold as many
/// elements under any predicate.
pub proof fn lemma_filter_same_elements<A>(a: Seq<A>, b: Seq<A>, p: spec_fn(A) -> bool)
    requires
        a.to_multiset() == b.to_multiset(),
    ensures
        a.filter(p).len() == b.filter(p).len(),
    decreases a.len(),
{
    to_multiset_len(a);
    to_multiset_len(b);
    if a.len() == 0 {
        reveal(Seq::filter);
    } else {
        let x = a.last();
        let last = a.len() - 1;
        assert(a.contains(x)) by {
            assert(a[last] == x);
        }
        to_multiset_contains(a, x);
        to_multiset_contains(b, x);
        let k = choose|k: int| 0 <= k < b.len() && b[k] == x;
        to_multiset_remove(a, last);
        to_multiset_remove(b, k);
        assert(a.remove(last) =~= a.drop_last());
        lemma_filter_same_elements(a.drop_last(), b.remove(k), p);
        lemma_filter_remove(a, last, p);
        lemma_filter_remove(b, k, p);
    }
}

} // verus!
