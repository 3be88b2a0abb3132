//! What the order of the cards in a holding decides, and what it does not.

use vstd::prelude::*;
use crate::deck::{Card, Rank, Suit};
use crate::filtering::{
    both, lemma_filter_keeps_all, lemma_filter_keeps_none, lemma_filter_same_elements,
    lemma_filter_twice, negation,
};
use crate::ranking::{
    all_valid, any_card, best_hand, by_rank, first_run, flush_hand, flush_suit, from_rank_down,
    has_rank, has_rank_of, has_suit, kickers, lemma_by_rank_rearranges, lemma_first_run_from,
    lemma_kept_shape,
    lemma_of_ranks_count, lemma_ranks_held, lemma_with_kickers_shape, of_rank, of_ranks, of_suit,
    pairs, quads, ranks_held, ranks_of, trips, valid_holding, with_kickers,
};

verus! {

/// Two sequences hold as many cards under every predicate.
pub open spec fn same_counts(a: Seq<Card>, b: Seq<Card>) -> bool {
    forall|p: spec_fn(Card) -> bool| #[trigger] a.filter(p).len() == b.filter(p).len()
}

/// Sequences that hold the same cards hold as many under every predicate.
pub proof fn lemma_same_cards_same_counts(a: Seq<Card>, b: Seq<Card>)
    requires
        a.to_multiset() == b.to_multiset(),
    ensures
        same_counts(a, b),
{
    assert forall|p: spec_fn(Card) -> bool| #[trigger]
        a.filter(p).len() == b.filter(p).len() by {
        lemma_filter_same_elements(a, b, p);
    }
}

/// What a predicate keeps of two sequences with the same counts has the
/// same counts.
pub proof fn lemma_same_counts_kept(a: Seq<Card>, b: Seq<Card>, p: spec_fn(Card) -> bool)
    requires
        same_counts(a, b),
    ensures
        same_counts(a.filter(p), b.filter(p)),
{
    assert forall|q: spec_fn(Card) -> bool| #[trigger]
        a.filter(p).filter(q).len() == b.filter(p).filter(q).len() by {
        lemma_filter_twice(a, p, q);
        lemma_filter_twice(b, p, q);
        assert(a.filter(both(p, q)).len() == b.filter(both(p, q)).len());
    }
}

/// Ordering valid cards by rank keeps the counts.
pub proof fn lemma_same_counts_by_rank(a: Seq<Card>, b: Seq<Card>)
    requires
        all_valid(a),
        all_valid(b),
        same_counts(a, b),
    ensures
        same_counts(by_rank(a), by_rank(b)),
{
    lemma_by_rank_rearranges(a);
    lemma_by_rank_rearranges(b);
    assert forall|q: spec_fn(Card) -> bool| #[trigger]
        by_rank(a).filter(q).len() == by_rank(b).filter(q).len() by {
        assert(a.filter(q).len() == b.filter(q).len());
    }
}

/// The ranks of two sequences of cards in a row are the ranks of the one
/// and then the ranks of the other.
pub proof fn lemma_ranks_of_both(first: Seq<Card>, second: Seq<Card>)
    ensures
        ranks_of(first + second) == ranks_of(first) + ranks_of(second),
{
    assert(ranks_of(first + second) =~= ranks_of(first) + ranks_of(second));
}

/// With the same counts, the ranks that so many cards hold are the same.
pub proof fn lemma_same_ranks_held(a: Seq<Card>, b: Seq<Card>, times: nat, low: Rank)
    requires
        same_counts(a, b),
    ensures
        ranks_held(a, times, low) == ranks_held(b, times, low),
    decreases 15 - low,
{
    if low <= 14 {
        lemma_same_ranks_held(a, b, times, (low + 1) as Rank);
        assert(a.filter(has_rank(low)).len() == b.filter(has_rank(low)).len());
    }
}

/// With the same counts, the cards that a predicate keeps of the cards
/// ordered by rank show the same ranks, place by place.
pub proof fn lemma_same_ranks_in_order(
    a: Seq<Card>,
    b: Seq<Card>,
    low: Rank,
    p: spec_fn(Card) -> bool,
)
    requires
        same_counts(a, b),
    ensures
        ranks_of(from_rank_down(a, low).filter(p)) == ranks_of(from_rank_down(b, low).filter(p)),
    decreases 15 - low,
{
    if low > 14 {
        reveal(Seq::filter);
    } else {
        let next = (low + 1) as Rank;
        lemma_same_ranks_in_order(a, b, next, p);
        let level_a = of_rank(a, low).filter(p);
        let level_b = of_rank(b, low).filter(p);
        Seq::filter_distributes_over_add(from_rank_down(a, next), of_rank(a, low), p);
        Seq::filter_distributes_over_add(from_rank_down(b, next), of_rank(b, low), p);
        lemma_ranks_of_both(from_rank_down(a, next).filter(p), level_a);
        lemma_ranks_of_both(from_rank_down(b, next).filter(p), level_b);
        lemma_filter_twice(a, has_rank(low), p);
        lemma_filter_twice(b, has_rank(low), p);
        assert(a.filter(both(has_rank(low), p)).len() == b.filter(both(has_rank(low), p)).len());
        assert forall|i: int| 0 <= i < level_a.len() implies (#[trigger] level_a[i]).rank == low by {
            a.lemma_filter_pred(both(has_rank(low), p), i);
        }
        assert forall|i: int| 0 <= i < level_b.len() implies (#[trigger] level_b[i]).rank == low by {
            b.lemma_filter_pred(both(has_rank(low), p), i);
        }
        assert(ranks_of(level_a) =~= ranks_of(level_b));
    }
}

/// With the same counts, the cards that a predicate keeps of the valid
/// cards ordered by rank show the same ranks, and so do all of them.
pub proof fn lemma_same_ranks_by_rank(a: Seq<Card>, b: Seq<Card>, p: spec_fn(Card) -> bool)
    requires
        same_counts(a, b),
    ensures
        ranks_of(by_rank(a).filter(p)) == ranks_of(by_rank(b).filter(p)),
        ranks_of(by_rank(a)) == ranks_of(by_rank(b)),
{
    lemma_same_ranks_in_order(a, b, 2, p);
    lemma_same_ranks_in_order(a, b, 2, any_card());
    lemma_filter_keeps_all(by_rank(a), any_card());
    lemma_filter_keeps_all(by_rank(b), any_card());
}

/// With the same counts, the fixed cards that a predicate keeps and the
/// kickers that fill them up show the same ranks.
pub proof fn lemma_same_ranks_filled(a: Seq<Card>, b: Seq<Card>, p: spec_fn(Card) -> bool)
    requires
        all_valid(a) && a.no_duplicates() && a.len() >= 5,
        all_valid(b) && b.no_duplicates() && b.len() >= 5,
        same_counts(a, b),
        a.filter(p).len() <= 5,
        ranks_of(a.filter(p)) == ranks_of(b.filter(p)),
    ensures
        ranks_of(with_kickers(a.filter(p), a)) == ranks_of(with_kickers(b.filter(p), b)),
{
    let fixed_a = a.filter(p);
    let fixed_b = b.filter(p);
    assert(fixed_a.len() == fixed_b.len());
    lemma_with_kickers_shape(fixed_a, a, p);
    lemma_with_kickers_shape(fixed_b, b, p);
    if fixed_a.len() < 5 {
        let rest_a = a.filter(negation(p));
        let rest_b = b.filter(negation(p));
        lemma_same_counts_kept(a, b, negation(p));
        lemma_same_ranks_by_rank(rest_a, rest_b, any_card());
        let n = 5 - fixed_a.len();
        lemma_kept_shape(a, negation(p));
        lemma_kept_shape(b, negation(p));
        lemma_by_rank_rearranges(rest_a);
        lemma_by_rank_rearranges(rest_b);
        assert(ranks_of(by_rank(rest_a).take(n)) =~= ranks_of(by_rank(rest_a)).take(n));
        assert(ranks_of(by_rank(rest_b).take(n)) =~= ranks_of(by_rank(rest_b)).take(n));
        lemma_ranks_of_both(fixed_a, kickers(fixed_a, a));
        lemma_ranks_of_both(fixed_b, kickers(fixed_b, b));
    }
}

/// Hands of a flush suit whose cards show the same ranks are of the same
/// kind and show the same ranks.
pub proof fn lemma_same_flush_hand(a: Seq<Card>, b: Seq<Card>, suit: Suit)
    requires
        of_suit(a, suit).len() >= 5,
        ranks_of(of_suit(a, suit)) == ranks_of(of_suit(b, suit)),
    ensures
        flush_hand(a, suit).hand_rank == flush_hand(b, suit).hand_rank,
        ranks_of(flush_hand(a, suit).hand) == ranks_of(flush_hand(b, suit).hand),
{
    let flush_a = of_suit(a, suit);
    let flush_b = of_suit(b, suit);
    assert(flush_a.len() == ranks_of(flush_a).len());
    assert(flush_b.len() == ranks_of(flush_b).len());
    lemma_first_run_from(ranks_of(flush_a), 0);
    let from = match first_run(ranks_of(flush_a)) {
        Some(at) => at,
        None => 0,
    };
    lemma_same_stretch(flush_a, flush_b, from, from + 5);
    assert(flush_hand(a, suit).hand == flush_a.subrange(from, from + 5));
    assert(flush_hand(b, suit).hand == flush_b.subrange(from, from + 5));
}

/// Stretches of cards that show the same ranks show the same ranks.
pub proof fn lemma_same_stretch(a: Seq<Card>, b: Seq<Card>, from: int, to: int)
    requires
        ranks_of(a) == ranks_of(b),
        0 <= from <= to <= a.len(),
    ensures
        ranks_of(a.subrange(from, to)) == ranks_of(b.subrange(from, to)),
{
    assert(a.len() == ranks_of(a).len());
    assert(b.len() == ranks_of(b).len());
    assert(ranks_of(a.subrange(from, to)) =~= ranks_of(a).subrange(from, to));
    assert(ranks_of(b.subrange(from, to)) =~= ranks_of(b).subrange(from, to));
}

/// The order in which the cards of a holding are given decides only which
/// of the cards of one rank are taken: two holdings of the same cards make
/// hands of the same kind that show the same ranks, place by place.
pub proof fn lemma_order_decides_suits_only(a: Seq<Card>, b: Seq<Card>)
    requires
        valid_holding(a),
        valid_holding(b),
        a.to_multiset() == b.to_multiset(),
    ensures
        best_hand(a).hand_rank == best_hand(b).hand_rank,
        ranks_of(best_hand(a).hand) == ranks_of(best_hand(b).hand),
{
    let sa = by_rank(a);
    let sb = by_rank(b);
    lemma_same_cards_same_counts(a, b);
    lemma_same_counts_by_rank(a, b);
    lemma_by_rank_rearranges(a);
    lemma_by_rank_rearranges(b);
    lemma_same_ranks_held(a, b, 2, 2);
    lemma_same_ranks_held(a, b, 3, 2);
    lemma_same_ranks_held(a, b, 4, 2);
    lemma_ranks_held(a, 2, 2);
    lemma_ranks_held(a, 3, 2);
    lemma_ranks_held(a, 4, 2);
    assert(flush_suit(a) == flush_suit(b)) by {
        assert(a.filter(has_suit(Suit::Clubs)).len() == b.filter(has_suit(Suit::Clubs)).len());
        assert(a.filter(has_suit(Suit::Diamonds)).len() == b.filter(
            has_suit(Suit::Diamonds),
        ).len());
        assert(a.filter(has_suit(Suit::Hearts)).len() == b.filter(has_suit(Suit::Hearts)).len());
        assert(a.filter(has_suit(Suit::Spades)).len() == b.filter(has_suit(Suit::Spades)).len());
    }
    let pairs = pairs(a);
    let trips = trips(a);
    let quads = quads(a);
    lemma_same_ranks_by_rank(a, b, any_card());
    if let Some(suit) = flush_suit(a) {
        lemma_same_ranks_by_rank(a, b, has_suit(suit));
        assert(sa.filter(has_suit(suit)).len() == a.filter(has_suit(suit)).len());
        lemma_same_flush_hand(sa, sb, suit);
    } else if quads.len() > 0 {
        lemma_same_ranks_by_rank(a, b, has_rank(quads[0]));
        assert(of_rank(sa, quads[0]) == of_rank(a, quads[0]));
        lemma_same_ranks_filled(sa, sb, has_rank(quads[0]));
    } else if trips.len() > 0 && pairs.len() > 0 {
        lemma_same_ranks_by_rank(a, b, has_rank_of(trips[0], pairs[0]));
    } else if trips.len() > 1 {
        lemma_same_ranks_by_rank(a, b, has_rank_of(trips[0], trips[1]));
        let six_a = of_ranks(sa, trips[0], trips[1]);
        let six_b = of_ranks(sb, trips[0], trips[1]);
        assert(of_rank(sa, trips[0]) == of_rank(a, trips[0]));
        assert(of_rank(sa, trips[1]) == of_rank(a, trips[1]));
        lemma_of_ranks_count(sa, trips[0], trips[1]);
        assert(six_a.len() == six_b.len());
        lemma_same_stretch(six_a, six_b, 0, 5);
        assert(six_a.drop_last() == six_a.subrange(0, 5));
        assert(six_b.drop_last() == six_b.subrange(0, 5));
    } else if let Some(at) = first_run(ranks_of(sa)) {
        lemma_first_run_from(ranks_of(sa), 0);
        lemma_same_stretch(sa, sb, at, at + 5);
    } else if trips.len() > 0 {
        lemma_same_ranks_by_rank(a, b, has_rank(trips[0]));
        assert(of_rank(sa, trips[0]) == of_rank(a, trips[0]));
        lemma_same_ranks_filled(sa, sb, has_rank(trips[0]));
    } else if pairs.len() > 1 {
        lemma_same_ranks_by_rank(a, b, has_rank_of(pairs[0], pairs[1]));
        assert(of_rank(sa, pairs[0]) == of_rank(a, pairs[0]));
        assert(of_rank(sa, pairs[1]) == of_rank(a, pairs[1]));
        lemma_of_ranks_count(sa, pairs[0], pairs[1]);
        lemma_same_ranks_filled(sa, sb, has_rank_of(pairs[0], pairs[1]));
    } else if pairs.len() > 0 {
        lemma_same_ranks_by_rank(a, b, has_rank(pairs[0]));
        assert(of_rank(sa, pairs[0]) == of_rank(a, pairs[0]));
        lemma_same_ranks_filled(sa, sb, has_rank(pairs[0]));
    } else {
        lemma_same_ranks_by_rank(a, b, has_rank(0));
        assert forall|i: int| 0 <= i < sa.len() implies !has_rank(0)(#[trigger] sa[i]) by {
            assert(sa[i].valid());
        }
        assert forall|i: int| 0 <= i < sb.len() implies !has_rank(0)(#[trigger] sb[i]) by {
            assert(sb[i].valid());
        }
        lemma_filter_keeps_none(sa, has_rank(0));
        lemma_filter_keeps_none(sb, has_rank(0));
        lemma_same_ranks_filled(sa, sb, has_rank(0));
    }
}

} // verus!
