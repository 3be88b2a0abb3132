//! That the five cards found are a hand of the kind announced.

use vstd::prelude::*;
use crate::deck::{Card, Rank, Suit};
use crate::filtering::{
    both, lemma_filter_agree, lemma_filter_keeps_all, lemma_filter_keeps_none,
    lemma_filter_member, lemma_filter_twice, lemma_front_and_last,
};
use crate::ranking::{
    all_valid, best_hand, by_rank, descending, first_run, flush_hand, flush_suit, has_rank,
    has_rank_of,
    has_suit, is_run, kickers, lemma_by_rank_rearranges, lemma_first_run_from, lemma_kickers,
    lemma_of_ranks_count, lemma_ranks_held, lemma_with_kickers_shape, of_rank, of_ranks, of_suit,
    pairs, quads, ranks_of, shows, trips, valid_holding, with_kickers,
};

verus! {

/// What a predicate keeps of cards that never ascend in rank never ascends.
pub proof fn lemma_kept_descending(cards: Seq<Card>, p: spec_fn(Card) -> bool)
    requires
        descending(cards),
    ensures
        descending(cards.filter(p)),
    decreases cards.len(),
{
    if cards.len() == 0 {
        reveal(Seq::filter);
    } else {
        let front = cards.drop_last();
        let kept = cards.filter(p);
        assert forall|i: int, j: int| 0 <= i < j < front.len() implies front[i].rank
            >= front[j].rank by {
            assert(front[i] == cards[i] && front[j] == cards[j]);
        }
        lemma_kept_descending(front, p);
        lemma_front_and_last(cards);
        front.lemma_filter_push(cards.last(), p);
        if p(cards.last()) {
            assert forall|i: int, j: int| 0 <= i < j < kept.len() implies kept[i].rank
                >= kept[j].rank by {
                if j == kept.len() - 1 {
                    assert(kept[i] == front.filter(p)[i]);
                    assert(front.filter(p).contains(kept[i]));
                    lemma_filter_member(front, p, kept[i]);
                    let k = choose|k: int| 0 <= k < front.len() && front[k] == kept[i];
                    assert(cards[k] == front[k]);
                } else {
                    assert(kept[i] == front.filter(p)[i]);
                    assert(kept[j] == front.filter(p)[j]);
                }
            }
        }
    }
}

/// One of two ranks, picked from the cards of both, gives the cards of that rank.
pub proof fn lemma_of_rank_of_ranks(cards: Seq<Card>, first: Rank, second: Rank, rank: Rank)
    requires
        rank == first || rank == second,
    ensures
        of_rank(of_ranks(cards, first, second), rank) == of_rank(cards, rank),
{
    let wide = has_rank_of(first, second);
    lemma_filter_twice(cards, wide, has_rank(rank));
    assert forall|i: int| 0 <= i < cards.len() implies both(wide, has_rank(rank))(
        #[trigger] cards[i],
    ) == has_rank(rank)(cards[i]) by {}
    lemma_filter_agree(cards, both(wide, has_rank(rank)), has_rank(rank));
}

/// The cards of one rank are all of that rank.
pub proof fn lemma_of_rank_of_rank(cards: Seq<Card>, rank: Rank)
    ensures
        of_rank(of_rank(cards, rank), rank) == of_rank(cards, rank),
{
    let held = of_rank(cards, rank);
    assert forall|i: int| 0 <= i < held.len() implies has_rank(rank)(#[trigger] held[i]) by {
        cards.lemma_filter_pred(has_rank(rank), i);
    }
    lemma_filter_keeps_all(held, has_rank(rank));
}

/// Where the fixed cards hold every card of a rank, the kickers add none:
/// the filled hand has as many cards of the rank as the fixed cards.
pub proof fn lemma_kickers_miss_rank(
    fixed: Seq<Card>,
    cards: Seq<Card>,
    p: spec_fn(Card) -> bool,
    rank: Rank,
)
    requires
        all_valid(cards),
        cards.no_duplicates(),
        cards.len() >= 5,
        fixed == cards.filter(p),
        fixed.len() < 5,
        forall|i: int| 0 <= i < cards.len() && (#[trigger] cards[i]).rank == rank ==> p(cards[i]),
    ensures
        of_rank(with_kickers(fixed, cards), rank) == of_rank(fixed, rank),
{
    let picks = kickers(fixed, cards);
    lemma_with_kickers_shape(fixed, cards, p);
    lemma_kickers(fixed, cards);
    assert forall|j: int| 0 <= j < picks.len() implies !has_rank(rank)(#[trigger] picks[j]) by {
        if picks[j].rank == rank {
            let k = choose|k: int| 0 <= k < cards.len() && cards[k] == picks[j];
            assert(p(cards[k]));
            lemma_filter_member(cards, p, cards[k]);
        }
    }
    lemma_filter_keeps_none(picks, has_rank(rank));
    Seq::filter_distributes_over_add(fixed, picks, has_rank(rank));
    assert(of_rank(fixed, rank) + Seq::<Card>::empty() =~= of_rank(fixed, rank));
}

/// The hand of a flush suit is of that suit, and a run where it is a
/// straight flush.
pub proof fn lemma_flush_hand_shows(sorted: Seq<Card>, suit: Suit)
    requires
        of_suit(sorted, suit).len() >= 5,
    ensures
        shows(flush_hand(sorted, suit).hand, flush_hand(sorted, suit).hand_rank),
{
    let flush = of_suit(sorted, suit);
    let hand = flush_hand(sorted, suit).hand;
    lemma_first_run_from(ranks_of(flush), 0);
    let from = match first_run(ranks_of(flush)) {
        Some(at) => at,
        None => 0,
    };
    assert(hand == flush.subrange(from, from + 5));
    assert forall|i: int| 0 <= i < hand.len() implies (#[trigger] hand[i]).suit == suit by {
        assert(hand[i] == flush[from + i]);
        sorted.lemma_filter_pred(has_suit(suit), from + i);
    }
    assert(hand[0].suit == suit);
    if first_run(ranks_of(flush)) is Some {
        lemma_stretch_of_run(flush, from);
    }
}

/// Five cards from the start of a run on are a run.
pub proof fn lemma_stretch_of_run(cards: Seq<Card>, at: int)
    requires
        is_run(ranks_of(cards), at),
    ensures
        is_run(ranks_of(cards.subrange(at, at + 5)), 0),
{
    let hand = cards.subrange(at, at + 5);
    assert(ranks_of(hand)[0] == ranks_of(cards)[at]);
    assert(ranks_of(hand)[1] == ranks_of(cards)[at + 1]);
    assert(ranks_of(hand)[2] == ranks_of(cards)[at + 2]);
    assert(ranks_of(hand)[3] == ranks_of(cards)[at + 3]);
    assert(ranks_of(hand)[4] == ranks_of(cards)[at + 4]);
}

/// The cards of one rank, filled up with kickers, are still all the cards
/// of that rank in the hand.
pub proof fn lemma_one_rank_shows(sorted: Seq<Card>, rank: Rank)
    requires
        all_valid(sorted),
        sorted.no_duplicates(),
        sorted.len() >= 5,
        of_rank(sorted, rank).len() < 5,
    ensures
        of_rank(with_kickers(of_rank(sorted, rank), sorted), rank) == of_rank(sorted, rank),
{
    lemma_kickers_miss_rank(of_rank(sorted, rank), sorted, has_rank(rank), rank);
    lemma_of_rank_of_rank(sorted, rank);
}

/// The cards of two ranks, filled up with kickers, are still all the cards
/// of either rank in the hand.
pub proof fn lemma_two_ranks_show(sorted: Seq<Card>, high: Rank, low: Rank)
    requires
        all_valid(sorted),
        sorted.no_duplicates(),
        sorted.len() >= 5,
        of_ranks(sorted, high, low).len() < 5,
    ensures
        of_rank(with_kickers(of_ranks(sorted, high, low), sorted), high) == of_rank(sorted, high),
        of_rank(with_kickers(of_ranks(sorted, high, low), sorted), low) == of_rank(sorted, low),
{
    let four = of_ranks(sorted, high, low);
    lemma_kickers_miss_rank(four, sorted, has_rank_of(high, low), high);
    lemma_kickers_miss_rank(four, sorted, has_rank_of(high, low), low);
    lemma_of_rank_of_ranks(sorted, high, low, high);
    lemma_of_rank_of_ranks(sorted, high, low, low);
}

/// Of two trips in cards that never ascend in rank, the card that stands
/// last is one of the lower: without it three cards of the higher rank and
/// two of the lower are left.
pub proof fn lemma_two_trips_show(sorted: Seq<Card>, high: Rank, low: Rank)
    requires
        descending(sorted),
        high > low,
        of_rank(sorted, high).len() == 3,
        of_rank(sorted, low).len() == 3,
    ensures
        of_rank(of_ranks(sorted, high, low).drop_last(), high).len() == 3,
        of_rank(of_ranks(sorted, high, low).drop_last(), low).len() == 2,
{
    let six = of_ranks(sorted, high, low);
    let hand = six.drop_last();
    lemma_of_ranks_count(sorted, high, low);
    lemma_of_rank_of_ranks(sorted, high, low, high);
    lemma_of_rank_of_ranks(sorted, high, low, low);
    lemma_kept_descending(sorted, has_rank_of(high, low));
    sorted.lemma_filter_pred(has_rank_of(high, low), 5);
    if six[5].rank == high {
        let lower = of_rank(six, low);
        six.lemma_filter_pred(has_rank(low), 0);
        assert(lower.contains(lower[0]));
        lemma_filter_member(six, has_rank(low), lower[0]);
        let k = choose|k: int| 0 <= k < six.len() && six[k] == lower[0];
        assert(six[k].rank >= six[5].rank);
        assert(false);
    }
    lemma_front_and_last(six);
    hand.lemma_filter_push(six.last(), has_rank(high));
    hand.lemma_filter_push(six.last(), has_rank(low));
}

/// Five kickers alone never ascend in rank.
pub proof fn lemma_high_cards_show(sorted: Seq<Card>)
    requires
        all_valid(sorted),
        sorted.no_duplicates(),
        sorted.len() >= 5,
    ensures
        descending(with_kickers(Seq::empty(), sorted)),
{
    let none = Seq::<Card>::empty();
    assert forall|i: int| 0 <= i < sorted.len() implies !has_rank(0)(#[trigger] sorted[i]) by {
        assert(sorted[i].valid());
    }
    lemma_filter_keeps_none(sorted, has_rank(0));
    lemma_with_kickers_shape(none, sorted, has_rank(0));
    lemma_kickers(none, sorted);
    assert(with_kickers(none, sorted) =~= kickers(none, sorted));
}

/// The best hand of a holding shows the pattern of its kind: a straight
/// flush is a run in one suit, quads hold four cards of one rank, a full
/// house three of one rank and two of another, a flush is of one suit, a
/// straight is a run, trips hold three cards of one rank, two pair two of
/// each of two ranks, a pair two of one rank, and a high card hand never
/// ascends in rank.
pub proof fn lemma_hand_shows_its_kind(cards: Seq<Card>)
    requires
        valid_holding(cards),
    ensures
        shows(best_hand(cards).hand, best_hand(cards).hand_rank),
{
    let sorted = by_rank(cards);
    let hand = best_hand(cards).hand;
    lemma_by_rank_rearranges(cards);
    lemma_ranks_held(cards, 2, 2);
    lemma_ranks_held(cards, 3, 2);
    lemma_ranks_held(cards, 4, 2);
    let pairs = pairs(cards);
    let trips = trips(cards);
    let quads = quads(cards);
    if let Some(suit) = flush_suit(cards) {
        assert(of_suit(sorted, suit).len() == of_suit(cards, suit).len());
        lemma_flush_hand_shows(sorted, suit);
    } else if quads.len() > 0 {
        assert(of_rank(sorted, quads[0]) == of_rank(cards, quads[0]));
        lemma_one_rank_shows(sorted, quads[0]);
        assert(of_rank(hand, quads[0]).len() == 4);
    } else if trips.len() > 0 && pairs.len() > 0 {
        assert(of_rank(sorted, trips[0]) == of_rank(cards, trips[0]));
        assert(of_rank(sorted, pairs[0]) == of_rank(cards, pairs[0]));
        lemma_of_rank_of_ranks(sorted, trips[0], pairs[0], trips[0]);
        lemma_of_rank_of_ranks(sorted, trips[0], pairs[0], pairs[0]);
        assert(of_rank(hand, trips[0]).len() == 3 && of_rank(hand, pairs[0]).len() == 2);
    } else if trips.len() > 1 {
        assert(of_rank(sorted, trips[0]) == of_rank(cards, trips[0]));
        assert(of_rank(sorted, trips[1]) == of_rank(cards, trips[1]));
        lemma_two_trips_show(sorted, trips[0], trips[1]);
        assert(of_rank(hand, trips[0]).len() == 3 && of_rank(hand, trips[1]).len() == 2);
    } else if let Some(at) = first_run(ranks_of(sorted)) {
        lemma_first_run_from(ranks_of(sorted), 0);
        lemma_stretch_of_run(sorted, at);
    } else if trips.len() > 0 {
        assert(of_rank(sorted, trips[0]) == of_rank(cards, trips[0]));
        lemma_one_rank_shows(sorted, trips[0]);
        assert(of_rank(hand, trips[0]).len() == 3);
    } else if pairs.len() > 1 {
        assert(of_rank(sorted, pairs[0]) == of_rank(cards, pairs[0]));
        assert(of_rank(sorted, pairs[1]) == of_rank(cards, pairs[1]));
        lemma_of_ranks_count(sorted, pairs[0], pairs[1]);
        lemma_two_ranks_show(sorted, pairs[0], pairs[1]);
        assert(of_rank(hand, pairs[0]).len() == 2 && of_rank(hand, pairs[1]).len() == 2);
    } else if pairs.len() > 0 {
        assert(of_rank(sorted, pairs[0]) == of_rank(cards, pairs[0]));
        lemma_one_rank_shows(sorted, pairs[0]);
        assert(of_rank(hand, pairs[0]).len() == 2);
    } else {
        lemma_high_cards_show(sorted);
    }
}

} // verus!
