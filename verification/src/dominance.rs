//! Which kind of hand wins where a holding contains more than one.

use vstd::prelude::*;
use crate::deck::{Card, Rank, Suit};
use crate::filtering::{
    both, either, lemma_filter_agree, lemma_filter_at_most_one, lemma_filter_counts,
    lemma_filter_keeps_all, lemma_filter_keeps_none, lemma_filter_twice,
};
use crate::hand::HandRank;
use crate::ranking::{
    best_hand, by_rank, first_run, flush_hand, flush_suit, has_rank, has_rank_of, has_suit,
    lemma_by_rank_rearranges, lemma_first_run_from, lemma_flush_hand_shape, lemma_kept_shape,
    lemma_of_ranks_count,
    lemma_ranks_held, of_rank, of_suit, pairs, quads, ranks_of, trips, valid_holding,
};

verus! {

/// Among distinct cards one suit holds one card of a rank at most.
pub proof fn lemma_one_card_of_rank_and_suit(cards: Seq<Card>, rank: Rank, suit: Suit)
    requires
        cards.no_duplicates(),
    ensures
        cards.filter(both(has_suit(suit), has_rank(rank))).len() <= 1,
{
    lemma_filter_at_most_one(cards, both(has_suit(suit), has_rank(rank)));
}

/// Distinct cards hold four cards of one rank at most, one of each suit.
pub proof fn lemma_at_most_four_of_a_rank(cards: Seq<Card>, rank: Rank)
    requires
        cards.no_duplicates(),
    ensures
        of_rank(cards, rank).len() <= 4,
{
    let held = of_rank(cards, rank);
    let clubs = has_suit(Suit::Clubs);
    let diamonds = has_suit(Suit::Diamonds);
    let hearts = has_suit(Suit::Hearts);
    let spades = has_suit(Suit::Spades);
    let minor = either(clubs, diamonds);
    let major = either(hearts, spades);
    lemma_filter_twice(cards, has_rank(rank), clubs);
    lemma_filter_twice(cards, has_rank(rank), diamonds);
    lemma_filter_twice(cards, has_rank(rank), hearts);
    lemma_filter_twice(cards, has_rank(rank), spades);
    lemma_filter_at_most_one(cards, both(has_rank(rank), clubs));
    lemma_filter_at_most_one(cards, both(has_rank(rank), diamonds));
    lemma_filter_at_most_one(cards, both(has_rank(rank), hearts));
    lemma_filter_at_most_one(cards, both(has_rank(rank), spades));
    lemma_filter_counts(held, clubs, diamonds);
    lemma_filter_counts(held, hearts, spades);
    lemma_filter_counts(held, minor, major);
    assert forall|i: int| 0 <= i < held.len() implies either(minor, major)(#[trigger] held[i]) by {
        let suit = held[i].suit;
        assert(suit == Suit::Clubs || suit == Suit::Diamonds || suit == Suit::Hearts || suit
            == Suit::Spades);
    }
    lemma_filter_keeps_all(held, either(minor, major));
}

/// Two suits share no card: together they hold no more cards than there are.
pub proof fn lemma_two_suits_count(cards: Seq<Card>, first: Suit, second: Suit)
    requires
        first != second,
    ensures
        of_suit(cards, first).len() + of_suit(cards, second).len() <= cards.len(),
{
    let p = has_suit(first);
    let q = has_suit(second);
    lemma_filter_counts(cards, p, q);
    assert forall|i: int| 0 <= i < cards.len() implies !both(p, q)(#[trigger] cards[i]) by {}
    lemma_filter_keeps_none(cards, both(p, q));
    cards.lemma_filter_len(either(p, q));
}

/// Among seven cards one suit at most holds five: the suit of the flush is
/// the only one with five cards.
pub proof fn lemma_flush_suit_is_unique(cards: Seq<Card>, suit: Suit)
    requires
        cards.len() == 7,
        of_suit(cards, suit).len() >= 5,
    ensures
        flush_suit(cards) == Some(suit),
{
    if suit != Suit::Clubs {
        lemma_two_suits_count(cards, Suit::Clubs, suit);
    }
    if suit != Suit::Diamonds {
        lemma_two_suits_count(cards, Suit::Diamonds, suit);
    }
    if suit != Suit::Hearts {
        lemma_two_suits_count(cards, Suit::Hearts, suit);
    }
    if suit != Suit::Spades {
        lemma_two_suits_count(cards, Suit::Spades, suit);
    }
}

/// Seven distinct cards cannot hold five cards of one suit and four of one rank.
pub proof fn lemma_no_flush_beside_quads(cards: Seq<Card>, rank: Rank, suit: Suit)
    requires
        cards.len() == 7,
        cards.no_duplicates(),
        of_rank(cards, rank).len() >= 4,
    ensures
        of_suit(cards, suit).len() < 5,
{
    let p = has_suit(suit);
    let q = has_rank(rank);
    lemma_filter_counts(cards, p, q);
    lemma_one_card_of_rank_and_suit(cards, rank, suit);
    cards.lemma_filter_len(either(p, q));
}

/// Seven distinct cards cannot hold five cards of one suit and five cards of
/// two ranks.
pub proof fn lemma_no_flush_beside_full_house(
    cards: Seq<Card>,
    three: Rank,
    two: Rank,
    suit: Suit,
)
    requires
        cards.len() == 7,
        cards.no_duplicates(),
        three != two,
        of_rank(cards, three).len() + of_rank(cards, two).len() >= 5,
    ensures
        of_suit(cards, suit).len() < 5,
{
    let p = has_suit(suit);
    let q = has_rank_of(three, two);
    let a = both(p, has_rank(three));
    let b = both(p, has_rank(two));
    lemma_of_ranks_count(cards, three, two);
    lemma_filter_counts(cards, p, q);
    cards.lemma_filter_len(either(p, q));
    lemma_one_card_of_rank_and_suit(cards, three, suit);
    lemma_one_card_of_rank_and_suit(cards, two, suit);
    lemma_filter_counts(cards, a, b);
    assert forall|i: int| 0 <= i < cards.len() implies either(a, b)(#[trigger] cards[i]) == both(
        p,
        q,
    )(cards[i]) by {}
    lemma_filter_agree(cards, either(a, b), both(p, q));
}

/// A holding with five cards of one suit ranks as a flush or as a straight
/// flush, whatever straight its cards make across the suits: as a straight
/// flush where the cards of the suit hold a run, as a flush where they do
/// not. Every card of the hand is of the suit.
pub proof fn lemma_flush_beats_straight(cards: Seq<Card>, suit: Suit)
    requires
        valid_holding(cards),
        of_suit(cards, suit).len() >= 5,
    ensures
        best_hand(cards) == flush_hand(by_rank(cards), suit),
        first_run(ranks_of(of_suit(by_rank(cards), suit))) is Some ==> best_hand(cards).hand_rank
            == HandRank::StraightFlush,
        first_run(ranks_of(of_suit(by_rank(cards), suit))) is None ==> best_hand(cards).hand_rank
            == HandRank::Flush,
        forall|i: int|
            0 <= i < best_hand(cards).hand.len() ==> (#[trigger] best_hand(cards).hand[i]).suit
                == suit,
{
    lemma_flush_suit_is_unique(cards, suit);
    lemma_by_rank_rearranges(cards);
    let flush = of_suit(by_rank(cards), suit);
    let hand = best_hand(cards).hand;
    assert(flush.len() == of_suit(cards, suit).len());
    lemma_first_run_from(ranks_of(flush), 0);
    assert forall|i: int| 0 <= i < hand.len() implies (#[trigger] hand[i]).suit == suit by {
        match first_run(ranks_of(flush)) {
            Some(at) => {
                assert(hand[i] == flush[at + i]);
                by_rank(cards).lemma_filter_pred(has_suit(suit), at + i);
            },
            None => {
                assert(hand[i] == flush[i]);
                by_rank(cards).lemma_filter_pred(has_suit(suit), i);
            },
        }
    }
}

/// Four cards of one rank make the hand: a holding that contains them ranks
/// as quads, whatever else it contains, and the four cards lead the hand.
pub proof fn lemma_quads_dominate(cards: Seq<Card>, rank: Rank)
    requires
        valid_holding(cards),
        of_rank(cards, rank).len() == 4,
    ensures
        best_hand(cards).hand_rank == HandRank::Quads,
        best_hand(cards).hand.subrange(0, 4) == of_rank(cards, rank),
{
    lemma_no_flush_beside_quads(cards, rank, Suit::Clubs);
    lemma_no_flush_beside_quads(cards, rank, Suit::Diamonds);
    lemma_no_flush_beside_quads(cards, rank, Suit::Hearts);
    lemma_no_flush_beside_quads(cards, rank, Suit::Spades);
    let four = of_rank(cards, rank);
    lemma_held_rank_is_valid(cards, rank);
    lemma_ranks_held(cards, 4, 2);
    let top = quads(cards)[0];
    assert(quads(cards).contains(rank));
    if top != rank {
        lemma_of_ranks_count(cards, top, rank);
        cards.lemma_filter_len(has_rank_of(top, rank));
    }
    lemma_by_rank_rearranges(cards);
    assert(of_rank(by_rank(cards), rank) == four);
    assert(best_hand(cards).hand.subrange(0, 4) =~= four);
}

/// Three cards of one rank and two or three of another make the hand: a
/// holding that contains them ranks as a full house, whatever flush,
/// straight or lesser hand its cards would make.
pub proof fn lemma_full_house_dominates(cards: Seq<Card>, three: Rank, two: Rank)
    requires
        valid_holding(cards),
        three != two,
        of_rank(cards, three).len() == 3,
        2 <= of_rank(cards, two).len() <= 3,
    ensures
        best_hand(cards).hand_rank == HandRank::FullHouse,
{
    lemma_no_flush_beside_full_house(cards, three, two, Suit::Clubs);
    lemma_no_flush_beside_full_house(cards, three, two, Suit::Diamonds);
    lemma_no_flush_beside_full_house(cards, three, two, Suit::Hearts);
    lemma_no_flush_beside_full_house(cards, three, two, Suit::Spades);
    lemma_ranks_held(cards, 2, 2);
    lemma_ranks_held(cards, 3, 2);
    lemma_ranks_held(cards, 4, 2);
    lemma_held_rank_is_valid(cards, three);
    lemma_held_rank_is_valid(cards, two);
    if quads(cards).len() > 0 {
        let four = quads(cards)[0];
        lemma_of_ranks_count(cards, three, two);
        let p = has_rank(four);
        let q = has_rank_of(three, two);
        lemma_filter_counts(cards, p, q);
        assert forall|i: int| 0 <= i < cards.len() implies !both(p, q)(#[trigger] cards[i]) by {}
        lemma_filter_keeps_none(cards, both(p, q));
        cards.lemma_filter_len(either(p, q));
        assert(false);
    }
    assert(trips(cards).contains(three));
    if of_rank(cards, two).len() == 2 {
        assert(pairs(cards).contains(two));
    }
    if pairs(cards).len() == 0 {
        assert(of_rank(cards, two).len() == 3);
        assert(trips(cards).contains(two));
        let i = choose|i: int| 0 <= i < trips(cards).len() && trips(cards)[i] == three;
        let j = choose|j: int| 0 <= j < trips(cards).len() && trips(cards)[j] == two;
        assert(i != j);
    }
}

/// Only five cards of one suit make a flush or a straight flush.
pub proof fn lemma_flush_needs_five_of_a_suit(cards: Seq<Card>)
    requires
        valid_holding(cards),
        best_hand(cards).hand_rank == HandRank::Flush || best_hand(cards).hand_rank
            == HandRank::StraightFlush,
    ensures
        exists|suit: Suit| (#[trigger] of_suit(cards, suit)).len() >= 5,
{
    match flush_suit(cards) {
        Some(suit) => {
            assert(of_suit(cards, suit).len() >= 5);
        },
        None => {},
    }
}

/// Only four cards of one rank make quads.
pub proof fn lemma_quads_need_four_of_a_rank(cards: Seq<Card>)
    requires
        valid_holding(cards),
        best_hand(cards).hand_rank == HandRank::Quads,
    ensures
        exists|rank: Rank| (#[trigger] of_rank(cards, rank)).len() == 4,
{
    lemma_ranks_held(cards, 4, 2);
    if flush_suit(cards) is None {
        assert(of_rank(cards, quads(cards)[0]).len() == 4);
    } else {
        lemma_by_rank_rearranges(cards);
        lemma_flush_hand_shape(by_rank(cards), flush_suit(cards)->0);
    }
}

/// Only three cards of one rank and two or three of another make a full house.
pub proof fn lemma_full_house_needs_three_and_two(cards: Seq<Card>)
    requires
        valid_holding(cards),
        best_hand(cards).hand_rank == HandRank::FullHouse,
    ensures
        exists|three: Rank, two: Rank|
            three != two && (#[trigger] of_rank(cards, three)).len() == 3 && 2 <= (
            #[trigger] of_rank(cards, two)).len() <= 3,
{
    lemma_ranks_held(cards, 2, 2);
    lemma_ranks_held(cards, 3, 2);
    if flush_suit(cards) is None {
        let trips = trips(cards);
        let pairs = pairs(cards);
        if pairs.len() > 0 {
            assert(of_rank(cards, trips[0]).len() == 3 && of_rank(cards, pairs[0]).len() == 2);
        } else {
            assert(of_rank(cards, trips[0]).len() == 3 && of_rank(cards, trips[1]).len() == 3);
        }
    } else {
        lemma_by_rank_rearranges(cards);
        lemma_flush_hand_shape(by_rank(cards), flush_suit(cards)->0);
    }
}

/// A rank that a card of valid cards holds lies between the deuce and the ace.
pub proof fn lemma_held_rank_is_valid(cards: Seq<Card>, rank: Rank)
    requires
        valid_holding(cards),
        of_rank(cards, rank).len() > 0,
    ensures
        2 <= rank <= 14,
{
    let held = of_rank(cards, rank);
    lemma_kept_shape(cards, has_rank(rank));
    cards.lemma_filter_pred(has_rank(rank), 0);
    assert(cards.contains(held[0]));
    let k = choose|k: int| 0 <= k < cards.len() && cards[k] == held[0];
    assert(cards[k].valid());
}

} // verus!
