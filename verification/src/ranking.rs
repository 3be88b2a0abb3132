//! The rules of ranking, as mathematics: which cards of a holding count, in
//! what order, and which hand they make.

use vstd::prelude::*;
use vstd::seq_lib::lemma_no_dup_in_concat;
use crate::deck::{Card, Rank, Suit};
use crate::hand::{HandRank, RankedHand};
use crate::filtering::{
    both, either, lemma_filter_agree, lemma_filter_complement, lemma_filter_counts,
    lemma_filter_distinct, lemma_filter_keeps_all, lemma_filter_keeps_none, lemma_filter_member,
    lemma_filter_twice, negation,
};

verus! {

/// Holds of the cards of one rank.
pub open spec fn has_rank(rank: Rank) -> spec_fn(Card) -> bool {
    |c: Card| c.rank == rank
}

/// Holds of the cards of either of two ranks.
pub open spec fn has_rank_of(first: Rank, second: Rank) -> spec_fn(Card) -> bool {
    |c: Card| c.rank == first || c.rank == second
}

/// Holds of the cards of one suit.
pub open spec fn has_suit(suit: Suit) -> spec_fn(Card) -> bool {
    |c: Card| c.suit == suit
}

/// Holds of the cards that are not among `fixed`.
pub open spec fn not_among(fixed: Seq<Card>) -> spec_fn(Card) -> bool {
    |c: Card| !fixed.contains(c)
}

/// Holds of the cards whose rank lies between `low` and the ace.
pub open spec fn ranked_from(low: Rank) -> spec_fn(Card) -> bool {
    |c: Card| low <= c.rank <= 14
}

/// Holds of every card.
pub open spec fn any_card() -> spec_fn(Card) -> bool {
    |c: Card| true
}

/// The cards of one rank, in the order in which they stand.
pub open spec fn of_rank(cards: Seq<Card>, rank: Rank) -> Seq<Card> {
    cards.filter(has_rank(rank))
}

/// The cards of either of two ranks, in the order in which they stand.
pub open spec fn of_ranks(cards: Seq<Card>, first: Rank, second: Rank) -> Seq<Card> {
    cards.filter(has_rank_of(first, second))
}

/// The cards of one suit, in the order in which they stand.
pub open spec fn of_suit(cards: Seq<Card>, suit: Suit) -> Seq<Card> {
    cards.filter(has_suit(suit))
}

/// The cards that are not among `fixed`, in the order in which they stand.
pub open spec fn outside(cards: Seq<Card>, fixed: Seq<Card>) -> Seq<Card> {
    cards.filter(not_among(fixed))
}

/// The ranks of a sequence of cards, card by card.
pub open spec fn ranks_of(cards: Seq<Card>) -> Seq<Rank> {
    Seq::new(cards.len(), |i: int| cards[i].rank)
}

/// The suits of a sequence of cards, card by card.
pub open spec fn suits_of(cards: Seq<Card>) -> Seq<Suit> {
    Seq::new(cards.len(), |i: int| cards[i].suit)
}

/// Every card has a rank between the deuce and the ace.
pub open spec fn all_valid(cards: Seq<Card>) -> bool {
    forall|i: int| 0 <= i < cards.len() ==> (#[trigger] cards[i]).valid()
}

/// A holding to rank: seven valid cards, no card twice.
pub open spec fn valid_holding(cards: Seq<Card>) -> bool {
    &&& cards.len() == 7
    &&& all_valid(cards)
    &&& cards.no_duplicates()
}

/// The aces, then the kings, and so on down to the cards of rank `low`; cards
/// of one rank keep the order in which they stand in `cards`.
pub open spec fn from_rank_down(cards: Seq<Card>, low: Rank) -> Seq<Card>
    decreases 15 - low,
{
    if low > 14 {
        Seq::empty()
    } else {
        from_rank_down(cards, (low + 1) as Rank) + of_rank(cards, low)
    }
}

/// The valid cards by descending rank; cards of one rank keep the order in
/// which they stand in `cards`.
pub open spec fn by_rank(cards: Seq<Card>) -> Seq<Card> {
    from_rank_down(cards, 2)
}

/// The ranks are never ascending from one card to the next.
pub open spec fn descending(cards: Seq<Card>) -> bool {
    forall|i: int, j: int| 0 <= i < j < cards.len() ==> cards[i].rank >= cards[j].rank
}

/// Five ranks in a row from the place `at` on, each one below the rank before it.
pub open spec fn is_run(ranks: Seq<Rank>, at: int) -> bool {
    &&& 0 <= at
    &&& at + 5 <= ranks.len()
    &&& ranks[at] - ranks[at + 1] == 1
    &&& ranks[at + 1] - ranks[at + 2] == 1
    &&& ranks[at + 2] - ranks[at + 3] == 1
    &&& ranks[at + 3] - ranks[at + 4] == 1
}

/// The first place from `at` on where a run starts, if there is one.
pub open spec fn first_run_from(ranks: Seq<Rank>, at: int) -> Option<int>
    decreases ranks.len() - at,
{
    if at < 0 || at + 5 > ranks.len() {
        None
    } else if is_run(ranks, at) {
        Some(at)
    } else {
        first_run_from(ranks, at + 1)
    }
}

/// The first place where a run starts, if there is one. Ranks that repeat
/// break a run, and the ace counts high only.
pub open spec fn first_run(ranks: Seq<Rank>) -> Option<int> {
    first_run_from(ranks, 0)
}

/// The ranks from the ace down to `low` that exactly `times` cards hold,
/// highest first.
pub open spec fn ranks_held(cards: Seq<Card>, times: nat, low: Rank) -> Seq<Rank>
    decreases 15 - low,
{
    if low > 14 {
        Seq::empty()
    } else {
        let higher = ranks_held(cards, times, (low + 1) as Rank);
        if of_rank(cards, low).len() == times {
            higher.push(low)
        } else {
            higher
        }
    }
}

/// The ranks that exactly two cards hold, highest first.
pub open spec fn pairs(cards: Seq<Card>) -> Seq<Rank> {
    ranks_held(cards, 2, 2)
}

/// The ranks that exactly three cards hold, highest first.
pub open spec fn trips(cards: Seq<Card>) -> Seq<Rank> {
    ranks_held(cards, 3, 2)
}

/// The ranks that exactly four cards hold, highest first.
pub open spec fn quads(cards: Seq<Card>) -> Seq<Rank> {
    ranks_held(cards, 4, 2)
}

/// The first suit, in the order clubs, diamonds, hearts, spades, that five
/// cards or more share.
pub open spec fn flush_suit(cards: Seq<Card>) -> Option<Suit> {
    if of_suit(cards, Suit::Clubs).len() >= 5 {
        Some(Suit::Clubs)
    } else if of_suit(cards, Suit::Diamonds).len() >= 5 {
        Some(Suit::Diamonds)
    } else if of_suit(cards, Suit::Hearts).len() >= 5 {
        Some(Suit::Hearts)
    } else if of_suit(cards, Suit::Spades).len() >= 5 {
        Some(Suit::Spades)
    } else {
        None
    }
}

/// The kickers that fill `fixed` up to five: the highest of the cards of
/// `cards` that are not among `fixed`, in descending rank; among cards of one
/// rank those that stand first in `cards` go first.
pub open spec fn kickers(fixed: Seq<Card>, cards: Seq<Card>) -> Seq<Card> {
    by_rank(outside(cards, fixed)).take(5 - fixed.len())
}

/// The cards of `fixed`, and behind them the kickers that fill them up to
/// five. Five cards or more are left as they are.
pub open spec fn with_kickers(fixed: Seq<Card>, cards: Seq<Card>) -> Seq<Card> {
    if fixed.len() < 5 {
        fixed + kickers(fixed, cards)
    } else {
        fixed
    }
}

/// All the cards are of one suit.
pub open spec fn one_suit(hand: Seq<Card>) -> bool {
    forall|i: int| 0 <= i < hand.len() ==> (#[trigger] hand[i]).suit == hand[0].suit
}

/// Whether cards show the pattern that a kind of hand is named for: so many
/// cards of one rank, one suit throughout, ranks in a row.
pub open spec fn shows(hand: Seq<Card>, kind: HandRank) -> bool {
    match kind {
        HandRank::StraightFlush => one_suit(hand) && is_run(ranks_of(hand), 0),
        HandRank::Quads => exists|rank: Rank| (#[trigger] of_rank(hand, rank)).len() == 4,
        HandRank::FullHouse => exists|three: Rank, two: Rank|
            three != two && (#[trigger] of_rank(hand, three)).len() == 3 && (#[trigger] of_rank(
                hand,
                two,
            )).len() == 2,
        HandRank::Flush => one_suit(hand),
        HandRank::Straight => is_run(ranks_of(hand), 0),
        HandRank::Trips => exists|rank: Rank| (#[trigger] of_rank(hand, rank)).len() == 3,
        HandRank::TwoPair => exists|high: Rank, low: Rank|
            high != low && (#[trigger] of_rank(hand, high)).len() == 2 && (#[trigger] of_rank(
                hand,
                low,
            )).len() == 2,
        HandRank::Pair => exists|rank: Rank| (#[trigger] of_rank(hand, rank)).len() == 2,
        HandRank::HighCard => descending(hand),
    }
}

/// The hand that the cards of a flush suit make: the highest run among them,
/// a straight flush, or else the five highest of them, a flush.
pub open spec fn flush_hand(sorted: Seq<Card>, suit: Suit) -> RankedHand {
    let flush = of_suit(sorted, suit);
    match first_run(ranks_of(flush)) {
        Some(at) => RankedHand {
            hand_rank: HandRank::StraightFlush,
            hand: flush.subrange(at, at + 5),
        },
        None => RankedHand { hand_rank: HandRank::Flush, hand: flush.take(5) },
    }
}

/// The best hand of a holding. The kinds are tried in this order: straight
/// flush and flush, quads, full house, straight, trips, two pair, pair, high
/// card. The cards of the hand come in descending rank, kickers last.
///
/// A straight is five cards that stand next to each other in the holding
/// ordered by rank, so a pair inside the span of ranks hides it. Of two
/// trips the lower gives up the card that stands last in the holding.
pub open spec fn best_hand(cards: Seq<Card>) -> RankedHand {
    let sorted = by_rank(cards);
    let pairs = pairs(cards);
    let trips = trips(cards);
    let quads = quads(cards);
    if let Some(suit) = flush_suit(cards) {
        flush_hand(sorted, suit)
    } else if quads.len() > 0 {
        RankedHand {
            hand_rank: HandRank::Quads,
            hand: with_kickers(of_rank(sorted, quads[0]), sorted),
        }
    } else if trips.len() > 0 && pairs.len() > 0 {
        RankedHand { hand_rank: HandRank::FullHouse, hand: of_ranks(sorted, trips[0], pairs[0]) }
    } else if trips.len() > 1 {
        RankedHand {
            hand_rank: HandRank::FullHouse,
            hand: of_ranks(sorted, trips[0], trips[1]).drop_last(),
        }
    } else if let Some(at) = first_run(ranks_of(sorted)) {
        RankedHand { hand_rank: HandRank::Straight, hand: sorted.subrange(at, at + 5) }
    } else if trips.len() > 0 {
        RankedHand {
            hand_rank: HandRank::Trips,
            hand: with_kickers(of_rank(sorted, trips[0]), sorted),
        }
    } else if pairs.len() > 1 {
        RankedHand {
            hand_rank: HandRank::TwoPair,
            hand: with_kickers(of_ranks(sorted, pairs[0], pairs[1]), sorted),
        }
    } else if pairs.len() > 0 {
        RankedHand {
            hand_rank: HandRank::Pair,
            hand: with_kickers(of_rank(sorted, pairs[0]), sorted),
        }
    } else {
        RankedHand { hand_rank: HandRank::HighCard, hand: with_kickers(Seq::empty(), sorted) }
    }
}

/// What `first_run_from` finds is a run, with no run between `from` and it;
/// where it finds nothing, no run starts at `from` or later.
pub proof fn lemma_first_run_from(ranks: Seq<Rank>, from: int)
    requires
        0 <= from,
    ensures
        match first_run_from(ranks, from) {
            Some(at) => from <= at && is_run(ranks, at) && forall|k: int|
                from <= k < at ==> !is_run(ranks, k),
            None => forall|k: int| from <= k ==> !is_run(ranks, k),
        },
    decreases ranks.len() - from,
{
    if from + 5 > ranks.len() {
    } else if is_run(ranks, from) {
    } else {
        lemma_first_run_from(ranks, from + 1);
    }
}

/// Filtering `from_rank_down` by a predicate keeps as many cards as filtering
/// `cards` by the predicate and the span of ranks.
pub proof fn lemma_from_rank_down_count(cards: Seq<Card>, low: Rank, p: spec_fn(Card) -> bool)
    ensures
        from_rank_down(cards, low).filter(p).len() == cards.filter(both(p, ranked_from(low))).len(),
    decreases 15 - low,
{
    if low > 14 {
        reveal(Seq::filter);
        assert forall|i: int| 0 <= i < cards.len() implies !both(p, ranked_from(low))(
            #[trigger] cards[i],
        ) by {}
        lemma_filter_keeps_none(cards, both(p, ranked_from(low)));
    } else {
        let next = (low + 1) as Rank;
        let higher = from_rank_down(cards, next);
        let level = of_rank(cards, low);
        lemma_from_rank_down_count(cards, next, p);
        Seq::filter_distributes_over_add(higher, level, p);
        lemma_filter_twice(cards, has_rank(low), p);
        let above = both(p, ranked_from(next));
        let here = both(has_rank(low), p);
        lemma_filter_counts(cards, above, here);
        assert forall|i: int| 0 <= i < cards.len() implies !both(above, here)(
            #[trigger] cards[i],
        ) by {}
        lemma_filter_keeps_none(cards, both(above, here));
        assert forall|i: int| 0 <= i < cards.len() implies either(above, here)(
            #[trigger] cards[i],
        ) == both(p, ranked_from(low))(cards[i]) by {}
        lemma_filter_agree(cards, either(above, here), both(p, ranked_from(low)));
    }
}

/// The cards of `from_rank_down` are the cards of `cards` whose rank lies in the span.
pub proof fn lemma_from_rank_down_member(cards: Seq<Card>, low: Rank, c: Card)
    ensures
        from_rank_down(cards, low).contains(c) <==> cards.contains(c) && low <= c.rank <= 14,
    decreases 15 - low,
{
    if low > 14 {
    } else {
        let next = (low + 1) as Rank;
        let higher = from_rank_down(cards, next);
        let level = of_rank(cards, low);
        lemma_from_rank_down_member(cards, next, c);
        lemma_filter_member(cards, has_rank(low), c);
        if (higher + level).contains(c) {
            let i = choose|i: int| 0 <= i < (higher + level).len() && (higher + level)[i] == c;
            if i < higher.len() {
                assert(higher[i] == c);
            } else {
                assert(level[i - higher.len()] == c);
            }
        }
        if higher.contains(c) {
            let i = choose|i: int| 0 <= i < higher.len() && higher[i] == c;
            assert((higher + level)[i] == c);
        }
        if level.contains(c) {
            let i = choose|i: int| 0 <= i < level.len() && level[i] == c;
            assert((higher + level)[higher.len() + i] == c);
        }
    }
}

/// `from_rank_down` has no card twice where `cards` has none twice.
pub proof fn lemma_from_rank_down_distinct(cards: Seq<Card>, low: Rank)
    requires
        cards.no_duplicates(),
    ensures
        from_rank_down(cards, low).no_duplicates(),
    decreases 15 - low,
{
    if low > 14 {
    } else {
        let next = (low + 1) as Rank;
        let higher = from_rank_down(cards, next);
        let level = of_rank(cards, low);
        lemma_from_rank_down_distinct(cards, next);
        lemma_filter_distinct(cards, has_rank(low));
        assert forall|i: int, j: int| 0 <= i < higher.len() && 0 <= j < level.len() implies higher[i]
            != level[j] by {
            assert(higher.contains(higher[i]));
            lemma_from_rank_down_member(cards, next, higher[i]);
            cards.lemma_filter_pred(has_rank(low), j);
        }
        lemma_no_dup_in_concat(higher, level);
    }
}

/// `from_rank_down` never ascends in rank.
pub proof fn lemma_from_rank_down_descending(cards: Seq<Card>, low: Rank)
    ensures
        descending(from_rank_down(cards, low)),
    decreases 15 - low,
{
    if low > 14 {
    } else {
        let next = (low + 1) as Rank;
        let higher = from_rank_down(cards, next);
        let level = of_rank(cards, low);
        let all = higher + level;
        lemma_from_rank_down_descending(cards, next);
        assert forall|i: int, j: int| 0 <= i < j < all.len() implies all[i].rank
            >= all[j].rank by {
            if j < higher.len() {
                assert(all[i] == higher[i] && all[j] == higher[j]);
            } else {
                cards.lemma_filter_pred(has_rank(low), j - higher.len());
                assert(all[j] == level[j - higher.len()]);
                if i < higher.len() {
                    assert(all[i] == higher[i]);
                    assert(higher.contains(higher[i]));
                    lemma_from_rank_down_member(cards, next, higher[i]);
                } else {
                    cards.lemma_filter_pred(has_rank(low), i - higher.len());
                    assert(all[i] == level[i - higher.len()]);
                }
            }
        }
    }
}

/// The cards of one rank stand in `from_rank_down` as they stand in `cards`.
pub proof fn lemma_from_rank_down_of_rank(cards: Seq<Card>, low: Rank, rank: Rank)
    ensures
        of_rank(from_rank_down(cards, low), rank) == if low <= rank <= 14 {
            of_rank(cards, rank)
        } else {
            Seq::<Card>::empty()
        },
    decreases 15 - low,
{
    if low > 14 {
        reveal(Seq::filter);
    } else {
        let next = (low + 1) as Rank;
        let higher = from_rank_down(cards, next);
        let level = of_rank(cards, low);
        lemma_from_rank_down_of_rank(cards, next, rank);
        Seq::filter_distributes_over_add(higher, level, has_rank(rank));
        if rank == low {
            assert forall|i: int| 0 <= i < level.len() implies has_rank(rank)(#[trigger] level[i]) by {
                cards.lemma_filter_pred(has_rank(low), i);
            }
            lemma_filter_keeps_all(level, has_rank(rank));
            assert(Seq::<Card>::empty() + level =~= level);
        } else {
            assert forall|i: int| 0 <= i < level.len() implies !has_rank(rank)(#[trigger] level[i]) by {
                cards.lemma_filter_pred(has_rank(low), i);
            }
            lemma_filter_keeps_none(level, has_rank(rank));
            assert(higher.filter(has_rank(rank)) + Seq::<Card>::empty() =~= higher.filter(
                has_rank(rank),
            ));
        }
    }
}

/// What ordering by rank keeps of a sequence of valid cards: every card, once
/// each where they were distinct, never ascending, and as many cards under
/// any predicate.
pub proof fn lemma_by_rank_rearranges(cards: Seq<Card>)
    requires
        all_valid(cards),
    ensures
        by_rank(cards).len() == cards.len(),
        all_valid(by_rank(cards)),
        descending(by_rank(cards)),
        cards.no_duplicates() ==> by_rank(cards).no_duplicates(),
        forall|c: Card| by_rank(cards).contains(c) <==> cards.contains(c),
        forall|p: spec_fn(Card) -> bool| #[trigger] by_rank(cards).filter(p).len() == cards.filter(p).len(),
        forall|rank: Rank| 2 <= rank <= 14 ==> #[trigger] of_rank(by_rank(cards), rank) == of_rank(cards, rank),
{
    let sorted = by_rank(cards);
    lemma_from_rank_down_descending(cards, 2);
    if cards.no_duplicates() {
        lemma_from_rank_down_distinct(cards, 2);
    }
    assert forall|c: Card| sorted.contains(c) <==> cards.contains(c) by {
        lemma_from_rank_down_member(cards, 2, c);
        if cards.contains(c) {
            let i = choose|i: int| 0 <= i < cards.len() && cards[i] == c;
            assert(cards[i].valid());
        }
    }
    assert forall|p: spec_fn(Card) -> bool| #[trigger]
        sorted.filter(p).len() == cards.filter(p).len() by {
        lemma_from_rank_down_count(cards, 2, p);
        assert forall|i: int| 0 <= i < cards.len() implies both(p, ranked_from(2))(
            #[trigger] cards[i],
        ) == p(cards[i]) by {
            assert(cards[i].valid());
        }
        lemma_filter_agree(cards, both(p, ranked_from(2)), p);
    }
    assert(sorted.len() == cards.len()) by {
        assert(sorted.filter(any_card()).len() == cards.filter(any_card()).len());
        lemma_filter_keeps_all(sorted, any_card());
        lemma_filter_keeps_all(cards, any_card());
    }
    assert forall|i: int| 0 <= i < sorted.len() implies (#[trigger] sorted[i]).valid() by {
        assert(sorted.contains(sorted[i]));
        lemma_from_rank_down_member(cards, 2, sorted[i]);
    }
    assert forall|rank: Rank| 2 <= rank <= 14 implies #[trigger] of_rank(sorted, rank) == of_rank(
        cards,
        rank,
    ) by {
        lemma_from_rank_down_of_rank(cards, 2, rank);
    }
}

/// The ranks that `ranks_held` lists lie in the span, are held by exactly
/// `times` cards and descend; and it lists every such rank.
pub proof fn lemma_ranks_held(cards: Seq<Card>, times: nat, low: Rank)
    ensures
        forall|i: int|
            0 <= i < ranks_held(cards, times, low).len() ==> {
                let rank = #[trigger] ranks_held(cards, times, low)[i];
                low <= rank <= 14 && of_rank(cards, rank).len() == times
            },
        forall|i: int, j: int|
            0 <= i < j < ranks_held(cards, times, low).len() ==> ranks_held(cards, times, low)[i]
                > ranks_held(cards, times, low)[j],
        forall|rank: Rank|
            low <= rank <= 14 && of_rank(cards, rank).len() == times ==> ranks_held(
                cards,
                times,
                low,
            ).contains(rank),
    decreases 15 - low,
{
    if low > 14 {
    } else {
        let next = (low + 1) as Rank;
        let higher = ranks_held(cards, times, next);
        let held = ranks_held(cards, times, low);
        lemma_ranks_held(cards, times, next);
        assert forall|rank: Rank|
            low <= rank <= 14 && of_rank(cards, rank).len() == times implies held.contains(
            rank,
        ) by {
            if rank == low {
                assert(held[held.len() - 1] == rank);
            } else {
                assert(higher.contains(rank));
                let i = choose|i: int| 0 <= i < higher.len() && higher[i] == rank;
                assert(held[i] == rank);
            }
        }
    }
}

/// Two different ranks share no card: the cards of either rank are as many
/// as the cards of the one and of the other together.
pub proof fn lemma_of_ranks_count(cards: Seq<Card>, first: Rank, second: Rank)
    requires
        first != second,
    ensures
        of_ranks(cards, first, second).len() == of_rank(cards, first).len() + of_rank(
            cards,
            second,
        ).len(),
{
    let p = has_rank(first);
    let q = has_rank(second);
    lemma_filter_counts(cards, p, q);
    assert forall|i: int| 0 <= i < cards.len() implies !both(p, q)(#[trigger] cards[i]) by {}
    lemma_filter_keeps_none(cards, both(p, q));
    assert forall|i: int| 0 <= i < cards.len() implies either(p, q)(#[trigger] cards[i])
        == has_rank_of(first, second)(cards[i]) by {}
    lemma_filter_agree(cards, either(p, q), has_rank_of(first, second));
}

/// A stretch of a sequence without duplicates has no duplicates, and holds
/// only cards of the sequence.
pub proof fn lemma_stretch(cards: Seq<Card>, from: int, to: int)
    requires
        0 <= from <= to <= cards.len(),
    ensures
        cards.no_duplicates() ==> cards.subrange(from, to).no_duplicates(),
        forall|i: int| 0 <= i < to - from ==> cards.contains(#[trigger] cards.subrange(from, to)[i]),
{
    let part = cards.subrange(from, to);
    assert forall|i: int| 0 <= i < to - from implies cards.contains(#[trigger] part[i]) by {
        assert(cards[from + i] == part[i]);
    }
    if cards.no_duplicates() {
        assert forall|i: int, j: int| 0 <= i < part.len() && 0 <= j < part.len() && i != j implies part[i]
            != part[j] by {
            assert(cards[from + i] == part[i]);
            assert(cards[from + j] == part[j]);
        }
    }
}

/// What a predicate keeps of valid, distinct cards is valid and distinct, and
/// holds only cards of the sequence.
pub proof fn lemma_kept_shape(cards: Seq<Card>, p: spec_fn(Card) -> bool)
    ensures
        all_valid(cards) ==> all_valid(cards.filter(p)),
        cards.no_duplicates() ==> cards.filter(p).no_duplicates(),
        forall|i: int| 0 <= i < cards.filter(p).len() ==> cards.contains(#[trigger] cards.filter(p)[i]),
{
    let kept = cards.filter(p);
    assert forall|i: int| 0 <= i < kept.len() implies cards.contains(#[trigger] kept[i]) by {
        assert(kept.contains(kept[i]));
        lemma_filter_member(cards, p, kept[i]);
    }
    if all_valid(cards) {
        assert forall|i: int| 0 <= i < kept.len() implies (#[trigger] kept[i]).valid() by {
            assert(cards.contains(kept[i]));
            let k = choose|k: int| 0 <= k < cards.len() && cards[k] == kept[i];
            assert(cards[k].valid());
        }
    }
    if cards.no_duplicates() {
        lemma_filter_distinct(cards, p);
    }
}

/// The kickers are cards of `cards` that are not among `fixed`, never
/// ascending in rank, and distinct where the cards of `cards` are.
pub proof fn lemma_kickers(fixed: Seq<Card>, cards: Seq<Card>)
    requires
        all_valid(cards),
        fixed.len() < 5,
        outside(cards, fixed).len() >= 5 - fixed.len(),
    ensures
        kickers(fixed, cards).len() == 5 - fixed.len(),
        descending(kickers(fixed, cards)),
        cards.no_duplicates() ==> kickers(fixed, cards).no_duplicates(),
        forall|j: int|
            0 <= j < 5 - fixed.len() ==> cards.contains(#[trigger] kickers(fixed, cards)[j])
                && !fixed.contains(kickers(fixed, cards)[j]),
{
    let rest = outside(cards, fixed);
    let ordered = by_rank(rest);
    let picks = kickers(fixed, cards);
    lemma_kept_shape(cards, not_among(fixed));
    lemma_by_rank_rearranges(rest);
    assert forall|j: int| 0 <= j < picks.len() implies cards.contains(#[trigger] picks[j])
        && !fixed.contains(picks[j]) by {
        assert(picks[j] == ordered[j]);
        assert(ordered.contains(ordered[j]));
        assert(rest.contains(ordered[j]));
        lemma_filter_member(cards, not_among(fixed), ordered[j]);
    }
    assert forall|i: int, j: int| 0 <= i < j < picks.len() implies picks[i].rank
        >= picks[j].rank by {
        assert(picks[i] == ordered[i] && picks[j] == ordered[j]);
    }
    if cards.no_duplicates() {
        assert forall|i: int, j: int|
            0 <= i < picks.len() && 0 <= j < picks.len() && i != j implies picks[i]
            != picks[j] by {
            assert(picks[i] == ordered[i] && picks[j] == ordered[j]);
        }
    }
}

/// The kickers are the highest cards to be had: a card of `cards` that is
/// neither fixed nor picked ranks no higher than any kicker.
pub proof fn lemma_kickers_are_highest(fixed: Seq<Card>, cards: Seq<Card>, left: Card, j: int)
    requires
        all_valid(cards),
        fixed.len() < 5,
        outside(cards, fixed).len() >= 5 - fixed.len(),
        cards.contains(left),
        !fixed.contains(left),
        !kickers(fixed, cards).contains(left),
        0 <= j < 5 - fixed.len(),
    ensures
        left.rank <= kickers(fixed, cards)[j].rank,
{
    let rest = outside(cards, fixed);
    let ordered = by_rank(rest);
    let picks = kickers(fixed, cards);
    lemma_kept_shape(cards, not_among(fixed));
    lemma_by_rank_rearranges(rest);
    lemma_filter_member(cards, not_among(fixed), left);
    assert(ordered.contains(left));
    let k = choose|k: int| 0 <= k < ordered.len() && ordered[k] == left;
    if k < picks.len() {
        assert(picks[k] == left);
    }
    assert(picks[j] == ordered[j]);
}

/// Filling up distinct cards with kickers from distinct cards gives distinct
/// cards, each of them among the fixed cards or among `cards`; they are five
/// where enough cards are there to pick from.
pub proof fn lemma_with_kickers_distinct(fixed: Seq<Card>, cards: Seq<Card>)
    requires
        all_valid(cards),
        fixed.len() < 5 ==> outside(cards, fixed).len() >= 5 - fixed.len(),
    ensures
        fixed.len() <= 5 ==> with_kickers(fixed, cards).len() == 5,
        fixed.no_duplicates() && cards.no_duplicates() ==> with_kickers(
            fixed,
            cards,
        ).no_duplicates(),
        forall|i: int|
            0 <= i < with_kickers(fixed, cards).len() ==> fixed.contains(
                #[trigger] with_kickers(fixed, cards)[i],
            ) || cards.contains(with_kickers(fixed, cards)[i]),
{
    let hand = with_kickers(fixed, cards);
    if fixed.len() < 5 {
        let picks = kickers(fixed, cards);
        lemma_kickers(fixed, cards);
        assert forall|i: int| 0 <= i < hand.len() implies fixed.contains(#[trigger] hand[i])
            || cards.contains(hand[i]) by {
            if i < fixed.len() {
                assert(hand[i] == fixed[i]);
            } else {
                assert(hand[i] == picks[i - fixed.len()]);
            }
        }
        if fixed.no_duplicates() && cards.no_duplicates() {
            assert forall|i: int, j: int|
                0 <= i < fixed.len() && 0 <= j < picks.len() implies fixed[i] != picks[j] by {
                assert(fixed.contains(fixed[i]));
                assert(!fixed.contains(picks[j]));
            }
            lemma_no_dup_in_concat(fixed, picks);
        }
    }
}

/// What filling up with kickers gives, where the fixed cards are those that a
/// predicate keeps of at least five valid, distinct cards: five distinct
/// cards, all of them among `cards`.
pub proof fn lemma_with_kickers_shape(fixed: Seq<Card>, cards: Seq<Card>, p: spec_fn(Card) -> bool)
    requires
        all_valid(cards),
        cards.no_duplicates(),
        cards.len() >= 5,
        fixed == cards.filter(p),
        fixed.len() <= 5,
    ensures
        outside(cards, fixed) == cards.filter(negation(p)),
        outside(cards, fixed).len() == cards.len() - fixed.len(),
        with_kickers(fixed, cards).len() == 5,
        with_kickers(fixed, cards).no_duplicates(),
        forall|i: int| 0 <= i < 5 ==> cards.contains(#[trigger] with_kickers(fixed, cards)[i]),
{
    let hand = with_kickers(fixed, cards);
    lemma_filter_complement(cards, p);
    assert forall|i: int| 0 <= i < cards.len() implies not_among(fixed)(#[trigger] cards[i])
        == negation(p)(cards[i]) by {
        assert(cards.contains(cards[i]));
        lemma_filter_member(cards, p, cards[i]);
    }
    lemma_filter_agree(cards, not_among(fixed), negation(p));
    lemma_kept_shape(cards, p);
    lemma_with_kickers_distinct(fixed, cards);
    assert forall|i: int| 0 <= i < 5 implies cards.contains(#[trigger] hand[i]) by {
        if fixed.contains(hand[i]) {
            let k = choose|k: int| 0 <= k < fixed.len() && fixed[k] == hand[i];
            assert(cards.contains(fixed[k]));
        }
    }
}

/// The hand of a flush suit is five distinct cards of the ordered holding.
pub proof fn lemma_flush_hand_shape(sorted: Seq<Card>, suit: Suit)
    requires
        sorted.no_duplicates(),
        of_suit(sorted, suit).len() >= 5,
    ensures
        flush_hand(sorted, suit).hand.len() == 5,
        flush_hand(sorted, suit).hand.no_duplicates(),
        forall|i: int| 0 <= i < 5 ==> sorted.contains(#[trigger] flush_hand(sorted, suit).hand[i]),
        flush_hand(sorted, suit).hand_rank == HandRank::StraightFlush || flush_hand(
            sorted,
            suit,
        ).hand_rank == HandRank::Flush,
{
    let flush = of_suit(sorted, suit);
    let hand = flush_hand(sorted, suit).hand;
    lemma_kept_shape(sorted, has_suit(suit));
    lemma_first_run_from(ranks_of(flush), 0);
    let from = match first_run(ranks_of(flush)) {
        Some(at) => at,
        None => 0,
    };
    assert(hand == flush.subrange(from, from + 5));
    lemma_stretch(flush, from, from + 5);
    assert forall|i: int| 0 <= i < 5 implies sorted.contains(#[trigger] hand[i]) by {
        assert(flush.contains(hand[i]));
        let k = choose|k: int| 0 <= k < flush.len() && flush[k] == hand[i];
        assert(sorted.contains(flush[k]));
    }
}

/// The best hand of a holding is five distinct cards of the holding.
pub proof fn lemma_best_hand_shape(cards: Seq<Card>)
    requires
        valid_holding(cards),
    ensures
        best_hand(cards).hand.len() == 5,
        best_hand(cards).hand.no_duplicates(),
        forall|i: int| 0 <= i < 5 ==> cards.contains(#[trigger] best_hand(cards).hand[i]),
{
    let sorted = by_rank(cards);
    let hand = best_hand(cards).hand;
    lemma_by_rank_rearranges(cards);
    assert forall|i: int| 0 <= i < 5 && sorted.contains(hand[i]) implies cards.contains(
        #[trigger] hand[i],
    ) by {}
    lemma_ranks_held(cards, 2, 2);
    lemma_ranks_held(cards, 3, 2);
    lemma_ranks_held(cards, 4, 2);
    let pairs = pairs(cards);
    let trips = trips(cards);
    let quads = quads(cards);
    if let Some(suit) = flush_suit(cards) {
        assert(sorted.filter(has_suit(suit)).len() == cards.filter(has_suit(suit)).len());
        lemma_flush_hand_shape(sorted, suit);
    } else if quads.len() > 0 {
        assert(of_rank(sorted, quads[0]) == of_rank(cards, quads[0]));
        lemma_with_kickers_shape(of_rank(sorted, quads[0]), sorted, has_rank(quads[0]));
    } else if trips.len() > 0 && pairs.len() > 0 {
        assert(of_rank(sorted, trips[0]) == of_rank(cards, trips[0]));
        assert(of_rank(sorted, pairs[0]) == of_rank(cards, pairs[0]));
        lemma_of_ranks_count(sorted, trips[0], pairs[0]);
        lemma_kept_shape(sorted, has_rank_of(trips[0], pairs[0]));
    } else if trips.len() > 1 {
        assert(of_rank(sorted, trips[0]) == of_rank(cards, trips[0]));
        assert(of_rank(sorted, trips[1]) == of_rank(cards, trips[1]));
        lemma_of_ranks_count(sorted, trips[0], trips[1]);
        let six = of_ranks(sorted, trips[0], trips[1]);
        lemma_kept_shape(sorted, has_rank_of(trips[0], trips[1]));
        lemma_stretch(six, 0, 5);
        assert(six.drop_last() == six.subrange(0, 5));
        assert forall|i: int| 0 <= i < 5 implies sorted.contains(#[trigger] hand[i]) by {
            assert(hand[i] == six[i]);
        }
    } else if let Some(at) = first_run(ranks_of(sorted)) {
        lemma_first_run_from(ranks_of(sorted), 0);
        lemma_stretch(sorted, at, at + 5);
    } else if trips.len() > 0 {
        assert(of_rank(sorted, trips[0]) == of_rank(cards, trips[0]));
        lemma_with_kickers_shape(of_rank(sorted, trips[0]), sorted, has_rank(trips[0]));
    } else if pairs.len() > 1 {
        assert(of_rank(sorted, pairs[0]) == of_rank(cards, pairs[0]));
        assert(of_rank(sorted, pairs[1]) == of_rank(cards, pairs[1]));
        lemma_of_ranks_count(sorted, pairs[0], pairs[1]);
        lemma_with_kickers_shape(
            of_ranks(sorted, pairs[0], pairs[1]),
            sorted,
            has_rank_of(pairs[0], pairs[1]),
        );
    } else if pairs.len() > 0 {
        assert(of_rank(sorted, pairs[0]) == of_rank(cards, pairs[0]));
        lemma_with_kickers_shape(of_rank(sorted, pairs[0]), sorted, has_rank(pairs[0]));
    } else {
        assert forall|i: int| 0 <= i < sorted.len() implies !has_rank(0)(#[trigger] sorted[i]) by {
            assert(sorted[i].valid());
        }
        lemma_filter_keeps_none(sorted, has_rank(0));
        lemma_with_kickers_shape(Seq::empty(), sorted, has_rank(0));
    }
}

} // verus!
