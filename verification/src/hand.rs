//! The best five-card hand in a holding of seven cards.

use vstd::prelude::*;
use crate::deck::{Card, Rank, Suit};
use crate::filtering::{lemma_filter_keeps_none, lemma_filter_next};
use crate::patterns::lemma_hand_shows_its_kind;
use crate::ranking::{
    all_valid, best_hand, by_rank, first_run, first_run_from, flush_hand, flush_suit,
    from_rank_down, has_rank, has_rank_of, has_suit, lemma_best_hand_shape,
    lemma_by_rank_rearranges, lemma_kept_shape, lemma_of_ranks_count, lemma_ranks_held,
    lemma_with_kickers_distinct, lemma_with_kickers_shape, not_among, of_rank, of_ranks,
    of_suit, outside, ranks_held, ranks_of, shows, suits_of, valid_holding, with_kickers,
};

verus! {

/// The nine kinds of hand, from the weakest to the strongest.
#[derive(Clone, Copy, PartialEq, Eq, Debug, Structural)]
pub enum HandRank {
    HighCard,
    Pair,
    TwoPair,
    Trips,
    Straight,
    Flush,
    FullHouse,
    Quads,
    StraightFlush,
}

/// A ranked hand: its kind and the five cards that make it.
#[derive(Debug)]
pub struct FinalHand {
    pub hand_rank: HandRank,
    pub hand: Vec<Card>,
}

/// What a ranked hand is in contracts: its kind and its cards in order.
pub struct RankedHand {
    pub hand_rank: HandRank,
    pub hand: Seq<Card>,
}

impl View for FinalHand {
    type V = RankedHand;

    open spec fn view(&self) -> RankedHand {
        RankedHand { hand_rank: self.hand_rank, hand: self.hand@ }
    }
}

/// Copies the cards of one rank, in their order.
fn cards_of_rank(cards: &Vec<Card>, rank: Rank) -> (kept: Vec<Card>)
    ensures
        kept@ == of_rank(cards@, rank),
{
    let mut kept: Vec<Card> = Vec::new();
    let mut i: usize = 0;
    proof {
        reveal(Seq::filter);
        assert(cards@.take(0) =~= Seq::<Card>::empty());
    }
    while i < cards.len()
        invariant
            i <= cards.len(),
            kept@ == of_rank(cards@.take(i as int), rank),
        decreases cards.len() - i,
    {
        proof {
            lemma_filter_next(cards@, has_rank(rank), i as int);
        }
        if cards[i].rank == rank {
            kept.push(cards[i]);
        }
        i += 1;
    }
    proof {
        assert(cards@.take(i as int) =~= cards@);
    }
    kept
}

/// Copies the cards of either of two ranks, in their order.
fn cards_of_ranks(cards: &Vec<Card>, first: Rank, second: Rank) -> (kept: Vec<Card>)
    ensures
        kept@ == of_ranks(cards@, first, second),
{
    let mut kept: Vec<Card> = Vec::new();
    let mut i: usize = 0;
    proof {
        reveal(Seq::filter);
        assert(cards@.take(0) =~= Seq::<Card>::empty());
    }
    while i < cards.len()
        invariant
            i <= cards.len(),
            kept@ == of_ranks(cards@.take(i as int), first, second),
        decreases cards.len() - i,
    {
        proof {
            lemma_filter_next(cards@, has_rank_of(first, second), i as int);
        }
        if cards[i].rank == first || cards[i].rank == second {
            kept.push(cards[i]);
        }
        i += 1;
    }
    proof {
        assert(cards@.take(i as int) =~= cards@);
    }
    kept
}

/// Tells whether `card` is one of `cards`.
fn holds(cards: &Vec<Card>, card: Card) -> (found: bool)
    ensures
        found == cards@.contains(card),
{
    let mut i: usize = 0;
    while i < cards.len()
        invariant
            i <= cards.len(),
            forall|k: int| 0 <= k < i ==> cards@[k] != card,
        decreases cards.len() - i,
    {
        if cards[i] == card {
            return true;
        }
        i += 1;
    }
    false
}

/// Copies the cards that are not among `fixed`, in their order.
fn cards_outside(cards: &Vec<Card>, fixed: &Vec<Card>) -> (kept: Vec<Card>)
    ensures
        kept@ == outside(cards@, fixed@),
{
    let mut kept: Vec<Card> = Vec::new();
    let mut i: usize = 0;
    proof {
        reveal(Seq::filter);
        assert(cards@.take(0) =~= Seq::<Card>::empty());
    }
    while i < cards.len()
        invariant
            i <= cards.len(),
            kept@ == outside(cards@.take(i as int), fixed@),
        decreases cards.len() - i,
    {
        proof {
            lemma_filter_next(cards@, not_among(fixed@), i as int);
        }
        if !holds(fixed, cards[i]) {
            kept.push(cards[i]);
        }
        i += 1;
    }
    proof {
        assert(cards@.take(i as int) =~= cards@);
    }
    kept
}

/// Orders cards by descending rank. Cards of one rank keep their order, and a
/// card whose rank is not valid is left out.
pub fn sort_by_rank(cards: &Vec<Card>) -> (sorted: Vec<Card>)
    ensures
        sorted@ == by_rank(cards@),
{
    let mut sorted: Vec<Card> = Vec::new();
    let mut rank: Rank = 15;
    while rank > 2
        invariant
            2 <= rank <= 15,
            sorted@ == from_rank_down(cards@, rank),
        decreases rank,
    {
        rank -= 1;
        let ghost higher = sorted@;
        let mut i: usize = 0;
        proof {
            reveal(Seq::filter);
            assert(cards@.take(0) =~= Seq::<Card>::empty());
            assert(higher + Seq::<Card>::empty() =~= higher);
        }
        while i < cards.len()
            invariant
                i <= cards.len(),
                sorted@ == higher + of_rank(cards@.take(i as int), rank),
            decreases cards.len() - i,
        {
            proof {
                lemma_filter_next(cards@, has_rank(rank), i as int);
                let before = of_rank(cards@.take(i as int), rank);
                assert((higher + before).push(cards@[i as int]) =~= higher + before.push(
                    cards@[i as int],
                ));
            }
            if cards[i].rank == rank {
                sorted.push(cards[i]);
            }
            i += 1;
        }
        proof {
            assert(cards@.take(i as int) =~= cards@);
        }
    }
    sorted
}

/// The rank index of a holding: for each rank from 0 to 14, the suits of the
/// cards of that rank, in the order of the cards. The places 0 and 1 stay
/// empty where every card is valid.
pub fn index_by_rank(cards: &Vec<Card>) -> (index: Vec<Vec<Suit>>)
    ensures
        index.len() == 15,
        forall|rank: int|
            0 <= rank < 15 ==> (#[trigger] index@[rank])@ == suits_of(
                of_rank(cards@, rank as Rank),
            ),
{
    let mut index: Vec<Vec<Suit>> = Vec::new();
    let mut rank: Rank = 0;
    while rank < 15
        invariant
            rank <= 15,
            index.len() == rank,
            forall|k: int|
                0 <= k < rank ==> (#[trigger] index@[k])@ == suits_of(of_rank(cards@, k as Rank)),
        decreases 15 - rank,
    {
        let mut suits: Vec<Suit> = Vec::new();
        let mut i: usize = 0;
        proof {
            reveal(Seq::filter);
            assert(cards@.take(0) =~= Seq::<Card>::empty());
            assert(suits@ =~= suits_of(of_rank(cards@.take(0), rank)));
        }
        while i < cards.len()
            invariant
                i <= cards.len(),
                suits@ == suits_of(of_rank(cards@.take(i as int), rank)),
            decreases cards.len() - i,
        {
            proof {
                lemma_filter_next(cards@, has_rank(rank), i as int);
                let before = of_rank(cards@.take(i as int), rank);
                assert(suits_of(before.push(cards@[i as int])) =~= suits_of(before).push(
                    cards@[i as int].suit,
                ));
            }
            if cards[i].rank == rank {
                suits.push(cards[i].suit);
            }
            i += 1;
        }
        proof {
            assert(cards@.take(i as int) =~= cards@);
        }
        index.push(suits);
        rank += 1;
    }
    index
}

/// The suit index of a holding: for each suit, at the place that
/// `Suit::index` gives, the ranks of the cards of that suit, in the order of
/// the cards.
pub fn index_by_suit(cards: &Vec<Card>) -> (index: Vec<Vec<Rank>>)
    ensures
        index.len() == 4,
        forall|place: int|
            0 <= place < 4 ==> (#[trigger] index@[place])@ == ranks_of(
                of_suit(cards@, Suit::at(place)),
            ),
{
    let mut index: Vec<Vec<Rank>> = Vec::new();
    let mut place: usize = 0;
    while place < 4
        invariant
            place <= 4,
            index.len() == place,
            forall|k: int|
                0 <= k < place ==> (#[trigger] index@[k])@ == ranks_of(
                    of_suit(cards@, Suit::at(k)),
                ),
        decreases 4 - place,
    {
        let suit = Suit::from_index(place);
        let mut ranks: Vec<Rank> = Vec::new();
        let mut i: usize = 0;
        proof {
            reveal(Seq::filter);
            assert(cards@.take(0) =~= Seq::<Card>::empty());
            assert(ranks@ =~= ranks_of(of_suit(cards@.take(0), suit)));
        }
        while i < cards.len()
            invariant
                i <= cards.len(),
                ranks@ == ranks_of(of_suit(cards@.take(i as int), suit)),
            decreases cards.len() - i,
        {
            proof {
                lemma_filter_next(cards@, has_suit(suit), i as int);
                let before = of_suit(cards@.take(i as int), suit);
                assert(ranks_of(before.push(cards@[i as int])) =~= ranks_of(before).push(
                    cards@[i as int].rank,
                ));
            }
            if cards[i].suit == suit {
                ranks.push(cards[i].rank);
            }
            i += 1;
        }
        proof {
            assert(cards@.take(i as int) =~= cards@);
        }
        index.push(ranks);
        place += 1;
    }
    index
}

/// Finds the first place where five ranks stand in a row, each one below the
/// rank before it.
pub fn find_run(ranks: &Vec<Rank>) -> (found: Option<usize>)
    ensures
        match found {
            Some(at) => first_run(ranks@) == Some(at as int) && at + 5 <= ranks.len(),
            None => first_run(ranks@) is None,
        },
{
    if ranks.len() < 5 {
        return None;
    }
    let last: usize = ranks.len() - 5;
    let mut at: usize = 0;
    while at <= last
        invariant
            last == ranks.len() - 5,
            at <= last + 1,
            first_run_from(ranks@, at as int) == first_run(ranks@),
        decreases last + 1 - at,
    {
        if steps_down(ranks[at], ranks[at + 1]) && steps_down(ranks[at + 1], ranks[at + 2])
            && steps_down(ranks[at + 2], ranks[at + 3]) && steps_down(
            ranks[at + 3],
            ranks[at + 4],
        ) {
            return Some(at);
        }
        at += 1;
    }
    None
}

/// Tells whether `lower` is the rank just below `higher`.
fn steps_down(higher: Rank, lower: Rank) -> (yes: bool)
    ensures
        yes == (higher - lower == 1),
{
    higher > lower && higher - lower == 1
}

/// Reads from the rank index the ranks that exactly `times` cards hold,
/// highest first.
fn held_ranks(by_rank: &Vec<Vec<Suit>>, times: usize, Ghost(cards): Ghost<Seq<Card>>) -> (held: Vec<
    Rank,
>)
    requires
        by_rank.len() == 15,
        forall|rank: int|
            2 <= rank < 15 ==> (#[trigger] by_rank@[rank])@.len() == of_rank(
                cards,
                rank as Rank,
            ).len(),
    ensures
        held@ == ranks_held(cards, times as nat, 2),
{
    let mut held: Vec<Rank> = Vec::new();
    let mut rank: Rank = 15;
    while rank > 2
        invariant
            2 <= rank <= 15,
            by_rank.len() == 15,
            forall|k: int|
                2 <= k < 15 ==> (#[trigger] by_rank@[k])@.len() == of_rank(cards, k as Rank).len(),
            held@ == ranks_held(cards, times as nat, rank),
        decreases rank,
    {
        rank -= 1;
        assert(by_rank@[rank as int]@.len() == of_rank(cards, rank).len());
        if by_rank[rank].len() == times {
            held.push(rank);
        }
    }
    held
}

/// Makes cards of one suit from the ranks at the places `from` up to `to`.
fn suited_cards(ranks: &Vec<Rank>, suit: Suit, from: usize, to: usize) -> (cards: Vec<Card>)
    requires
        from <= to <= ranks.len(),
    ensures
        cards@ == Seq::new((to - from) as nat, |k: int| Card { rank: ranks@[from + k], suit }),
{
    let mut cards: Vec<Card> = Vec::new();
    let mut i: usize = from;
    while i < to
        invariant
            from <= i <= to <= ranks.len(),
            cards@ == Seq::new((i - from) as nat, |k: int| Card { rank: ranks@[from + k], suit }),
        decreases to - i,
    {
        cards.push(Card { rank: ranks[i], suit });
        i += 1;
    }
    cards
}

/// Copies the cards at the places `from` up to `to`.
fn cards_between(cards: &Vec<Card>, from: usize, to: usize) -> (part: Vec<Card>)
    requires
        from <= to <= cards.len(),
    ensures
        part@ == cards@.subrange(from as int, to as int),
{
    let mut part: Vec<Card> = Vec::new();
    let mut i: usize = from;
    while i < to
        invariant
            from <= i <= to <= cards.len(),
            part@ == cards@.subrange(from as int, i as int),
        decreases to - i,
    {
        part.push(cards[i]);
        proof {
            assert(cards@.subrange(from as int, i as int).push(cards@[i as int])
                =~= cards@.subrange(from as int, i + 1));
        }
        i += 1;
    }
    part
}

/// Copies the ranks of cards, card by card.
fn ranks_in(cards: &Vec<Card>) -> (ranks: Vec<Rank>)
    ensures
        ranks@ == ranks_of(cards@),
{
    let mut ranks: Vec<Rank> = Vec::new();
    let mut i: usize = 0;
    while i < cards.len()
        invariant
            i <= cards.len(),
            ranks@ == ranks_of(cards@.take(i as int)),
        decreases cards.len() - i,
    {
        ranks.push(cards[i].rank);
        proof {
            assert(ranks_of(cards@.take(i as int)).push(cards@[i as int].rank) =~= ranks_of(
                cards@.take(i + 1),
            ));
        }
        i += 1;
    }
    proof {
        assert(cards@.take(i as int) =~= cards@);
    }
    ranks
}

/// Looks in the suit index for a suit that five cards or more share, and
/// makes the straight flush or the flush of that suit.
fn find_flush(by_suit: &Vec<Vec<Rank>>, Ghost(sorted): Ghost<Seq<Card>>) -> (found: Option<
    FinalHand,
>)
    requires
        by_suit.len() == 4,
        forall|place: int|
            0 <= place < 4 ==> (#[trigger] by_suit@[place])@ == ranks_of(
                of_suit(sorted, Suit::at(place)),
            ),
    ensures
        match flush_suit(sorted) {
            Some(suit) => found is Some && found->0@ == flush_hand(sorted, suit),
            None => found is None,
        },
{
    let mut place: usize = 0;
    while place < 4
        invariant
            place <= 4,
            by_suit.len() == 4,
            forall|k: int|
                0 <= k < 4 ==> (#[trigger] by_suit@[k])@ == ranks_of(of_suit(sorted, Suit::at(k))),
            forall|k: int| 0 <= k < place ==> of_suit(sorted, Suit::at(k)).len() < 5,
        decreases 4 - place,
    {
        let suit = Suit::from_index(place);
        let flush = &by_suit[place];
        let ghost held = of_suit(sorted, suit);
        assert(by_suit@[place as int]@ == ranks_of(held));
        if flush.len() >= 5 {
            proof {
                assert(of_suit(sorted, Suit::at(0)).len() < 5 || place == 0);
                assert(of_suit(sorted, Suit::at(1)).len() < 5 || place <= 1);
                assert(of_suit(sorted, Suit::at(2)).len() < 5 || place <= 2);
                assert(flush_suit(sorted) == Some(suit));
                assert forall|k: int| 0 <= k < held.len() implies #[trigger] held[k] == (Card {
                    rank: flush@[k],
                    suit,
                }) by {
                    sorted.lemma_filter_pred(has_suit(suit), k);
                }
            }
            match find_run(flush) {
                Some(at) => {
                    proof {
                        assert(0 <= at && at + 5 <= flush.len());
                    }
                    let hand = suited_cards(flush, suit, at, at + 5);
                    proof {
                        assert(hand@ =~= held.subrange(at as int, at + 5));
                    }
                    return Some(FinalHand { hand_rank: HandRank::StraightFlush, hand });
                },
                None => {
                    let hand = suited_cards(flush, suit, 0, 5);
                    proof {
                        assert(hand@ =~= held.take(5));
                    }
                    return Some(FinalHand { hand_rank: HandRank::Flush, hand });
                },
            }
        }
        place += 1;
    }
    proof {
        assert(of_suit(sorted, Suit::at(0)).len() < 5);
        assert(of_suit(sorted, Suit::at(1)).len() < 5);
        assert(of_suit(sorted, Suit::at(2)).len() < 5);
        assert(of_suit(sorted, Suit::at(3)).len() < 5);
    }
    None
}

/// Fills a hand up to five cards: to the cards of `primary_hand` it adds the
/// highest cards of `total_hand` that are not among them. Among cards of one
/// rank those that stand first in `total_hand` go first. A hand of five cards
/// or more comes back as it is.
pub fn best_five(primary_hand: Vec<Card>, total_hand: Vec<Card>) -> (hand: Vec<Card>)
    requires
        all_valid(total_hand@),
        primary_hand.len() < 5 ==> outside(total_hand@, primary_hand@).len() >= 5
            - primary_hand.len(),
    ensures
        hand@ == with_kickers(primary_hand@, total_hand@),
        primary_hand.len() <= 5 ==> hand.len() == 5,
        primary_hand@.no_duplicates() && total_hand@.no_duplicates() ==> hand@.no_duplicates(),
        forall|i: int|
            0 <= i < hand.len() ==> primary_hand@.contains(#[trigger] hand@[i])
                || total_hand@.contains(hand@[i]),
{
    let mut hand = primary_hand;
    let remaining = cards_outside(&total_hand, &hand);
    let remaining_hand = sort_by_rank(&remaining);
    proof {
        lemma_kept_shape(total_hand@, not_among(primary_hand@));
        lemma_by_rank_rearranges(remaining@);
        lemma_with_kickers_distinct(primary_hand@, total_hand@);
    }
    if hand.len() < 5 {
        let wanted: usize = 5 - hand.len();
        let mut i: usize = 0;
        proof {
            assert(primary_hand@ + remaining_hand@.take(0) =~= primary_hand@);
        }
        while i < wanted
            invariant
                i <= wanted <= remaining_hand.len(),
                hand@ == primary_hand@ + remaining_hand@.take(i as int),
            decreases wanted - i,
        {
            hand.push(remaining_hand[i]);
            proof {
                assert((primary_hand@ + remaining_hand@.take(i as int)).push(
                    remaining_hand@[i as int],
                ) =~= primary_hand@ + remaining_hand@.take(i + 1));
            }
            i += 1;
        }
    }
    hand
}

/// Tells whether `cards` is a holding that can be ranked: seven valid cards,
/// no card twice.
pub fn is_valid_holding(cards: &Vec<Card>) -> (ok: bool)
    ensures
        ok == valid_holding(cards@),
{
    if cards.len() != 7 {
        return false;
    }
    let mut i: usize = 0;
    while i < 7
        invariant
            i <= 7,
            cards.len() == 7,
            forall|k: int| 0 <= k < i ==> (#[trigger] cards@[k]).valid(),
            forall|k: int, l: int| 0 <= k < l < i ==> cards@[k] != cards@[l],
        decreases 7 - i,
    {
        if !cards[i].is_valid() {
            return false;
        }
        let mut j: usize = 0;
        while j < i
            invariant
                j <= i < 7,
                cards.len() == 7,
                forall|k: int| 0 <= k < j ==> cards@[k] != cards@[i as int],
            decreases i - j,
        {
            if cards[j] == cards[i] {
                return false;
            }
            j += 1;
        }
        i += 1;
    }
    true
}

/// Ranks a holding of seven cards: finds the best five-card hand in it, and
/// says of which kind it is.
///
/// The kinds are tried from the strongest down, and the first that the
/// holding contains is returned, with its cards in descending rank and the
/// kickers last. The ace is high only. A straight is read off the holding
/// ordered by rank, as five cards next to each other that step down by one:
/// a second card of a rank inside the span hides the straight. Of two trips
/// the lower gives up the card that stands last in the holding.
pub fn best_five_of_seven(holding: Vec<Card>) -> (best: FinalHand)
    requires
        valid_holding(holding@),
    ensures
        best@ == best_hand(holding@),
        best.hand@.len() == 5,
        best.hand@.no_duplicates(),
        forall|i: int| 0 <= i < 5 ==> holding@.contains(#[trigger] best.hand@[i]),
        shows(best.hand@, best.hand_rank),
{
    let ghost cards = holding@;
    let total_hand = sort_by_rank(&holding);
    let cards_by_rank = index_by_rank(&total_hand);
    let cards_by_suit = index_by_suit(&total_hand);
    proof {
        lemma_best_hand_shape(cards);
        lemma_hand_shows_its_kind(cards);
        lemma_by_rank_rearranges(cards);
        lemma_ranks_held(cards, 2, 2);
        lemma_ranks_held(cards, 3, 2);
        lemma_ranks_held(cards, 4, 2);
        assert(of_suit(total_hand@, Suit::Clubs).len() == of_suit(cards, Suit::Clubs).len());
        assert(of_suit(total_hand@, Suit::Diamonds).len() == of_suit(cards, Suit::Diamonds).len());
        assert(of_suit(total_hand@, Suit::Hearts).len() == of_suit(cards, Suit::Hearts).len());
        assert(of_suit(total_hand@, Suit::Spades).len() == of_suit(cards, Suit::Spades).len());
        assert(flush_suit(total_hand@) == flush_suit(cards));
        assert forall|rank: int| 2 <= rank < 15 implies (#[trigger] cards_by_rank@[rank])@.len()
            == of_rank(cards, rank as Rank).len() by {
            assert(of_rank(total_hand@, rank as Rank) == of_rank(cards, rank as Rank));
        }
    }

    // Flush and straight flush
    match find_flush(&cards_by_suit, Ghost(total_hand@)) {
        Some(found) => {
            return found;
        },
        None => {},
    }

    // Quads, and the full house
    let pairs = held_ranks(&cards_by_rank, 2, Ghost(cards));
    let trips = held_ranks(&cards_by_rank, 3, Ghost(cards));
    let quads = held_ranks(&cards_by_rank, 4, Ghost(cards));
    if quads.len() > 0 {
        let four = cards_of_rank(&total_hand, quads[0]);
        proof {
            assert(of_rank(total_hand@, quads@[0]) == of_rank(cards, quads@[0]));
            lemma_with_kickers_shape(four@, total_hand@, has_rank(quads@[0]));
        }
        return FinalHand { hand_rank: HandRank::Quads, hand: best_five(four, total_hand) };
    }
    if pairs.len() > 0 && trips.len() > 0 {
        return FinalHand {
            hand_rank: HandRank::FullHouse,
            hand: cards_of_ranks(&total_hand, trips[0], pairs[0]),
        };
    }
    if trips.len() > 1 {
        let mut hand = cards_of_ranks(&total_hand, trips[0], trips[1]);
        proof {
            assert(of_rank(total_hand@, trips@[0]) == of_rank(cards, trips@[0]));
            assert(of_rank(total_hand@, trips@[1]) == of_rank(cards, trips@[1]));
            lemma_of_ranks_count(total_hand@, trips@[0], trips@[1]);
            assert(hand@.subrange(0, hand@.len() - 1) =~= hand@.drop_last());
        }
        hand.pop();
        return FinalHand { hand_rank: HandRank::FullHouse, hand };
    }

    // Straight
    let ranks = ranks_in(&total_hand);
    match find_run(&ranks) {
        Some(at) => {
            return FinalHand {
                hand_rank: HandRank::Straight,
                hand: cards_between(&total_hand, at, at + 5),
            };
        },
        None => {},
    }

    // Trips, two pair, pair
    if trips.len() > 0 {
        let three = cards_of_rank(&total_hand, trips[0]);
        proof {
            assert(of_rank(total_hand@, trips@[0]) == of_rank(cards, trips@[0]));
            lemma_with_kickers_shape(three@, total_hand@, has_rank(trips@[0]));
        }
        return FinalHand { hand_rank: HandRank::Trips, hand: best_five(three, total_hand) };
    }
    if pairs.len() > 1 {
        let top_two_pairs = cards_of_ranks(&total_hand, pairs[0], pairs[1]);
        proof {
            assert(of_rank(total_hand@, pairs@[0]) == of_rank(cards, pairs@[0]));
            assert(of_rank(total_hand@, pairs@[1]) == of_rank(cards, pairs@[1]));
            lemma_of_ranks_count(total_hand@, pairs@[0], pairs@[1]);
            lemma_with_kickers_shape(
                top_two_pairs@,
                total_hand@,
                has_rank_of(pairs@[0], pairs@[1]),
            );
        }
        return FinalHand {
            hand_rank: HandRank::TwoPair,
            hand: best_five(top_two_pairs, total_hand),
        };
    }
    if pairs.len() > 0 {
        let two = cards_of_rank(&total_hand, pairs[0]);
        proof {
            assert(of_rank(total_hand@, pairs@[0]) == of_rank(cards, pairs@[0]));
            lemma_with_kickers_shape(two@, total_hand@, has_rank(pairs@[0]));
        }
        return FinalHand { hand_rank: HandRank::Pair, hand: best_five(two, total_hand) };
    }

    // High card
    proof {
        assert forall|i: int| 0 <= i < total_hand@.len() implies !has_rank(0)(
            #[trigger] total_hand@[i],
        ) by {
            assert(total_hand@[i].valid());
        }
        lemma_filter_keeps_none(total_hand@, has_rank(0));
        lemma_with_kickers_shape(Seq::empty(), total_hand@, has_rank(0));
    }
    FinalHand { hand_rank: HandRank::HighCard, hand: best_five(Vec::new(), total_hand) }
}

} // verus!
