//! Cards, and the deck of fifty-two that they are dealt from.

use rand::Rng;
use vstd::prelude::*;
use vstd::seq_lib::to_multiset_update;
use vstd::string::StringExecFns;

verus! {

/// The four suits. They are told apart, never ordered by strength.
#[derive(Clone, Copy, PartialEq, Eq, Hash, Debug, Structural)]
pub enum Suit {
    Clubs,
    Diamonds,
    Hearts,
    Spades,
}

/// A card's face value, from 2 up to 14 for the ace.
pub type Rank = usize;

/// The lowest rank, the deuce.
pub const LOWEST_RANK: Rank = 2;

/// The highest rank, the ace. An ace is never counted low.
pub const HIGHEST_RANK: Rank = 14;

/// The number of cards in a full deck.
pub const DECK_SIZE: usize = 52;

/// One playing card. Two cards are the same card when rank and suit agree.
#[derive(Clone, Copy, PartialEq, Eq, Debug, Structural)]
pub struct Card {
    pub rank: Rank,
    pub suit: Suit,
}

impl Suit {
    /// The place of a suit in the fixed order clubs, diamonds, hearts, spades.
    pub open spec fn ordinal(self) -> int {
        match self {
            Suit::Clubs => 0,
            Suit::Diamonds => 1,
            Suit::Hearts => 2,
            Suit::Spades => 3,
        }
    }

    /// The suit at a place of the fixed order; places count modulo four.
    pub open spec fn at(place: int) -> Suit {
        let k = place % 4;
        if k == 0 {
            Suit::Clubs
        } else if k == 1 {
            Suit::Diamonds
        } else if k == 2 {
            Suit::Hearts
        } else {
            Suit::Spades
        }
    }

    /// The letter that stands for a suit in text.
    pub open spec fn symbol(self) -> char {
        match self {
            Suit::Clubs => 'c',
            Suit::Diamonds => 'd',
            Suit::Hearts => 'h',
            Suit::Spades => 's',
        }
    }

    /// The place of this suit in the fixed order, as a number below four.
    pub fn index(self) -> (place: usize)
        ensures
            place == self.ordinal(),
            place < 4,
            Suit::at(place as int) == self,
    {
        match self {
            Suit::Clubs => 0,
            Suit::Diamonds => 1,
            Suit::Hearts => 2,
            Suit::Spades => 3,
        }
    }

    /// The suit at a place of the fixed order.
    pub fn from_index(place: usize) -> (suit: Suit)
        requires
            place < 4,
        ensures
            suit == Suit::at(place as int),
            suit.ordinal() == place,
    {
        if place == 0 {
            Suit::Clubs
        } else if place == 1 {
            Suit::Diamonds
        } else if place == 2 {
            Suit::Hearts
        } else {
            Suit::Spades
        }
    }
}

/// The character that stands for a rank in text: a digit up to nine, then
/// `T`, `J`, `Q`, `K` and `A`.
pub open spec fn rank_symbol(rank: Rank) -> char {
    if rank == 2 {
        '2'
    } else if rank == 3 {
        '3'
    } else if rank == 4 {
        '4'
    } else if rank == 5 {
        '5'
    } else if rank == 6 {
        '6'
    } else if rank == 7 {
        '7'
    } else if rank == 8 {
        '8'
    } else if rank == 9 {
        '9'
    } else if rank == 10 {
        'T'
    } else if rank == 11 {
        'J'
    } else if rank == 12 {
        'Q'
    } else if rank == 13 {
        'K'
    } else {
        'A'
    }
}

impl Card {
    /// A card is valid when its rank lies between the deuce and the ace.
    pub open spec fn valid(self) -> bool {
        LOWEST_RANK <= self.rank <= HIGHEST_RANK
    }

    /// The card that a number below fifty-two stands for: the ranks ascend
    /// four by four, and within one rank the suits follow their fixed order.
    pub open spec fn of_number(number: int) -> Card {
        Card { rank: (2 + number / 4) as Rank, suit: Suit::at(number) }
    }

    /// The two characters that a valid card is written with: rank, then suit.
    pub open spec fn text(self) -> Seq<char> {
        seq![rank_symbol(self.rank), self.suit.symbol()]
    }

    /// Makes the card that `number` stands for.
    pub fn from(number: u8) -> (card: Card)
        requires
            number < DECK_SIZE,
        ensures
            card == Card::of_number(number as int),
            card.valid(),
    {
        let place: usize = (number % 4) as usize;
        Card { rank: 2 + (number as usize) / 4, suit: Suit::from_index(place) }
    }

    /// Tells whether the rank lies between the deuce and the ace.
    pub fn is_valid(&self) -> (ok: bool)
        ensures
            ok == self.valid(),
    {
        LOWEST_RANK <= self.rank && self.rank <= HIGHEST_RANK
    }

    /// Writes a valid card as two characters, such as `Th` or `As`.
    pub fn to_text(&self) -> (text: String)
        requires
            self.valid(),
        ensures
            text@ == self.text(),
    {
        let mut text = String::new();
        text.append(rank_letter(self.rank));
        text.append(suit_letter(self.suit));
        proof {
            assert(text@ =~= self.text());
        }
        text
    }
}

/// The one-character text that stands for a valid rank.
fn rank_letter(rank: Rank) -> (letter: &'static str)
    requires
        LOWEST_RANK <= rank <= HIGHEST_RANK,
    ensures
        letter@ == seq![rank_symbol(rank)],
{
    proof {
        reveal_strlit("2");
        reveal_strlit("3");
        reveal_strlit("4");
        reveal_strlit("5");
        reveal_strlit("6");
        reveal_strlit("7");
        reveal_strlit("8");
        reveal_strlit("9");
        reveal_strlit("T");
        reveal_strlit("J");
        reveal_strlit("Q");
        reveal_strlit("K");
        reveal_strlit("A");
    }
    let letter = if rank == 2 {
        "2"
    } else if rank == 3 {
        "3"
    } else if rank == 4 {
        "4"
    } else if rank == 5 {
        "5"
    } else if rank == 6 {
        "6"
    } else if rank == 7 {
        "7"
    } else if rank == 8 {
        "8"
    } else if rank == 9 {
        "9"
    } else if rank == 10 {
        "T"
    } else if rank == 11 {
        "J"
    } else if rank == 12 {
        "Q"
    } else if rank == 13 {
        "K"
    } else {
        "A"
    };
    proof {
        assert(letter@ =~= seq![rank_symbol(rank)]);
    }
    letter
}

/// The one-character text that stands for a suit.
fn suit_letter(suit: Suit) -> (letter: &'static str)
    ensures
        letter@ == seq![suit.symbol()],
{
    proof {
        reveal_strlit("c");
        reveal_strlit("d");
        reveal_strlit("h");
        reveal_strlit("s");
    }
    let letter = match suit {
        Suit::Clubs => "c",
        Suit::Diamonds => "d",
        Suit::Hearts => "h",
        Suit::Spades => "s",
    };
    proof {
        assert(letter@ =~= seq![suit.symbol()]);
    }
    letter
}

/// The fifty-two cards in the order of their numbers: the deuces first, the
/// aces last, and within one rank clubs, diamonds, hearts, spades.
pub open spec fn full_deck() -> Seq<Card> {
    Seq::new(52, |number: int| Card::of_number(number))
}

/// The cards one after the other as text, a blank after each.
pub open spec fn text_of(cards: Seq<Card>) -> Seq<char>
    decreases cards.len(),
{
    if cards.len() == 0 {
        Seq::empty()
    } else {
        text_of(cards.drop_last()) + cards.last().text() + seq![' ']
    }
}

/// Two places of a sequence exchanged.
pub open spec fn exchanged(cards: Seq<Card>, i: int, j: int) -> Seq<Card> {
    cards.update(i, cards[j]).update(j, cards[i])
}

/// Exchanging two places keeps the cards, each as often as before.
pub proof fn lemma_exchanged(cards: Seq<Card>, i: int, j: int)
    requires
        0 <= i < cards.len(),
        0 <= j < cards.len(),
    ensures
        exchanged(cards, i, j).len() == cards.len(),
        exchanged(cards, i, j).to_multiset() == cards.to_multiset(),
        cards.no_duplicates() ==> exchanged(cards, i, j).no_duplicates(),
        forall|k: int| 0 <= k < cards.len() ==> cards.contains(#[trigger] exchanged(cards, i, j)[k]),
{
    broadcast use vstd::multiset::group_multiset_axioms;

    let once = cards.update(i, cards[j]);
    let twice = exchanged(cards, i, j);
    to_multiset_update(cards, i, cards[j]);
    to_multiset_update(once, j, cards[i]);
    cards.to_multiset_ensures();
    assert(cards.contains(cards[i]) && cards.contains(cards[j]));
    assert(twice.to_multiset() =~= cards.to_multiset());
    assert forall|k: int| 0 <= k < cards.len() implies cards.contains(#[trigger] twice[k]) by {
        if k == j {
            assert(twice[k] == cards[i]);
        } else if k == i {
            assert(twice[k] == cards[j]);
        } else {
            assert(twice[k] == cards[k]);
        }
    }
    if cards.no_duplicates() {
        assert forall|k: int, l: int|
            0 <= k < twice.len() && 0 <= l < twice.len() && k != l implies twice[k] != twice[l] by {
            let from_k = if k == j { i } else if k == i { j } else { k };
            let from_l = if l == j { i } else if l == i { j } else { l };
            assert(twice[k] == cards[from_k]);
            assert(twice[l] == cards[from_l]);
        }
    }
}

/// Exchanges the cards at two places.
pub fn exchange(cards: &mut Vec<Card>, i: usize, other: usize)
    requires
        i < old(cards).len(),
        other < old(cards).len(),
    ensures
        final(cards)@ == exchanged(old(cards)@, i as int, other as int),
{
    let first = cards[i];
    let second = cards[other];
    cards.set(i, second);
    cards.set(other, first);
}

/// Copies cards, in their order.
fn copy_of(cards: &Vec<Card>) -> (copy: Vec<Card>)
    ensures
        copy@ == cards@,
{
    let mut copy: Vec<Card> = Vec::new();
    let mut i: usize = 0;
    while i < cards.len()
        invariant
            i <= cards.len(),
            copy@ == cards@.take(i as int),
        decreases cards.len() - i,
    {
        copy.push(cards[i]);
        proof {
            assert(cards@.take(i as int).push(cards@[i as int]) =~= cards@.take(i + 1));
        }
        i += 1;
    }
    proof {
        assert(cards@.take(i as int) =~= cards@);
    }
    copy
}

/// `rand`'s generator of the current thread; nothing of it is visible here.
#[verifier::external_type_specification]
#[verifier::external_body]
pub struct ExThreadRng(rand::rngs::ThreadRng);

/// `rand::thread_rng` hands out the generator of the current thread. Nothing
/// is claimed of it. It gives up where the system cannot seed the generator.
pub assume_specification[ rand::thread_rng ]() -> (rng: rand::rngs::ThreadRng);

/// Draws a number with `Rng::gen_range` on the half-open range from `low` to
/// `high`. `rand` panics on an empty range, so the range must not be empty;
/// what it returns lies in the range, and nothing else is claimed of it.
#[verifier::external_body]
fn pick_between(rng: &mut rand::rngs::ThreadRng, low: usize, high: usize) -> (pick: usize)
    requires
        low < high,
    ensures
        low <= pick < high,
{
    rng.gen_range(low..high)
}

/// A deck of fifty-two cards, dealt from its end.
pub struct Deck {
    cards: Vec<Card>,
    cur_index: usize,
}

impl Deck {
    #[verifier::type_invariant]
    spec fn well_formed(self) -> bool {
        &&& self.cards@.len() == 52
        &&& self.cur_index <= 52
        &&& self.cards@.no_duplicates()
        &&& forall|i: int| 0 <= i < 52 ==> (#[trigger] self.cards@[i]).valid()
    }

    /// The cards of the deck in their order, dealt ones included.
    pub closed spec fn cards(self) -> Seq<Card> {
        self.cards@
    }

    /// How many cards are left to deal: the first `left()` cards of `cards()`.
    pub closed spec fn left(self) -> nat {
        self.cur_index as nat
    }

    /// What every deck is: fifty-two valid cards, no card twice, with at
    /// most fifty-two of them left to deal.
    pub open spec fn complete(self) -> bool {
        &&& self.cards().len() == 52
        &&& self.left() <= 52
        &&& self.cards().no_duplicates()
        &&& forall|i: int| 0 <= i < 52 ==> (#[trigger] self.cards()[i]).valid()
    }

    /// A deck in the order of the card numbers, with every card left to deal.
    pub fn new() -> (deck: Self)
        ensures
            deck.cards() == full_deck(),
            deck.left() == 52,
            deck.complete(),
    {
        let mut cards: Vec<Card> = Vec::new();
        let mut number: u8 = 0;
        while number < 52
            invariant
                number <= 52,
                cards@.len() == number,
                forall|k: int| 0 <= k < number ==> #[trigger] cards@[k] == Card::of_number(k),
            decreases 52 - number,
        {
            cards.push(Card::from(number));
            number += 1;
        }
        proof {
            assert(cards@ =~= full_deck());
            assert forall|k: int, l: int| 0 <= k < 52 && 0 <= l < 52 && k != l implies cards@[k]
                != cards@[l] by {
                let a = Card::of_number(k);
                let b = Card::of_number(l);
                if a.rank == b.rank && a.suit == b.suit {
                    assert(k / 4 == l / 4);
                    assert(Suit::at(k).ordinal() == k % 4);
                    assert(Suit::at(l).ordinal() == l % 4);
                    assert(k % 4 == l % 4);
                    assert(false);
                }
            }
        }
        Deck { cards, cur_index: 52 }
    }

    /// The number of cards that are left to deal.
    pub fn cards_left(&self) -> (left: usize)
        ensures
            left == self.left(),
            self.complete(),
    {
        proof {
            use_type_invariant(self);
        }
        self.cur_index
    }

    /// Shuffles the whole deck and makes every card available again: each
    /// place but the last, from the first on, is exchanged with a place
    /// behind it that chance picks. Whatever chance picks, the deck holds
    /// the same cards as before, and no card is left at its place.
    pub fn shuffle(&mut self)
        ensures
            final(self).cards().to_multiset() == old(self).cards().to_multiset(),
            forall|k: int| 0 <= k < 52 ==> #[trigger] final(self).cards()[k] != old(self).cards()[k],
            final(self).left() == 52,
            final(self).complete(),
    {
        proof {
            use_type_invariant(&*self);
        }
        let mut cards = copy_of(&self.cards);
        let ghost start = cards@;
        let ghost mut origin: Seq<int> = Seq::new(52, |k: int| k);
        let mut rng = rand::thread_rng();
        let mut i: usize = 0;
        while i < 51
            invariant
                i <= 51,
                start.len() == 52,
                start.no_duplicates(),
                cards@.len() == 52,
                cards@.no_duplicates(),
                forall|k: int| 0 <= k < 52 ==> (#[trigger] cards@[k]).valid(),
                cards@.to_multiset() == start.to_multiset(),
                origin.len() == 52,
                forall|k: int|
                    0 <= k < 52 ==> 0 <= #[trigger] origin[k] < 52 && cards@[k] == start[origin[k]],
                forall|k: int| 0 <= k < i ==> #[trigger] origin[k] != k,
                forall|k: int| i <= k < 52 ==> #[trigger] origin[k] == k || origin[k] < i,
                i >= 51 ==> origin[51] < 51,
            decreases 51 - i,
        {
            let other = pick_between(&mut rng, i + 1, 52);
            let ghost before = cards@;
            exchange(&mut cards, i, other);
            proof {
                lemma_exchanged(before, i as int, other as int);
                assert forall|k: int| 0 <= k < 52 implies (#[trigger] cards@[k]).valid() by {
                    assert(before.contains(cards@[k]));
                    let l = choose|l: int| 0 <= l < 52 && before[l] == cards@[k];
                    assert(before[l].valid());
                }
                origin = origin.update(i as int, origin[other as int]).update(
                    other as int,
                    origin[i as int],
                );
            }
            i += 1;
        }
        proof {
            assert forall|k: int| 0 <= k < 52 implies #[trigger] cards@[k] != start[k] by {
                assert(origin[k] != k);
                assert(cards@[k] == start[origin[k]]);
            }
        }
        self.cards = cards;
        self.cur_index = 52;
    }

    /// Deals the last of the cards that are left.
    pub fn draw_card(&mut self) -> (card: Card)
        requires
            old(self).left() > 0,
        ensures
            card == old(self).cards()[old(self).left() - 1],
            card.valid(),
            final(self).left() == old(self).left() - 1,
            final(self).cards() == old(self).cards(),
            final(self).complete(),
    {
        proof {
            use_type_invariant(&*self);
        }
        self.cur_index -= 1;
        self.cards[self.cur_index]
    }

    /// Writes the deck as text: every card in order, a blank after each.
    pub fn to_text(&self) -> (text: String)
        ensures
            text@ == text_of(self.cards()),
    {
        proof {
            use_type_invariant(self);
        }
        let mut text = String::new();
        let mut i: usize = 0;
        while i < self.cards.len()
            invariant
                i <= self.cards.len(),
                self.cards@.len() == 52,
                forall|k: int| 0 <= k < 52 ==> (#[trigger] self.cards@[k]).valid(),
                text@ == text_of(self.cards@.take(i as int)),
            decreases self.cards.len() - i,
        {
            let card = self.cards[i].to_text();
            text.append(card.as_str());
            text.append(" ");
            proof {
                reveal_strlit(" ");
                let upto = self.cards@.take(i + 1);
                assert(upto.drop_last() =~= self.cards@.take(i as int));
                assert(" "@ =~= seq![' ']);
            }
            i += 1;
        }
        proof {
            assert(self.cards@.take(i as int) =~= self.cards@);
        }
        text
    }
}

} // verus!
