use poker_hands::deck::{exchange, Card, Deck, Suit};
use poker_hands::hand::{best_five_of_seven, is_valid_holding};

fn drain(deck: &mut Deck) -> Vec<Card> {
    let mut drawn = Vec::new();
    while deck.cards_left() > 0 {
        drawn.push(deck.draw_card());
    }
    drawn
}

#[test]
fn card_numbers_ascend_by_rank_then_suit() {
    assert_eq!(Card::from(0), Card { rank: 2, suit: Suit::Clubs });
    assert_eq!(Card::from(1), Card { rank: 2, suit: Suit::Diamonds });
    assert_eq!(Card::from(2), Card { rank: 2, suit: Suit::Hearts });
    assert_eq!(Card::from(3), Card { rank: 2, suit: Suit::Spades });
    assert_eq!(Card::from(4), Card { rank: 3, suit: Suit::Clubs });
    assert_eq!(Card::from(35), Card { rank: 10, suit: Suit::Spades });
    assert_eq!(Card::from(51), Card { rank: 14, suit: Suit::Spades });
}

#[test]
fn suits_keep_their_places() {
    for place in 0..4 {
        assert_eq!(Suit::from_index(place).index(), place);
    }
    assert_eq!(Suit::Clubs.index(), 0);
    assert_eq!(Suit::Spades.index(), 3);
}

#[test]
fn cards_are_written_as_rank_and_suit() {
    assert_eq!(Card { rank: 2, suit: Suit::Clubs }.to_text(), "2c");
    assert_eq!(Card { rank: 9, suit: Suit::Diamonds }.to_text(), "9d");
    assert_eq!(Card { rank: 10, suit: Suit::Hearts }.to_text(), "Th");
    assert_eq!(Card { rank: 11, suit: Suit::Spades }.to_text(), "Js");
    assert_eq!(Card { rank: 12, suit: Suit::Clubs }.to_text(), "Qc");
    assert_eq!(Card { rank: 13, suit: Suit::Diamonds }.to_text(), "Kd");
    assert_eq!(Card { rank: 14, suit: Suit::Hearts }.to_text(), "Ah");
}

#[test]
fn validity_is_a_rank_from_two_to_fourteen() {
    assert!(Card { rank: 2, suit: Suit::Clubs }.is_valid());
    assert!(Card { rank: 14, suit: Suit::Clubs }.is_valid());
    assert!(!Card { rank: 1, suit: Suit::Clubs }.is_valid());
    assert!(!Card { rank: 15, suit: Suit::Clubs }.is_valid());
}

#[test]
fn new_deck_deals_from_the_ace_of_spades_down() {
    let mut deck = Deck::new();
    assert_eq!(deck.cards_left(), 52);
    assert_eq!(deck.draw_card(), Card { rank: 14, suit: Suit::Spades });
    assert_eq!(deck.draw_card(), Card { rank: 14, suit: Suit::Hearts });
    assert_eq!(deck.cards_left(), 50);
    let rest = drain(&mut deck);
    assert_eq!(rest.len(), 50);
    assert_eq!(rest[49], Card { rank: 2, suit: Suit::Clubs });
    assert_eq!(deck.cards_left(), 0);
}

#[test]
fn new_deck_is_written_in_order() {
    let text = Deck::new().to_text();
    assert_eq!(text.len(), 156);
    assert!(text.starts_with("2c 2d 2h 2s 3c "));
    assert!(text.ends_with("Ac Ad Ah As "));
}

#[test]
fn shuffle_keeps_every_card_once() {
    let mut deck = Deck::new();
    deck.shuffle();
    assert_eq!(deck.cards_left(), 52);
    let drawn = drain(&mut deck);
    assert_eq!(drawn.len(), 52);
    for number in 0..52 {
        let wanted = Card::from(number);
        assert_eq!(drawn.iter().filter(|c| **c == wanted).count(), 1);
    }
}

#[test]
fn shuffle_makes_dealt_cards_available_again() {
    let mut deck = Deck::new();
    for _ in 0..10 {
        deck.draw_card();
    }
    assert_eq!(deck.cards_left(), 42);
    deck.shuffle();
    assert_eq!(deck.cards_left(), 52);
}

#[test]
fn shuffle_leaves_no_card_at_its_place() {
    let mut deck = Deck::new();
    for _ in 0..50 {
        let before = deck.to_text();
        deck.shuffle();
        let after = deck.to_text();
        assert_eq!(before.len(), 156);
        assert_eq!(after.len(), 156);
        for place in 0..52 {
            assert_ne!(before[3 * place..3 * place + 2], after[3 * place..3 * place + 2]);
        }
    }
}

#[test]
fn two_shuffles_differ() {
    let mut first = Deck::new();
    let mut second = Deck::new();
    first.shuffle();
    second.shuffle();
    assert_ne!(first.to_text(), second.to_text());
    assert_ne!(first.to_text(), Deck::new().to_text());
}

#[test]
fn exchange_swaps_two_places() {
    let mut cards = vec![Card::from(0), Card::from(1), Card::from(2)];
    exchange(&mut cards, 0, 2);
    assert_eq!(cards, vec![Card::from(2), Card::from(1), Card::from(0)]);
    exchange(&mut cards, 1, 1);
    assert_eq!(cards, vec![Card::from(2), Card::from(1), Card::from(0)]);
}

#[test]
fn seven_dealt_cards_can_be_ranked() {
    let mut deck = Deck::new();
    for _ in 0..20 {
        deck.shuffle();
        let mut holding = Vec::new();
        for _ in 0..7 {
            holding.push(deck.draw_card());
        }
        assert!(is_valid_holding(&holding));
        let best = best_five_of_seven(holding.clone());
        assert_eq!(best.hand.len(), 5);
        for card in best.hand.iter() {
            assert!(holding.contains(card));
        }
    }
}
