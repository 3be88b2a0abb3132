use poker_hands::deck::{Card, Suit};
use poker_hands::hand::{best_five, find_run, index_by_rank, index_by_suit, sort_by_rank};

fn c(rank: usize, suit: Suit) -> Card {
    Card { rank, suit }
}

fn holding() -> Vec<Card> {
    vec![
        c(7, Suit::Hearts),
        c(13, Suit::Clubs),
        c(3, Suit::Clubs),
        c(7, Suit::Spades),
        c(2, Suit::Hearts),
        c(13, Suit::Diamonds),
        c(3, Suit::Diamonds),
    ]
}

#[test]
fn sorting_descends_and_keeps_ties_in_order() {
    let sorted = sort_by_rank(&holding());
    assert_eq!(
        sorted,
        vec![
            c(13, Suit::Clubs),
            c(13, Suit::Diamonds),
            c(7, Suit::Hearts),
            c(7, Suit::Spades),
            c(3, Suit::Clubs),
            c(3, Suit::Diamonds),
            c(2, Suit::Hearts),
        ]
    );
}

#[test]
fn sorting_nothing_gives_nothing() {
    assert_eq!(sort_by_rank(&Vec::new()), Vec::new());
}

#[test]
fn rank_index_lists_suits_by_rank() {
    let index = index_by_rank(&holding());
    assert_eq!(index.len(), 15);
    assert_eq!(index[13], vec![Suit::Clubs, Suit::Diamonds]);
    assert_eq!(index[7], vec![Suit::Hearts, Suit::Spades]);
    assert_eq!(index[3], vec![Suit::Clubs, Suit::Diamonds]);
    assert_eq!(index[2], vec![Suit::Hearts]);
    for rank in [0, 1, 4, 5, 6, 8, 9, 10, 11, 12, 14] {
        assert!(index[rank].is_empty());
    }
}

#[test]
fn suit_index_lists_ranks_by_suit() {
    let index = index_by_suit(&sort_by_rank(&holding()));
    assert_eq!(index.len(), 4);
    assert_eq!(index[Suit::Clubs.index()], vec![13, 3]);
    assert_eq!(index[Suit::Diamonds.index()], vec![13, 3]);
    assert_eq!(index[Suit::Hearts.index()], vec![7, 2]);
    assert_eq!(index[Suit::Spades.index()], vec![7]);
}

#[test]
fn suit_index_keeps_the_order_of_the_cards() {
    let index = index_by_suit(&holding());
    assert_eq!(index[Suit::Clubs.index()], vec![13, 3]);
    assert_eq!(index[Suit::Hearts.index()], vec![7, 2]);
    let mixed = vec![c(2, Suit::Hearts), c(9, Suit::Hearts), c(5, Suit::Hearts)];
    assert_eq!(index_by_suit(&mixed)[Suit::Hearts.index()], vec![2, 9, 5]);
}

#[test]
fn kickers_add_no_card_twice() {
    let primary = vec![c(7, Suit::Hearts), c(7, Suit::Spades)];
    let hand = best_five(primary, holding());
    assert_eq!(hand.len(), 5);
    for (i, card) in hand.iter().enumerate() {
        assert!(holding().contains(card));
        assert!(!hand[..i].contains(card));
    }
    assert_eq!(
        hand,
        vec![
            c(7, Suit::Hearts),
            c(7, Suit::Spades),
            c(13, Suit::Clubs),
            c(13, Suit::Diamonds),
            c(3, Suit::Clubs),
        ]
    );
}

#[test]
fn run_is_found_at_its_first_place() {
    assert_eq!(find_run(&vec![14, 13, 12, 11, 10, 9, 8]), Some(0));
    assert_eq!(find_run(&vec![14, 12, 11, 10, 9, 8, 2]), Some(1));
    assert_eq!(find_run(&vec![14, 12, 6, 5, 4, 3, 2]), Some(2));
    assert_eq!(find_run(&vec![6, 5, 4, 3, 2]), Some(0));
}

#[test]
fn run_needs_five_steps_of_one() {
    assert_eq!(find_run(&vec![14, 13, 12, 11]), None);
    assert_eq!(find_run(&vec![14, 13, 12, 11, 9, 8, 7]), None);
    assert_eq!(find_run(&vec![9, 8, 8, 7, 6, 5, 2]), None);
    assert_eq!(find_run(&vec![2, 3, 4, 5, 6]), None);
    assert_eq!(find_run(&vec![14, 5, 4, 3, 2]), None);
    assert_eq!(find_run(&Vec::new()), None);
}

#[test]
fn kickers_fill_an_empty_hand_with_the_top_five() {
    let hand = best_five(Vec::new(), holding());
    assert_eq!(
        hand,
        vec![
            c(13, Suit::Clubs),
            c(13, Suit::Diamonds),
            c(7, Suit::Hearts),
            c(7, Suit::Spades),
            c(3, Suit::Clubs),
        ]
    );
}

#[test]
fn kickers_skip_the_cards_already_held() {
    let primary = vec![c(3, Suit::Clubs), c(3, Suit::Diamonds)];
    let hand = best_five(primary, holding());
    assert_eq!(
        hand,
        vec![
            c(3, Suit::Clubs),
            c(3, Suit::Diamonds),
            c(13, Suit::Clubs),
            c(13, Suit::Diamonds),
            c(7, Suit::Hearts),
        ]
    );
}

#[test]
fn kickers_leave_a_full_hand_alone() {
    let primary = vec![
        c(2, Suit::Hearts),
        c(3, Suit::Clubs),
        c(3, Suit::Diamonds),
        c(7, Suit::Hearts),
        c(7, Suit::Spades),
    ];
    let hand = best_five(primary.clone(), holding());
    assert_eq!(hand, primary);
}
