use poker_hands::deck::{Card, Suit};
use poker_hands::hand::{best_five_of_seven, is_valid_holding, FinalHand, HandRank};

fn card(text: &str) -> Card {
    let mut chars = text.chars();
    let rank = match chars.next() {
        Some('T') => 10,
        Some('J') => 11,
        Some('Q') => 12,
        Some('K') => 13,
        Some('A') => 14,
        Some(digit) => match digit.to_digit(10) {
            Some(value) => value as usize,
            None => panic!("no rank: {}", text),
        },
        None => panic!("no rank: {}", text),
    };
    let suit = match chars.next() {
        Some('c') => Suit::Clubs,
        Some('d') => Suit::Diamonds,
        Some('h') => Suit::Hearts,
        Some('s') => Suit::Spades,
        _ => panic!("no suit: {}", text),
    };
    Card { rank, suit }
}

fn cards(texts: &[&str]) -> Vec<Card> {
    texts.iter().map(|text| card(text)).collect()
}

fn rank_holding(texts: &[&str]) -> FinalHand {
    let holding = cards(texts);
    assert!(is_valid_holding(&holding));
    best_five_of_seven(holding)
}

fn same_cards(hand: &[Card], texts: &[&str]) -> bool {
    let wanted = cards(texts);
    hand.len() == wanted.len()
        && wanted.iter().all(|c| hand.contains(c))
        && hand.iter().all(|c| wanted.contains(c))
}

#[test]
fn royal_flush_is_a_straight_flush() {
    let best = rank_holding(&["Ah", "Kh", "Qh", "Jh", "Th", "2c", "3d"]);
    assert_eq!(best.hand_rank, HandRank::StraightFlush);
    assert_eq!(best.hand, cards(&["Ah", "Kh", "Qh", "Jh", "Th"]));
}

#[test]
fn quads_take_the_highest_kicker() {
    let best = rank_holding(&["7c", "7d", "7h", "7s", "2c", "3d", "4h"]);
    assert_eq!(best.hand_rank, HandRank::Quads);
    assert_eq!(best.hand, cards(&["7c", "7d", "7h", "7s", "4h"]));
}

#[test]
fn trips_and_pair_make_a_full_house() {
    let best = rank_holding(&["9c", "9d", "9h", "5c", "5d", "2h", "3h"]);
    assert_eq!(best.hand_rank, HandRank::FullHouse);
    assert_eq!(best.hand, cards(&["9c", "9d", "9h", "5c", "5d"]));
}

#[test]
fn two_pair_takes_the_highest_card_left() {
    let best = rank_holding(&["Kc", "Kd", "7h", "7s", "3c", "3d", "2h"]);
    assert_eq!(best.hand_rank, HandRank::TwoPair);
    assert_eq!(best.hand, cards(&["Kc", "Kd", "7h", "7s", "3c"]));
}

#[test]
fn gaps_leave_a_high_card() {
    let best = rank_holding(&["2c", "4d", "6h", "8s", "Tc", "Jd", "Qh"]);
    assert_eq!(best.hand_rank, HandRank::HighCard);
    assert_eq!(best.hand, cards(&["Qh", "Jd", "Tc", "8s", "6h"]));
}

#[test]
fn two_trips_make_a_full_house() {
    let best = rank_holding(&["Kc", "Kd", "Kh", "8c", "8d", "8h", "2s"]);
    assert_eq!(best.hand_rank, HandRank::FullHouse);
    assert_eq!(best.hand.len(), 5);
    assert_eq!(best.hand.iter().filter(|c| c.rank == 13).count(), 3);
    assert_eq!(best.hand.iter().filter(|c| c.rank == 8).count(), 2);
}

#[test]
fn lower_trips_give_up_their_last_card() {
    let best = rank_holding(&["8h", "Kc", "8c", "Kd", "2s", "8d", "Kh"]);
    assert_eq!(best.hand_rank, HandRank::FullHouse);
    assert_eq!(best.hand, cards(&["Kc", "Kd", "Kh", "8h", "8c"]));
}

#[test]
fn full_house_lists_the_higher_rank_first() {
    let best = rank_holding(&["5c", "5d", "5h", "9c", "9d", "2h", "3h"]);
    assert_eq!(best.hand_rank, HandRank::FullHouse);
    assert_eq!(best.hand, cards(&["9c", "9d", "5c", "5d", "5h"]));
}

#[test]
fn full_house_takes_the_higher_of_two_pairs() {
    let best = rank_holding(&["4c", "4d", "4h", "9c", "9d", "Jh", "Js"]);
    assert_eq!(best.hand_rank, HandRank::FullHouse);
    assert_eq!(best.hand, cards(&["Jh", "Js", "4c", "4d", "4h"]));
}

#[test]
fn hand_is_five_distinct_cards_of_the_holding() {
    let holdings: [[&str; 7]; 6] = [
        ["Ah", "Kh", "Qh", "Jh", "Th", "2c", "3d"],
        ["7c", "7d", "7h", "7s", "2c", "3d", "4h"],
        ["Kc", "Kd", "Kh", "8c", "8d", "8h", "2s"],
        ["2c", "4d", "6h", "8s", "Tc", "Jd", "Qh"],
        ["9s", "8d", "7h", "6s", "5c", "Jd", "Qh"],
        ["As", "Ad", "7h", "6s", "5c", "Jd", "Qh"],
    ];
    for holding in holdings.iter() {
        let input = cards(holding);
        let best = best_five_of_seven(cards(holding));
        assert_eq!(best.hand.len(), 5);
        for (i, c) in best.hand.iter().enumerate() {
            assert!(input.contains(c));
            assert!(!best.hand[..i].contains(c));
        }
    }
}

#[test]
fn flush_beats_a_straight_in_other_suits() {
    let best = rank_holding(&["9h", "8h", "7c", "6h", "5h", "2h", "4d"]);
    assert_eq!(best.hand_rank, HandRank::Flush);
    assert_eq!(best.hand, cards(&["9h", "8h", "6h", "5h", "2h"]));
}

#[test]
fn straight_inside_the_flush_suit_is_a_straight_flush() {
    let best = rank_holding(&["9h", "8h", "7h", "6h", "5h", "Kh", "4d"]);
    assert_eq!(best.hand_rank, HandRank::StraightFlush);
    assert_eq!(best.hand, cards(&["9h", "8h", "7h", "6h", "5h"]));
}

#[test]
fn straight_flush_is_found_in_the_lowest_window() {
    let best = rank_holding(&["Ah", "Kh", "7h", "6h", "5h", "4h", "3h"]);
    assert_eq!(best.hand_rank, HandRank::StraightFlush);
    assert_eq!(best.hand, cards(&["7h", "6h", "5h", "4h", "3h"]));
}

#[test]
fn highest_straight_flush_wins() {
    let best = rank_holding(&["4s", "9s", "5s", "8s", "6s", "7s", "3s"]);
    assert_eq!(best.hand_rank, HandRank::StraightFlush);
    assert_eq!(best.hand, cards(&["9s", "8s", "7s", "6s", "5s"]));
}

#[test]
fn flush_takes_the_five_highest_of_the_suit() {
    let best = rank_holding(&["2d", "Kd", "4d", "Jd", "6d", "9d", "As"]);
    assert_eq!(best.hand_rank, HandRank::Flush);
    assert_eq!(best.hand, cards(&["Kd", "Jd", "9d", "6d", "4d"]));
}

#[test]
fn quads_beat_the_trips_beside_them() {
    let best = rank_holding(&["3c", "3d", "3h", "3s", "Ac", "Ad", "Ah"]);
    assert_eq!(best.hand_rank, HandRank::Quads);
    assert_eq!(best.hand, cards(&["3c", "3d", "3h", "3s", "Ac"]));
}

#[test]
fn full_house_beats_the_straight_beside_it() {
    let best = rank_holding(&["6c", "6d", "6h", "5c", "5d", "4h", "3h"]);
    assert_eq!(best.hand_rank, HandRank::FullHouse);
    assert!(same_cards(&best.hand, &["6c", "6d", "6h", "5c", "5d"]));
}

#[test]
fn ranking_twice_gives_the_same_hand() {
    let texts = ["Kc", "Kd", "7h", "7s", "3c", "3d", "2h"];
    let first = best_five_of_seven(cards(&texts));
    let second = best_five_of_seven(cards(&texts));
    assert_eq!(first.hand_rank, second.hand_rank);
    assert_eq!(first.hand, second.hand);
}

#[test]
fn straight_takes_the_highest_window() {
    let best = rank_holding(&["5c", "9d", "6h", "Ts", "7c", "8d", "4h"]);
    assert_eq!(best.hand_rank, HandRank::Straight);
    assert_eq!(best.hand, cards(&["Ts", "9d", "8d", "7c", "6h"]));
}

#[test]
fn straight_is_found_in_the_lowest_window() {
    let best = rank_holding(&["Kc", "Jd", "6h", "5s", "4c", "3d", "2h"]);
    assert_eq!(best.hand_rank, HandRank::Straight);
    assert_eq!(best.hand, cards(&["6h", "5s", "4c", "3d", "2h"]));
}

#[test]
fn pair_inside_the_span_hides_the_straight() {
    let best = rank_holding(&["9c", "8d", "8h", "7s", "6c", "5d", "2h"]);
    assert_eq!(best.hand_rank, HandRank::Pair);
    assert_eq!(best.hand, cards(&["8d", "8h", "9c", "7s", "6c"]));
}

#[test]
fn ace_does_not_count_low() {
    let best = rank_holding(&["Ac", "2d", "3h", "4s", "5c", "9d", "Jh"]);
    assert_eq!(best.hand_rank, HandRank::HighCard);
    assert_eq!(best.hand, cards(&["Ac", "Jh", "9d", "5c", "4s"]));
}

#[test]
fn ace_high_straight_counts() {
    let best = rank_holding(&["Ac", "Kd", "Qh", "Js", "Tc", "3d", "2h"]);
    assert_eq!(best.hand_rank, HandRank::Straight);
    assert_eq!(best.hand, cards(&["Ac", "Kd", "Qh", "Js", "Tc"]));
}

#[test]
fn trips_take_two_kickers() {
    let best = rank_holding(&["4c", "Qd", "4h", "9s", "4d", "2d", "Ks"]);
    assert_eq!(best.hand_rank, HandRank::Trips);
    assert_eq!(best.hand, cards(&["4c", "4h", "4d", "Ks", "Qd"]));
}

#[test]
fn pair_takes_three_kickers() {
    let best = rank_holding(&["4c", "Qd", "4h", "9s", "3d", "2d", "Ks"]);
    assert_eq!(best.hand_rank, HandRank::Pair);
    assert_eq!(best.hand, cards(&["4c", "4h", "Ks", "Qd", "9s"]));
}

#[test]
fn third_pair_can_give_the_kicker() {
    let best = rank_holding(&["Kc", "Kd", "7h", "7s", "3d", "3c", "2h"]);
    assert_eq!(best.hand_rank, HandRank::TwoPair);
    assert_eq!(best.hand, cards(&["Kc", "Kd", "7h", "7s", "3d"]));
}

#[test]
fn single_card_above_the_third_pair_is_the_kicker() {
    let best = rank_holding(&["Kc", "Kd", "7h", "7s", "3d", "3c", "9h"]);
    assert_eq!(best.hand_rank, HandRank::TwoPair);
    assert_eq!(best.hand, cards(&["Kc", "Kd", "7h", "7s", "9h"]));
}

#[test]
fn holding_must_be_seven_valid_distinct_cards() {
    assert!(is_valid_holding(&cards(&["Kc", "Kd", "7h", "7s", "3d", "3c", "9h"])));
    assert!(!is_valid_holding(&cards(&["Kc", "Kd", "7h", "7s", "3d", "3c"])));
    assert!(!is_valid_holding(&cards(&["Kc", "Kd", "7h", "7s", "3d", "3c", "9h", "2h"])));
    assert!(!is_valid_holding(&cards(&["Kc", "Kd", "7h", "7s", "3d", "3c", "Kc"])));
    let mut low = cards(&["Kc", "Kd", "7h", "7s", "3d", "3c", "9h"]);
    low[6].rank = 1;
    assert!(!is_valid_holding(&low));
    let mut high = cards(&["Kc", "Kd", "7h", "7s", "3d", "3c", "9h"]);
    high[0].rank = 15;
    assert!(!is_valid_holding(&high));
}

#[test]
fn order_of_the_holding_decides_suits_only() {
    let first = rank_holding(&["Kc", "Kd", "7h", "7s", "3c", "3d", "2h"]);
    let second = rank_holding(&["2h", "3d", "3c", "7s", "7h", "Kd", "Kc"]);
    assert_eq!(first.hand_rank, second.hand_rank);
    assert_eq!(first.hand, cards(&["Kc", "Kd", "7h", "7s", "3c"]));
    assert_eq!(second.hand, cards(&["Kd", "Kc", "7s", "7h", "3d"]));
    let ranks = |hand: &FinalHand| hand.hand.iter().map(|c| c.rank).collect::<Vec<usize>>();
    assert_eq!(ranks(&first), ranks(&second));
}

#[test]
fn order_of_the_holding_keeps_the_kind() {
    let texts = ["9h", "8h", "7c", "6h", "5h", "2h", "4d"];
    let kind = rank_holding(&texts).hand_rank;
    for turn in 1..7 {
        let mut turned = texts.to_vec();
        turned.rotate_left(turn);
        assert_eq!(rank_holding(&turned).hand_rank, kind);
    }
}

#[test]
fn hand_shows_the_pattern_of_its_kind() {
    let count = |hand: &FinalHand, rank: usize| hand.hand.iter().filter(|c| c.rank == rank).count();
    let quads = rank_holding(&["7c", "Ad", "7h", "7s", "Ac", "7d", "Ah"]);
    assert_eq!(quads.hand_rank, HandRank::Quads);
    assert_eq!(count(&quads, 7), 4);
    assert_eq!(count(&quads, 14), 1);
    let full = rank_holding(&["7c", "Ad", "7h", "2s", "Ac", "7d", "3h"]);
    assert_eq!(full.hand_rank, HandRank::FullHouse);
    assert_eq!(count(&full, 7), 3);
    assert_eq!(count(&full, 14), 2);
    let flush = rank_holding(&["7c", "Ac", "9c", "2c", "Ad", "Jc", "3h"]);
    assert_eq!(flush.hand_rank, HandRank::Flush);
    assert!(flush.hand.iter().all(|c| c.suit == Suit::Clubs));
    let straight = rank_holding(&["7c", "8d", "9c", "Th", "Jd", "2c", "3h"]);
    assert_eq!(straight.hand_rank, HandRank::Straight);
    for place in 0..4 {
        assert_eq!(straight.hand[place].rank, straight.hand[place + 1].rank + 1);
    }
}

#[test]
fn quads_are_found_in_any_order() {
    let best = rank_holding(&["Ks", "9d", "2c", "9s", "Kd", "9c", "9h"]);
    assert_eq!(best.hand_rank, HandRank::Quads);
    assert_eq!(best.hand, cards(&["9d", "9s", "9c", "9h", "Ks"]));
}
