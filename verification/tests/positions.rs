use poker_ev::card::{Card, CardSuit};
use poker_ev::position::{
    is_btn_position_range, is_early_position_range, is_late_position_range, is_mid_position_range,
    is_playable, is_sb_position_range, position_for_dealer, TablePosition,
};
use poker_ev::reading::{dealer_position, PositionError};

const H: CardSuit = CardSuit::Heart;
const S: CardSuit = CardSuit::Spade;

// lower card first; suited hands are both hearts
fn suited(low: u8, high: u8) -> Vec<Card> {
    vec![Card { rank: low, suit: H }, Card { rank: high, suit: H }]
}

fn offsuit(low: u8, high: u8) -> Vec<Card> {
    vec![Card { rank: low, suit: H }, Card { rank: high, suit: S }]
}

// the first position from which the hand is opened: 0 early .. 4 small blind, 5 never
fn first_position(hand: &Vec<Card>) -> usize {
    let ranges = [
        is_early_position_range(hand),
        is_mid_position_range(hand),
        is_late_position_range(hand),
        is_btn_position_range(hand),
        is_sb_position_range(hand),
    ];
    // every range holds the ranges before it
    for i in 1..5 {
        assert!(!ranges[i - 1] || ranges[i]);
    }
    ranges.iter().position(|&b| b).unwrap_or(5)
}

#[test]
fn hands_are_opened_from_the_expected_position() {
    // early
    for low in 2..=13 {
        assert_eq!(first_position(&suited(low, 14)), 0);
    }
    for pair in 5..=14 {
        assert_eq!(first_position(&offsuit(pair, pair)), 0);
    }
    assert_eq!(first_position(&offsuit(13, 14)), 0);
    assert_eq!(first_position(&offsuit(10, 14)), 0);
    assert_eq!(first_position(&offsuit(12, 13)), 0);
    assert_eq!(first_position(&suited(10, 13)), 0);
    assert_eq!(first_position(&suited(10, 12)), 0);
    assert_eq!(first_position(&suited(10, 11)), 0);
    assert_eq!(first_position(&suited(9, 10)), 0);
    assert_eq!(first_position(&suited(5, 6)), 0);
    // middle
    assert_eq!(first_position(&suited(9, 13)), 1);
    assert_eq!(first_position(&suited(8, 13)), 1);
    assert_eq!(first_position(&suited(9, 12)), 1);
    assert_eq!(first_position(&suited(9, 11)), 1);
    assert_eq!(first_position(&offsuit(11, 13)), 1);
    assert_eq!(first_position(&offsuit(11, 12)), 1);
    assert_eq!(first_position(&suited(8, 9)), 1);
    assert_eq!(first_position(&suited(7, 8)), 1);
    assert_eq!(first_position(&suited(6, 7)), 1);
    assert_eq!(first_position(&suited(4, 5)), 1);
    assert_eq!(first_position(&offsuit(4, 4)), 1);
    // late
    assert_eq!(first_position(&suited(5, 13)), 2);
    assert_eq!(first_position(&suited(8, 12)), 2);
    assert_eq!(first_position(&suited(8, 11)), 2);
    assert_eq!(first_position(&suited(8, 10)), 2);
    assert_eq!(first_position(&offsuit(10, 13)), 2);
    assert_eq!(first_position(&offsuit(10, 12)), 2);
    assert_eq!(first_position(&offsuit(10, 11)), 2);
    assert_eq!(first_position(&suited(7, 9)), 2);
    assert_eq!(first_position(&suited(6, 8)), 2);
    assert_eq!(first_position(&suited(5, 7)), 2);
    assert_eq!(first_position(&offsuit(3, 3)), 2);
    assert_eq!(first_position(&offsuit(2, 2)), 2);
    // button
    assert_eq!(first_position(&suited(2, 13)), 3);
    assert_eq!(first_position(&suited(5, 12)), 3);
    assert_eq!(first_position(&suited(7, 11)), 3);
    assert_eq!(first_position(&suited(6, 10)), 3);
    assert_eq!(first_position(&suited(6, 9)), 3);
    assert_eq!(first_position(&suited(5, 8)), 3);
    assert_eq!(first_position(&suited(4, 6)), 3);
    assert_eq!(first_position(&suited(3, 5)), 3);
    assert_eq!(first_position(&suited(3, 4)), 3);
    assert_eq!(first_position(&offsuit(9, 10)), 3);
    assert_eq!(first_position(&offsuit(9, 14)), 3);
    assert_eq!(first_position(&offsuit(4, 14)), 3);
    assert_eq!(first_position(&offsuit(8, 14)), 3);
    // small blind
    assert_eq!(first_position(&suited(2, 12)), 4);
    assert_eq!(first_position(&suited(2, 11)), 4);
    assert_eq!(first_position(&suited(5, 10)), 4);
    assert_eq!(first_position(&suited(5, 9)), 4);
    assert_eq!(first_position(&suited(4, 9)), 4);
    assert_eq!(first_position(&suited(4, 8)), 4);
    assert_eq!(first_position(&suited(3, 7)), 4);
    assert_eq!(first_position(&suited(3, 6)), 4);
    assert_eq!(first_position(&suited(2, 5)), 4);
    assert_eq!(first_position(&suited(2, 4)), 4);
    assert_eq!(first_position(&suited(2, 3)), 4);
    assert_eq!(first_position(&offsuit(8, 13)), 4);
    assert_eq!(first_position(&offsuit(7, 8)), 4);
    assert_eq!(first_position(&offsuit(6, 13)), 4);
    assert_eq!(first_position(&offsuit(4, 12)), 4);
    assert_eq!(first_position(&offsuit(2, 14)), 4);
    assert_eq!(first_position(&offsuit(6, 8)), 4);
    assert_eq!(first_position(&offsuit(5, 7)), 4);
    assert_eq!(first_position(&offsuit(4, 5)), 4);
    // never
    assert_eq!(first_position(&offsuit(2, 7)), 5);
    assert_eq!(first_position(&offsuit(2, 3)), 5);
    assert_eq!(first_position(&offsuit(3, 13)), 5);
    assert_eq!(first_position(&offsuit(6, 12)), 5);
    assert_eq!(first_position(&offsuit(6, 9)), 5);
    assert_eq!(first_position(&suited(2, 9)), 5);
    assert_eq!(first_position(&suited(2, 6)), 5);
}

#[test]
fn every_hole_pair_is_opened_from_a_position_on(){
    let mut opened = [0usize; 6];
    for low in 2..=14u8 {
        for high in low..=14u8 {
            opened[first_position(&offsuit(low, high))] += 1;
            if low != high {
                opened[first_position(&suited(low, high))] += 1;
            }
        }
    }
    assert_eq!(opened.iter().sum::<usize>(), 13 + 78 + 78);
    assert_eq!(opened[0], 12 + 10 + 5 + 3 + 2 + 1 + 1 + 1);
}

#[test]
fn playable_goes_by_position() {
    let hand = suited(8, 12);
    assert!(!is_playable(TablePosition::Early, &hand));
    assert!(!is_playable(TablePosition::Mid, &hand));
    assert!(is_playable(TablePosition::Late, &hand));
    assert!(is_playable(TablePosition::Button, &hand));
    assert!(is_playable(TablePosition::SB, &hand));
    assert_eq!(TablePosition::Early.label(), "UTG");
    assert_eq!(TablePosition::Mid.label(), "MID");
    assert_eq!(TablePosition::Late.label(), "LATE");
    assert_eq!(TablePosition::Button.label(), "BTN");
    assert_eq!(TablePosition::SB.label(), "SB");
}

#[test]
fn positions_follow_the_dealer() {
    assert_eq!(position_for_dealer(3, 1), Some(TablePosition::Button));
    assert_eq!(position_for_dealer(3, 2), Some(TablePosition::Late));
    assert_eq!(position_for_dealer(3, 3), Some(TablePosition::SB));
    assert_eq!(position_for_dealer(3, 4), None);
    assert_eq!(position_for_dealer(6, 1), Some(TablePosition::Button));
    assert_eq!(position_for_dealer(6, 2), Some(TablePosition::Late));
    assert_eq!(position_for_dealer(6, 3), Some(TablePosition::Mid));
    assert_eq!(position_for_dealer(6, 4), Some(TablePosition::Early));
    assert_eq!(position_for_dealer(6, 5), Some(TablePosition::Early));
    assert_eq!(position_for_dealer(6, 6), Some(TablePosition::SB));
    assert_eq!(position_for_dealer(9, 6), Some(TablePosition::SB));
    assert_eq!(position_for_dealer(9, 7), None);
    assert_eq!(position_for_dealer(6, 0), None);
    assert_eq!(position_for_dealer(4, 1), None);
}

#[test]
fn positions_are_read_from_seat_markers() {
    assert_eq!(dealer_position("Dealer Empty Empty"), Ok(TablePosition::Button));
    assert_eq!(dealer_position("Empty Dealer Empty"), Ok(TablePosition::Late));
    assert_eq!(dealer_position("Empty Empty Dealer"), Ok(TablePosition::SB));
    assert_eq!(dealer_position("empty EMPTY dealer Empty Empty Empty"), Ok(TablePosition::Mid));
    assert_eq!(dealer_position("Empty Empty Empty Dealer Empty Empty"), Ok(TablePosition::Early));
    assert_eq!(dealer_position("Empty Empty Empty Empty Empty Dealer"), Ok(TablePosition::SB));
    // what follows the dealer is not looked at
    assert_eq!(dealer_position("Dealer x y"), Ok(TablePosition::Button));
    assert_eq!(dealer_position("Dealer Empty"), Err(PositionError::MalformedTable));
    assert_eq!(dealer_position(""), Err(PositionError::MalformedTable));
    assert_eq!(dealer_position("Empty Empty Empty"), Err(PositionError::NoDealer));
    assert_eq!(dealer_position("Empty Seat Dealer"), Err(PositionError::UnknownMarker));
    assert_eq!(
        dealer_position("Empty Empty Empty Empty Empty Empty Dealer Empty Empty"),
        Err(PositionError::UnassignedSeat)
    );
}
