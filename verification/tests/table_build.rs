use poker_ev::card::{Card, CardSuit};
use poker_ev::evaluator::HandData;
use poker_ev::rank::{rank_of_score, HandRank};
use poker_ev::selector::{evaluate_best_hand, is_hand_part_of_made_up_hand};
use poker_ev::table::{build_combination_table, HandValue, TableError};

fn card(rank: u8, suit: CardSuit) -> Card {
    Card { rank, suit }
}

const H: CardSuit = CardSuit::Heart;
const S: CardSuit = CardSuit::Spade;
const C: CardSuit = CardSuit::Club;
const D: CardSuit = CardSuit::Diamond;

fn entry(cards: [(u8, CardSuit); 5], value: u32) -> HandData {
    HandData { cards: cards.iter().map(|&(r, s)| card(r, s)).collect(), value }
}

fn hand(cards: [(u8, CardSuit); 5]) -> Vec<Card> {
    let mut cards: Vec<Card> = cards.iter().map(|&(r, s)| card(r, s)).collect();
    cards.sort();
    cards
}

#[test]
fn places_follow_the_order_of_the_list() {
    let base = vec![
        entry([(2, H), (3, H), (4, H), (5, H), (7, S)], 7_054_320),
        entry([(2, H), (3, H), (4, H), (5, H), (7, C)], 7_054_320),
        // cards in any order
        entry([(13, S), (2, H), (13, H), (4, D), (3, C)], 113_000_000),
        entry([(14, H), (13, H), (12, H), (11, H), (10, H)], 999_999_999),
    ];
    let table = build_combination_table(&base).unwrap();
    assert_eq!(table.len(), 4);
    assert_eq!(table.listed_hands(), 4);
    assert_eq!(
        table.lookup(&hand([(2, H), (3, H), (4, H), (5, H), (7, S)])),
        Some(HandValue { score: 7_054_320, position: 0 })
    );
    assert_eq!(
        table.lookup(&hand([(2, H), (3, H), (4, H), (5, H), (7, C)])),
        Some(HandValue { score: 7_054_320, position: 1 })
    );
    assert_eq!(
        table.lookup(&hand([(13, S), (2, H), (13, H), (4, D), (3, C)])),
        Some(HandValue { score: 113_000_000, position: 2 })
    );
    assert_eq!(
        table.lookup(&hand([(14, H), (13, H), (12, H), (11, H), (10, H)])),
        Some(HandValue { score: 999_999_999, position: 3 })
    );
    // a hand that was not listed
    assert_eq!(table.lookup(&hand([(2, H), (3, H), (4, H), (5, H), (7, D)])), None);
    // cards that are not in ascending order are no key
    let unsorted = vec![card(7, S), card(5, H), card(4, H), card(3, H), card(2, H)];
    assert_eq!(table.lookup(&unsorted), None);
    assert_eq!(table.lookup(&vec![card(2, H)]), None);
}

#[test]
fn a_hand_listed_twice_keeps_its_last_entry() {
    let base = vec![
        entry([(2, H), (3, H), (4, H), (5, H), (7, S)], 1_000_000),
        entry([(2, H), (3, H), (4, H), (5, H), (7, C)], 2_000_000),
        entry([(7, S), (5, H), (4, H), (3, H), (2, H)], 3_000_000),
    ];
    let table = build_combination_table(&base).unwrap();
    assert_eq!(table.len(), 2);
    assert_eq!(table.listed_hands(), 3);
    assert_eq!(
        table.lookup(&hand([(2, H), (3, H), (4, H), (5, H), (7, S)])),
        Some(HandValue { score: 3_000_000, position: 2 })
    );
}

#[test]
fn faulty_lists_are_refused_at_their_first_fault() {
    let good = entry([(2, H), (3, H), (4, H), (5, H), (7, S)], 7_000_000);
    let lower = entry([(2, H), (3, H), (4, H), (5, H), (7, C)], 6_999_999);
    let repeated = entry([(2, H), (2, H), (4, H), (5, H), (7, C)], 8_000_000);
    let invalid = entry([(1, H), (3, H), (4, H), (5, H), (7, C)], 8_000_000);
    let too_high = entry([(2, H), (3, H), (4, H), (5, H), (7, D)], 1_000_000_000);
    let four = HandData { cards: vec![card(2, H), card(3, H), card(4, H), card(5, H)], value: 8_000_000 };

    let refused = |base: Vec<HandData>| build_combination_table(&base).err();
    assert_eq!(refused(vec![good.clone(), lower.clone()]), Some(TableError::OutOfOrder { index: 1 }));
    assert_eq!(refused(vec![good.clone(), repeated]), Some(TableError::InvalidHand { index: 1 }));
    assert_eq!(refused(vec![invalid, good.clone()]), Some(TableError::InvalidHand { index: 0 }));
    assert_eq!(refused(vec![good.clone(), four]), Some(TableError::InvalidHand { index: 1 }));
    assert_eq!(
        refused(vec![good.clone(), too_high.clone()]),
        Some(TableError::ScoreOutOfRange { index: 1 })
    );
    // of two faults the earlier is named
    assert_eq!(
        refused(vec![good.clone(), too_high, lower]),
        Some(TableError::ScoreOutOfRange { index: 1 })
    );
    assert!(build_combination_table(&vec![]).is_ok());
    assert_eq!(build_combination_table(&vec![]).unwrap().len(), 0);
}

// All six ways to pick five of six cards, with scores of one's choosing.
fn six_card_table(scores: [u32; 6], six: &[Card; 6]) -> Vec<HandData> {
    let mut base: Vec<HandData> = Vec::new();
    for leave_out in 0..6 {
        let cards: Vec<Card> =
            six.iter().enumerate().filter(|(i, _)| *i != leave_out).map(|(_, c)| *c).collect();
        base.push(HandData { cards, value: scores[leave_out] });
    }
    base.sort_by_key(|e| e.value);
    base
}

#[test]
fn of_equal_scores_the_first_pick_is_kept() {
    // in ascending order: 2h 3s 5c 8d 9h Kd
    let six = [card(2, H), card(3, S), card(5, C), card(8, D), card(9, H), card(13, D)];
    let hole = vec![card(13, D), card(2, H)];
    let community = vec![card(9, H), card(3, S), card(8, D), card(5, C)];

    // all picks score alike: the first in enumeration is the five lowest cards
    let table = build_combination_table(&six_card_table([5_000_000; 6], &six)).unwrap();
    let best = evaluate_best_hand(&hole, &community, &table);
    assert_eq!(best.cards, six[..5].to_vec());
    assert_eq!(best.score, 5_000_000);
    assert_eq!(best.rank, HandRank::HighCard);
    assert_eq!(table.lookup(&best.cards).unwrap().position, best.position);

    // the pick without the third card scores highest
    let table =
        build_combination_table(&six_card_table([1, 2, 350_000_000, 3, 4, 5], &six)).unwrap();
    let best = evaluate_best_hand(&hole, &community, &table);
    assert_eq!(best.cards, vec![six[0], six[1], six[3], six[4], six[5]]);
    assert_eq!(best.score, 350_000_000);
    assert_eq!(best.position, 5);
    assert_eq!(rank_of_score(best.score), HandRank::ThreeOfAKind);
    // no hole card shares its rank with another card, so the three of a kind
    // that the score tells is not the player's
    assert_eq!(best.rank, HandRank::HighCard);

    // two picks share the highest score: the earlier one in enumeration wins,
    // that is the one that leaves out the later card
    let table = build_combination_table(&six_card_table([1, 9, 2, 9, 3, 4], &six)).unwrap();
    let best = evaluate_best_hand(&hole, &community, &table);
    assert_eq!(best.cards, vec![six[0], six[1], six[2], six[4], six[5]]);
}

#[test]
fn a_pick_without_hole_cards_is_passed_over() {
    // seven cards; the five community cards alone would score highest
    let hole = vec![card(2, H), card(3, S)];
    let community = vec![card(5, C), card(8, D), card(9, H), card(13, D), card(14, D)];
    let mut all: Vec<Card> = hole.iter().chain(community.iter()).copied().collect();
    all.sort();
    let mut base: Vec<HandData> = Vec::new();
    for a in 0..7 {
        for b in (a + 1)..7 {
            let cards: Vec<Card> =
                all.iter().enumerate().filter(|(i, _)| *i != a && *i != b).map(|(_, c)| *c).collect();
            let board_only = a == 0 && b == 1;
            let value = if board_only { 900_000_000 } else { (10 * a + b) as u32 };
            base.push(HandData { cards, value });
        }
    }
    base.sort_by_key(|e| e.value);
    let table = build_combination_table(&base).unwrap();
    assert_eq!(table.len(), 21);
    let best = evaluate_best_hand(&hole, &community, &table);
    // the highest score among the other twenty: leaving out the two highest cards
    assert_eq!(best.score, 56);
    assert_eq!(best.cards, all[..5].to_vec());
    assert_eq!(best.rank, HandRank::HighCard);
}

#[test]
fn hole_cards_take_part_by_rank_matches() {
    let part = |hole: [(u8, CardSuit); 2], rank: HandRank, combination: &[(u8, CardSuit)]| {
        let hole: Vec<Card> = hole.iter().map(|&(r, s)| card(r, s)).collect();
        let combination: Vec<Card> = combination.iter().map(|&(r, s)| card(r, s)).collect();
        is_hand_part_of_made_up_hand(&hole, &rank, &combination)
    };
    // a pair on the board beside the hole cards
    let board_pair = [(2, C), (3, D), (7, H), (7, S), (13, D)];
    assert!(!part([(2, C), (3, D)], HandRank::Pair, &board_pair));
    // a hole card pairs the board
    assert!(part([(7, C), (3, D)], HandRank::Pair, &[(7, C), (3, D), (7, H), (9, S), (13, D)]));
    // a pair in the hole
    assert!(part([(7, C), (7, D)], HandRank::Pair, &[(7, C), (7, D), (2, H), (9, S), (13, D)]));
    // two pairs, each hole card pairing the board: two matches
    assert!(part([(7, C), (9, D)], HandRank::TwoPairs, &[(7, C), (9, D), (7, H), (9, S), (13, D)]));
    // two pairs, one of them on the board, the other made with one hole card: one match
    assert!(!part([(13, D), (14, D)], HandRank::TwoPairs, &[(13, D), (14, D), (7, H), (7, D), (14, H)]));
    // two pairs with a pair in the hole and a pair on the board: no match
    assert!(!part([(7, C), (7, D)], HandRank::TwoPairs, &[(7, C), (7, D), (9, H), (9, S), (13, D)]));
    // three of a kind with a pair in the hole: each hole card matches the third
    assert!(part([(2, C), (2, D)], HandRank::ThreeOfAKind, &[(2, C), (2, D), (2, H), (5, S), (6, D)]));
    // three of a kind with one hole card and a pair on the board: two matches
    assert!(part([(2, C), (3, D)], HandRank::ThreeOfAKind, &[(2, C), (3, D), (2, H), (2, S), (6, D)]));
    // three of a kind on the board: no match
    assert!(!part([(4, C), (3, D)], HandRank::ThreeOfAKind, &[(4, C), (3, D), (2, H), (2, S), (2, D)]));
    // all other categories count whatever the cards
    for rank in [
        HandRank::HighCard,
        HandRank::Straight,
        HandRank::Flush,
        HandRank::FullHouse,
        HandRank::FourOfAKind,
        HandRank::StraightFlush,
        HandRank::RoyalFlush,
    ] {
        assert!(part([(2, C), (3, D)], rank, &board_pair));
    }
    // cards of the combination that equal a hole card are not matched against
    assert!(!part([(7, C), (3, D)], HandRank::Pair, &[(7, C), (7, C), (3, D), (9, S), (13, D)]));
}
