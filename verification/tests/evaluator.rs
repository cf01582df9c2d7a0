use poker_ev::card::{Card, CardSuit};
use poker_ev::evaluator::{classify_hand, evaluate_hand, score_hand};
use poker_ev::rank::{rank_of_score, HandRank, BAND_WIDTH, SCORE_LIMIT};

fn card(rank: u8, suit: CardSuit) -> Card {
    Card { rank, suit }
}

const H: CardSuit = CardSuit::Heart;
const S: CardSuit = CardSuit::Spade;
const C: CardSuit = CardSuit::Club;
const D: CardSuit = CardSuit::Diamond;

fn scored(cards: [(u8, CardSuit); 5]) -> (u32, HandRank) {
    let cards: Vec<Card> = cards.iter().map(|&(r, s)| card(r, s)).collect();
    let data = evaluate_hand(&cards).unwrap();
    assert_eq!(score_hand(&data.cards), data.value);
    let rank = classify_hand(&data.cards);
    assert_eq!(rank_of_score(data.value), rank);
    (data.value, rank)
}

fn code(d: [u32; 5]) -> u32 {
    (((d[0] * 15 + d[1]) * 15 + d[2]) * 15 + d[3]) * 15 + d[4]
}

#[test]
fn every_category_is_recognized_and_scored_in_its_band() {
    assert_eq!(scored([(7, H), (5, S), (4, C), (3, D), (2, H)]), (372_197, HandRank::HighCard));
    assert_eq!(
        scored([(13, H), (13, S), (14, C), (12, D), (11, H)]),
        (100_705_341, HandRank::Pair)
    );
    assert_eq!(
        scored([(13, H), (13, S), (2, C), (2, D), (9, H)]),
        (200_000_000 + code([13, 13, 2, 2, 9]), HandRank::TwoPairs)
    );
    assert_eq!(
        scored([(8, H), (8, S), (8, C), (2, D), (14, H)]),
        (300_000_000 + code([8, 8, 8, 14, 2]), HandRank::ThreeOfAKind)
    );
    assert_eq!(
        scored([(14, H), (2, S), (3, C), (4, D), (5, H)]),
        (400_267_331, HandRank::Straight)
    );
    assert_eq!(
        scored([(6, H), (7, S), (8, C), (9, D), (10, H)]),
        (400_000_000 + code([10, 9, 8, 7, 6]), HandRank::Straight)
    );
    assert_eq!(
        scored([(2, H), (9, H), (4, H), (13, H), (11, H)]),
        (500_000_000 + code([13, 11, 9, 4, 2]), HandRank::Flush)
    );
    assert_eq!(
        scored([(13, H), (13, S), (13, C), (2, D), (2, H)]),
        (600_704_957, HandRank::FullHouse)
    );
    assert_eq!(
        scored([(2, H), (2, S), (2, C), (13, D), (13, H)]),
        (600_000_000 + code([2, 2, 2, 13, 13]), HandRank::FullHouse)
    );
    assert_eq!(
        scored([(9, H), (9, S), (9, C), (9, D), (3, H)]),
        (700_000_000 + code([9, 9, 9, 9, 3]), HandRank::FourOfAKind)
    );
    assert_eq!(
        scored([(14, S), (2, S), (3, S), (4, S), (5, S)]),
        (800_000_000 + code([5, 4, 3, 2, 1]), HandRank::StraightFlush)
    );
    assert_eq!(
        scored([(9, D), (10, D), (11, D), (12, D), (13, D)]),
        (800_000_000 + code([13, 12, 11, 10, 9]), HandRank::StraightFlush)
    );
    assert_eq!(
        scored([(14, D), (10, D), (11, D), (12, D), (13, D)]),
        (900_755_500, HandRank::RoyalFlush)
    );
}

#[test]
fn each_way_to_hold_a_pair_or_better_is_ordered_by_its_paired_rank() {
    // the pair may stand at any place of the sorted hand
    assert_eq!(scored([(2, H), (2, S), (5, C), (9, D), (13, H)]).0, 100_000_000 + code([2, 2, 13, 9, 5]));
    assert_eq!(scored([(2, H), (5, S), (5, C), (9, D), (13, H)]).0, 100_000_000 + code([5, 5, 13, 9, 2]));
    assert_eq!(scored([(2, H), (5, S), (9, C), (9, D), (13, H)]).0, 100_000_000 + code([9, 9, 13, 5, 2]));
    assert_eq!(scored([(2, H), (5, S), (9, C), (13, D), (13, H)]).0, 100_000_000 + code([13, 13, 9, 5, 2]));
    // two pairs with the kicker low, in the middle, high
    assert_eq!(scored([(2, H), (5, S), (5, C), (9, D), (9, H)]).0, 200_000_000 + code([9, 9, 5, 5, 2]));
    assert_eq!(scored([(2, H), (2, S), (5, C), (9, D), (9, H)]).0, 200_000_000 + code([9, 9, 2, 2, 5]));
    assert_eq!(scored([(2, H), (2, S), (5, C), (5, D), (9, H)]).0, 200_000_000 + code([5, 5, 2, 2, 9]));
    // three of a kind low, in the middle, high
    assert_eq!(scored([(2, H), (2, S), (2, C), (5, D), (9, H)]).0, 300_000_000 + code([2, 2, 2, 9, 5]));
    assert_eq!(scored([(2, H), (5, S), (5, C), (5, D), (9, H)]).0, 300_000_000 + code([5, 5, 5, 9, 2]));
    assert_eq!(scored([(2, H), (5, S), (9, C), (9, D), (9, H)]).0, 300_000_000 + code([9, 9, 9, 5, 2]));
    // four of a kind with the kicker above
    assert_eq!(scored([(2, H), (2, S), (2, C), (2, D), (9, H)]).0, 700_000_000 + code([2, 2, 2, 2, 9]));
}

#[test]
fn stronger_hands_score_higher() {
    let pair_of_twos = scored([(2, H), (2, S), (3, C), (4, D), (5, H)]).0;
    let pair_of_kings = scored([(13, H), (13, S), (3, C), (4, D), (5, H)]).0;
    let ace_high = scored([(14, H), (13, S), (12, C), (11, D), (9, H)]).0;
    assert!(pair_of_kings > pair_of_twos);
    assert!(pair_of_twos > ace_high);
    // kickers decide between equal pairs
    let kings_ace = scored([(13, H), (13, S), (14, C), (4, D), (5, H)]).0;
    let kings_queen = scored([(13, H), (13, S), (12, C), (4, D), (5, H)]).0;
    assert!(kings_ace > kings_queen);
    // the ace counts low in the lowest straight
    let wheel = scored([(14, H), (2, S), (3, C), (4, D), (5, H)]).0;
    let six_high = scored([(2, S), (3, C), (4, D), (5, H), (6, H)]).0;
    assert!(six_high > wheel);
    // suits do not matter within a category
    let a = scored([(14, H), (13, S), (12, C), (11, D), (9, H)]).0;
    let b = scored([(14, S), (13, C), (12, D), (11, H), (9, S)]).0;
    assert_eq!(a, b);
    // the chain of categories
    let chain = [
        scored([(14, H), (13, S), (12, C), (11, D), (9, H)]).0,
        scored([(2, H), (2, S), (3, C), (4, D), (5, H)]).0,
        scored([(2, H), (2, S), (3, C), (3, D), (5, H)]).0,
        scored([(2, H), (2, S), (2, C), (3, D), (5, H)]).0,
        scored([(14, H), (2, S), (3, C), (4, D), (5, H)]).0,
        scored([(2, H), (3, H), (4, H), (5, H), (7, H)]).0,
        scored([(2, H), (2, S), (2, C), (3, D), (3, H)]).0,
        scored([(2, H), (2, S), (2, C), (2, D), (3, H)]).0,
        scored([(14, H), (2, H), (3, H), (4, H), (5, H)]).0,
        scored([(14, H), (13, H), (12, H), (11, H), (10, H)]).0,
    ];
    for i in 1..chain.len() {
        assert!(chain[i] > chain[i - 1]);
        assert_eq!(chain[i] / BAND_WIDTH, i as u32);
    }
    assert!(chain[9] < SCORE_LIMIT);
}

#[test]
fn what_is_not_a_hand_is_not_scored() {
    let four = vec![card(2, H), card(3, H), card(4, H), card(5, H)];
    assert!(evaluate_hand(&four).is_none());
    let repeated = vec![card(2, H), card(3, H), card(4, H), card(5, H), card(5, H)];
    assert!(evaluate_hand(&repeated).is_none());
    let invalid = vec![card(1, H), card(3, H), card(4, H), card(5, H), card(6, H)];
    assert!(evaluate_hand(&invalid).is_none());
    let six = vec![card(2, H), card(3, H), card(4, H), card(5, H), card(6, H), card(7, H)];
    assert!(evaluate_hand(&six).is_none());
}

#[test]
fn scores_are_classified_by_band() {
    assert_eq!(rank_of_score(0), HandRank::HighCard);
    assert_eq!(rank_of_score(99_999_999), HandRank::HighCard);
    assert_eq!(rank_of_score(100_000_000), HandRank::Pair);
    assert_eq!(rank_of_score(199_999_999), HandRank::Pair);
    assert_eq!(rank_of_score(200_000_000), HandRank::TwoPairs);
    assert_eq!(rank_of_score(300_000_000), HandRank::ThreeOfAKind);
    assert_eq!(rank_of_score(400_000_000), HandRank::Straight);
    assert_eq!(rank_of_score(500_000_000), HandRank::Flush);
    assert_eq!(rank_of_score(600_000_000), HandRank::FullHouse);
    assert_eq!(rank_of_score(700_000_000), HandRank::FourOfAKind);
    assert_eq!(rank_of_score(800_000_000), HandRank::StraightFlush);
    assert_eq!(rank_of_score(899_999_999), HandRank::StraightFlush);
    assert_eq!(rank_of_score(900_000_000), HandRank::RoyalFlush);
    assert_eq!(rank_of_score(999_999_999), HandRank::RoyalFlush);
    // 7.05432 points
    assert_eq!(rank_of_score(7_054_320), HandRank::HighCard);
}

#[test]
fn categories_have_levels_floors_and_labels() {
    let all = [
        (HandRank::HighCard, "0/9 High card"),
        (HandRank::Pair, "1/9 Pair"),
        (HandRank::TwoPairs, "2/9 Two Pairs"),
        (HandRank::ThreeOfAKind, "3/9 Three of a Kind"),
        (HandRank::Straight, "4/9 Straight"),
        (HandRank::Flush, "5/9 Flush"),
        (HandRank::FullHouse, "6/9 Full House"),
        (HandRank::FourOfAKind, "7/9 Four of a Kind"),
        (HandRank::StraightFlush, "8/9 Straight Flush"),
        (HandRank::RoyalFlush, "9/9 Royal Flush"),
    ];
    for (i, (rank, label)) in all.iter().enumerate() {
        assert_eq!(rank.number() as usize, i + 1);
        assert_eq!(rank.floor(), i as u32 * 100_000_000);
        assert_eq!(rank.label(), *label);
        assert_eq!(rank_of_score(rank.floor()), *rank);
        if i > 0 {
            assert!(rank.outranks(all[i - 1].0));
            assert!(!all[i - 1].0.outranks(*rank));
            assert!(*rank > all[i - 1].0);
        }
        assert!(!rank.outranks(*rank));
    }
}
