use poker_ev::card::{standard_deck, Card, CardSuit};
use poker_ev::evaluator::evaluate_hand;
use poker_ev::rank::{rank_of_score, HandRank};
use poker_ev::selector::{evaluate_best_hand, is_hand_part_of_made_up_hand};
use poker_ev::table::build_combination_table;
use poker_ev::estimator::{equity_of, Ratio};
use poker_ev::universe::{
    build_full_table, cards_in_order, generate_hand_values, holds_every_hand_of, HAND_COUNT,
};

fn card(rank: u8, suit: CardSuit) -> Card {
    Card { rank, suit }
}

const H: CardSuit = CardSuit::Heart;
const S: CardSuit = CardSuit::Spade;
const C: CardSuit = CardSuit::Club;
const D: CardSuit = CardSuit::Diamond;

#[test]
fn full_table_holds_every_hand_once() {
    let table = build_full_table();
    assert_eq!(HAND_COUNT, 2_598_960);
    assert_eq!(table.len(), 2_598_960);
    assert_eq!(table.listed_hands(), 2_598_960);
    // the weakest hands stand first, the strongest last
    let lowest = vec![card(2, H), card(3, H), card(4, H), card(5, H), card(7, S)];
    let low = table.lookup(&lowest).unwrap();
    assert_eq!(low.score, 372_197);
    assert!(low.position < 1020);
    let royal = vec![card(10, D), card(11, D), card(12, D), card(13, D), card(14, D)];
    let top = table.lookup(&royal).unwrap();
    assert_eq!(top.score, 900_755_500);
    assert!(top.position >= 2_598_956);
    assert_eq!(equity_of(&top, &table), Ratio { num: top.position, den: 2_598_960 });
    assert!(holds_every_hand_of(&table));
    // a stronger hand has the higher place
    let kings = vec![card(3, C), card(4, D), card(5, H), card(13, H), card(13, S)];
    let twos = vec![card(2, H), card(2, S), card(3, C), card(4, D), card(5, H)];
    assert!(table.lookup(&kings).unwrap().position > table.lookup(&twos).unwrap().position);
    assert!(table.lookup(&twos).unwrap().position > low.position);
}

#[test]
fn the_list_of_all_hands_is_ordered_and_scored() {
    let list = generate_hand_values();
    assert_eq!(list.len(), 2_598_960);
    for i in 1..list.len() {
        assert!(list[i - 1].value <= list[i].value);
    }
    for i in (0..list.len()).step_by(9973) {
        let again = evaluate_hand(&list[i].cards).unwrap();
        assert_eq!(again.cards, list[i].cards);
        assert_eq!(again.value, list[i].value);
    }
    assert_eq!(rank_of_score(list[0].value), HandRank::HighCard);
    assert_eq!(rank_of_score(list[list.len() - 1].value), HandRank::RoyalFlush);
    // 1302540 hands with no pair, straight or flush come first
    assert_eq!(rank_of_score(list[1_302_539].value), HandRank::HighCard);
    assert_eq!(rank_of_score(list[1_302_540].value), HandRank::Pair);
    assert!(build_combination_table(&list).is_ok());
    // a list that lacks one hand does not give a complete table
    let partial = build_combination_table(&list[1..].to_vec()).unwrap();
    assert_eq!(partial.len(), 2_598_959);
    assert!(!holds_every_hand_of(&partial));
    let ordered = cards_in_order();
    assert_eq!(ordered.len(), 52);
    let mut by_std = standard_deck();
    by_std.sort();
    assert_eq!(ordered, by_std);
}

#[test]
fn royal_flush_from_five_and_from_seven_cards() {
    let table = build_full_table();
    let hole = vec![card(14, H), card(13, H)];
    let flop = vec![card(12, H), card(11, H), card(10, H)];
    let best = evaluate_best_hand(&hole, &flop, &table);
    assert_eq!(best.rank, HandRank::RoyalFlush);
    assert_eq!(rank_of_score(best.score), HandRank::RoyalFlush);
    assert_eq!(best.score, 900_755_500);
    let royal = vec![card(10, H), card(11, H), card(12, H), card(13, H), card(14, H)];
    assert_eq!(best.cards, royal);
    let river = vec![card(12, H), card(11, H), card(10, H), card(2, C), card(2, D)];
    let seven = evaluate_best_hand(&hole, &river, &table);
    assert_eq!(seven.rank, HandRank::RoyalFlush);
    assert_eq!(seven.cards, royal);
    assert_eq!(seven.score, best.score);
    assert_eq!(seven.position, best.position);
    let turn = vec![card(12, H), card(11, H), card(10, H), card(9, H)];
    let six = evaluate_best_hand(&hole, &turn, &table);
    assert_eq!(six.rank, HandRank::RoyalFlush);
    assert_eq!(six.cards, royal);
}

#[test]
fn hole_cards_beside_a_board_pair_do_not_take_part() {
    let table = build_full_table();
    let hole = vec![card(2, C), card(3, D)];
    let flop = vec![card(7, H), card(7, S), card(13, D)];
    // the pair of sevens lies on the board: for the player it is a high card
    let best = evaluate_best_hand(&hole, &flop, &table);
    assert_eq!(best.rank, HandRank::HighCard);
    assert_eq!(best.cards, vec![card(2, C), card(3, D), card(7, H), card(7, S), card(13, D)]);
    // the score itself lies in the band of the pair
    assert_eq!(rank_of_score(best.score), HandRank::Pair);
    assert!(!is_hand_part_of_made_up_hand(&hole, &HandRank::Pair, &best.cards));
    // a hole card that pairs the board does take part
    let paired = vec![card(7, C), card(3, D)];
    let best = evaluate_best_hand(&paired, &flop, &table);
    assert_eq!(best.rank, HandRank::ThreeOfAKind);
    assert_eq!(rank_of_score(best.score), HandRank::ThreeOfAKind);
    assert!(is_hand_part_of_made_up_hand(&paired, &best.rank, &best.cards));
    // the same holds with seven cards: the board pairs, the player does not
    let river = vec![card(7, H), card(7, S), card(13, D), card(9, C), card(11, S)];
    let best = evaluate_best_hand(&hole, &river, &table);
    assert_eq!(rank_of_score(best.score), HandRank::Pair);
    assert_eq!(best.rank, HandRank::HighCard);
}

#[test]
fn the_board_alone_is_never_the_players_hand() {
    let table = build_full_table();
    // the board holds a royal flush; the hole cards are two low cards
    let hole = vec![card(2, C), card(3, D)];
    let board = vec![card(10, H), card(11, H), card(12, H), card(13, H), card(14, H)];
    let best = evaluate_best_hand(&hole, &board, &table);
    assert_eq!(best.rank, HandRank::HighCard);
    assert_eq!(best.cards, vec![card(3, D), card(11, H), card(12, H), card(13, H), card(14, H)]);
    // with six cards every pick holds a hole card
    let hole = vec![card(2, C), card(9, H)];
    let turn = vec![card(10, H), card(11, H), card(12, H), card(13, H)];
    let best = evaluate_best_hand(&hole, &turn, &table);
    assert_eq!(best.rank, HandRank::StraightFlush);
    assert_eq!(best.cards, vec![card(9, H), card(10, H), card(11, H), card(12, H), card(13, H)]);
}
