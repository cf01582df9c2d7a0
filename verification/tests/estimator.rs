use poker_ev::card::{standard_deck, Card, CardSuit};
use poker_ev::estimator::{
    estimate_opponent_range_and_equity, expected_value, half_pot_value, relative_equity, Amount,
    QueryError, Ratio,
};
use poker_ev::rank::HandRank;
use poker_ev::simulator::{run_monte_carlo, SimulatedHandTable};
use poker_ev::starting::{build_starting_hand_table, starting_hand_entry};
use poker_ev::universe::build_full_table;

fn card(rank: u8, suit: CardSuit) -> Card {
    Card { rank, suit }
}

#[test]
fn expected_value_of_half_chance_call() {
    // pot $10.00, bet $2.00, win chance 1/2: 10.0 * 0.5 - 2.0 = 3.0
    let ev = expected_value(1000, 200, Ratio { num: 1, den: 2 });
    assert_eq!(ev, Amount { numerator: 600, denominator: 2 });
    assert_eq!(ev.numerator as f64 / ev.denominator as f64 / 100.0, 3.0);
}

#[test]
fn expected_value_can_be_negative() {
    let ev = expected_value(100, 500, Ratio { num: 1, den: 4 });
    assert_eq!(ev, Amount { numerator: 100 - 2000, denominator: 4 });
}

#[test]
fn half_pot_value_is_exact() {
    let ev = half_pot_value(301, Ratio { num: 9, den: 43 });
    assert_eq!(ev, Amount { numerator: 2 * 301 * 9 - 301 * 43, denominator: 86 });
}

#[test]
fn relative_equity_is_clamped() {
    assert_eq!(relative_equity(5, 10, 20, true), Ratio { num: 0, den: 10 });
    assert_eq!(relative_equity(25, 10, 20, true), Ratio { num: 10, den: 10 });
    assert_eq!(relative_equity(14, 10, 20, true), Ratio { num: 4, den: 10 });
    assert_eq!(relative_equity(14, 10, 10, true), Ratio { num: 0, den: 1 });
    assert_eq!(relative_equity(14, 10, 20, false), Ratio { num: 0, den: 1 });
}

#[test]
fn estimate_on_the_flop_and_faulty_queries() {
    let table = build_full_table();
    let deck = standard_deck();
    let empty_deck: Vec<Card> = Vec::new();
    let starting = build_starting_hand_table(&empty_deck, &table).unwrap();
    let none = Ratio { num: 0, den: 1 };

    // four to a flush with two overcards
    let hole = vec![card(13, CardSuit::Heart), card(14, CardSuit::Heart)];
    let flop = vec![card(2, CardSuit::Heart), card(7, CardSuit::Heart), card(9, CardSuit::Club)];
    let estimate =
        estimate_opponent_range_and_equity(&hole, &flop, &table, &starting, &deck, none).unwrap();
    assert_eq!(estimate.rank, HandRank::HighCard);
    // 47 unseen cards form 1081 pairs
    assert_eq!(estimate.range_size, 1081);
    let r = estimate.range;
    let total = r.high_card
        + r.pair
        + r.two_pairs
        + r.three_of_a_kind
        + r.straight
        + r.flush
        + r.full_house
        + r.four_of_a_kind
        + r.straight_flush
        + r.royal_flush;
    assert_eq!(total, 1081);
    // nine hearts make the flush; three aces and three kings make a pair
    assert_eq!(estimate.outs.flush, 9);
    assert_eq!(estimate.outs.pair, 6);
    assert_eq!(estimate.outs.straight, 0);
    assert!(estimate.relative_equity.num <= estimate.relative_equity.den);
    assert!(estimate.relative_equity.den > 0);
    assert!(estimate.same_rank_equity.num <= estimate.same_rank_equity.den);

    // on the river nothing is left to come
    let river = vec![
        card(2, CardSuit::Heart),
        card(7, CardSuit::Heart),
        card(9, CardSuit::Club),
        card(3, CardSuit::Spade),
        card(4, CardSuit::Heart),
    ];
    let estimate =
        estimate_opponent_range_and_equity(&hole, &river, &table, &starting, &deck, none).unwrap();
    assert_eq!(estimate.rank, HandRank::Flush);
    assert_eq!(estimate.range_size, 990);
    assert_eq!(estimate.outs.flush, 0);

    // typed failures
    let short = vec![card(2, CardSuit::Heart)];
    assert_eq!(
        estimate_opponent_range_and_equity(&hole, &short, &table, &starting, &deck, none),
        Err(QueryError::InsufficientCards)
    );
    let repeated = vec![card(13, CardSuit::Heart), card(7, CardSuit::Heart), card(9, CardSuit::Club)];
    assert_eq!(
        estimate_opponent_range_and_equity(&hole, &repeated, &table, &starting, &deck, none),
        Err(QueryError::DuplicateCards { card: card(13, CardSuit::Heart) })
    );
    let invalid = vec![card(15, CardSuit::Heart), card(7, CardSuit::Heart), card(9, CardSuit::Club)];
    assert_eq!(
        estimate_opponent_range_and_equity(&hole, &invalid, &table, &starting, &deck, none),
        Err(QueryError::InvalidCard)
    );
    let six = vec![
        card(2, CardSuit::Heart),
        card(7, CardSuit::Heart),
        card(9, CardSuit::Club),
        card(3, CardSuit::Spade),
        card(4, CardSuit::Heart),
        card(5, CardSuit::Heart),
    ];
    assert_eq!(
        estimate_opponent_range_and_equity(&hole, &six, &table, &starting, &deck, none),
        Err(QueryError::TooManyCards)
    );
}

#[test]
fn starting_entry_orders_min_mean_max() {
    let table = build_full_table();
    let aces = vec![card(14, CardSuit::Heart), card(14, CardSuit::Spade)];
    let entry = starting_hand_entry(&aces, &table).unwrap();
    assert!(entry.hands > 0);
    assert!(entry.min_position as u64 * entry.hands as u64 <= entry.position_sum);
    assert!(entry.position_sum <= entry.max_position as u64 * entry.hands as u64);
    assert!(entry.max_position < table.listed_hands());
    // Of the 19600 hands with both aces, those that are two pairs are left
    // out: neither ace matches the rank of another card, and two pairs ask
    // for exactly two such matches. Three aces count: each hole ace matches
    // the third ace. The pair on the board can be chosen in 12 * 6 ways and
    // the fifth card in 44.
    assert_eq!(entry.hands, 19600 - 12 * 6 * 44);
    let low = vec![card(2, CardSuit::Heart), card(7, CardSuit::Spade)];
    let weak = starting_hand_entry(&low, &table).unwrap();
    let mean_aces = entry.position_sum as f64 / entry.hands as f64;
    let mean_weak = weak.position_sum as f64 / weak.hands as f64;
    assert!(mean_aces > mean_weak);
}

#[test]
fn simulation_counts_are_consistent() {
    let table = build_full_table();
    let deck = standard_deck();
    let simulated: SimulatedHandTable = run_monte_carlo(2, 300, 6, &deck, &table, 12345);
    assert_eq!(simulated.recorded_games(), 2 * 300 * 6);
    let mut played: u64 = 0;
    let mut won: u64 = 0;
    for i in 0..deck.len() {
        for j in (i + 1)..deck.len() {
            let mut hole = vec![deck[i], deck[j]];
            hole.sort();
            if let Some(entry) = simulated.lookup(&hole) {
                assert!(entry.games_won <= entry.games_played);
                assert_eq!(entry.locked_flop + entry.locked_turn + entry.locked_river, entry.games_won);
                played += entry.games_played;
                won += entry.games_won;
            }
        }
    }
    assert_eq!(played, 2 * 300 * 6);
    assert_eq!(won, 2 * 300);
}
