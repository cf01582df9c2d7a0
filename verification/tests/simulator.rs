use poker_ev::card::{standard_deck, Card, CardSuit};
use poker_ev::rank::{HandRank, RankHistogram};
use poker_ev::simulator::{
    deal_round, find_leader, play_round, record_round, resolve_round, shuffle_deck, simulate_game,
    swap_cards,
    Deal, RoundOutcome, SimulatedHand, SimulatedHandTable, Street,
};
use poker_ev::universe::build_full_table;

fn card(rank: u8, suit: CardSuit) -> Card {
    Card { rank, suit }
}

const H: CardSuit = CardSuit::Heart;
const S: CardSuit = CardSuit::Spade;
const C: CardSuit = CardSuit::Club;
const D: CardSuit = CardSuit::Diamond;

fn sorted(mut cards: Vec<Card>) -> Vec<Card> {
    cards.sort();
    cards
}

#[test]
fn swapping_exchanges_two_places() {
    let mut deck = vec![card(2, H), card(3, H), card(4, H)];
    swap_cards(&mut deck, 0, 2);
    assert_eq!(deck, vec![card(4, H), card(3, H), card(2, H)]);
    swap_cards(&mut deck, 1, 1);
    assert_eq!(deck, vec![card(4, H), card(3, H), card(2, H)]);
}

#[test]
fn cards_are_dealt_from_the_end_of_the_deck() {
    let deck = standard_deck();
    let deal = deal_round(&deck, 3);
    // the deck ends ... 7d 8d 9d Td Jd Qd Kd Ad
    assert_eq!(deal.players.len(), 3);
    assert_eq!(deal.players[0], vec![card(11, D), card(14, D)]);
    assert_eq!(deal.players[1], vec![card(10, D), card(13, D)]);
    assert_eq!(deal.players[2], vec![card(9, D), card(12, D)]);
    assert_eq!(
        deal.community,
        vec![card(8, D), card(7, D), card(6, D), card(5, D), card(4, D)]
    );
    let one = deal_round(&deck, 1);
    assert_eq!(one.players, vec![vec![card(13, D), card(14, D)]]);
    assert_eq!(one.community[0], card(12, D));
}

#[test]
fn the_winner_and_the_street_of_the_lead_are_found() {
    let table = build_full_table();
    // seat 0 flops a set and is overtaken on the river by a flush
    let deal = Deal {
        players: vec![
            sorted(vec![card(9, S), card(9, C)]),
            sorted(vec![card(14, H), card(13, H)]),
            sorted(vec![card(2, S), card(7, C)]),
        ],
        community: vec![card(9, H), card(4, H), card(12, D), card(3, C), card(8, H)],
    };
    let outcome = resolve_round(&deal, &table);
    assert_eq!(outcome.winner, 1);
    assert_eq!(
        outcome.ranks,
        vec![HandRank::ThreeOfAKind, HandRank::Flush, HandRank::HighCard]
    );
    assert_eq!(outcome.locked, Street::River);
    let flop: Vec<Card> = deal.community[..3].to_vec();
    let lead = find_leader(&deal.players, &flop, &table);
    assert_eq!(lead.seat, 0);
    assert_eq!(lead.ranks, vec![HandRank::ThreeOfAKind, HandRank::HighCard, HandRank::HighCard]);

    // seat 2 leads from the flop on
    let deal = Deal {
        players: vec![
            sorted(vec![card(14, H), card(13, H)]),
            sorted(vec![card(2, S), card(7, C)]),
            sorted(vec![card(9, S), card(9, C)]),
        ],
        community: vec![card(9, H), card(4, H), card(12, D), card(3, C), card(8, D)],
    };
    let outcome = resolve_round(&deal, &table);
    assert_eq!(outcome.winner, 2);
    assert_eq!(outcome.locked, Street::Flop);

    // seat 0 takes the lead on the turn
    let deal = Deal {
        players: vec![
            sorted(vec![card(14, H), card(13, H)]),
            sorted(vec![card(9, S), card(9, C)]),
        ],
        community: vec![card(9, H), card(4, H), card(12, D), card(3, H), card(8, D)],
    };
    let outcome = resolve_round(&deal, &table);
    assert_eq!(outcome.winner, 0);
    assert_eq!(outcome.ranks, vec![HandRank::Flush, HandRank::ThreeOfAKind]);
    assert_eq!(outcome.locked, Street::Turn);
}

#[test]
fn rounds_are_counted_per_hole_pair() {
    let deal = Deal {
        players: vec![
            sorted(vec![card(14, H), card(13, H)]),
            sorted(vec![card(9, S), card(9, C)]),
        ],
        community: vec![card(9, H), card(4, H), card(12, D), card(3, H), card(8, D)],
    };
    let outcome =
        RoundOutcome { winner: 0, ranks: vec![HandRank::Flush, HandRank::ThreeOfAKind], locked: Street::Turn };
    let mut simulated = SimulatedHandTable::new();
    assert_eq!(simulated.lookup(&deal.players[0]), None);
    record_round(&mut simulated, &deal, &outcome);
    record_round(&mut simulated, &deal, &outcome);
    let lost = RoundOutcome { winner: 1, ranks: vec![HandRank::Pair, HandRank::FullHouse], locked: Street::Flop };
    record_round(&mut simulated, &deal, &lost);
    assert_eq!(simulated.recorded_games(), 6);
    let first = simulated.lookup(&deal.players[0]).unwrap();
    assert_eq!(first.games_played, 3);
    assert_eq!(first.games_won, 2);
    assert_eq!((first.locked_flop, first.locked_turn, first.locked_river), (0, 2, 0));
    assert_eq!(first.rank_counts.flush, 2);
    assert_eq!(first.rank_counts.pair, 1);
    assert_eq!(first.rank_counts.count(HandRank::Flush), 2);
    assert_eq!(first.rank_counts.count(HandRank::Straight), 0);
    let second = simulated.lookup(&deal.players[1]).unwrap();
    assert_eq!(second.games_played, 3);
    assert_eq!(second.games_won, 1);
    assert_eq!((second.locked_flop, second.locked_turn, second.locked_river), (1, 0, 0));
    assert_eq!(second.rank_counts.three_of_a_kind, 2);
    assert_eq!(second.rank_counts.full_house, 1);
    // a pair that was never dealt, and cards that are no sorted pair
    assert_eq!(simulated.lookup(&vec![card(2, H), card(3, H)]), None);
    assert_eq!(simulated.lookup(&vec![card(13, H), card(14, H), card(2, D)]), None);
    assert_eq!(simulated.lookup(&vec![card(14, H), card(13, H)]), None);
}

#[test]
fn one_game_is_counted_field_by_field() {
    let blank = SimulatedHand::blank();
    assert_eq!(blank.games_played, 0);
    let lost = blank.record_game(false, HandRank::HighCard, Street::Flop);
    assert_eq!(
        lost,
        SimulatedHand {
            games_won: 0,
            games_played: 1,
            rank_counts: RankHistogram {
                high_card: 1,
                pair: 0,
                two_pairs: 0,
                three_of_a_kind: 0,
                straight: 0,
                flush: 0,
                full_house: 0,
                four_of_a_kind: 0,
                straight_flush: 0,
                royal_flush: 0,
            },
            locked_flop: 0,
            locked_turn: 0,
            locked_river: 0,
        }
    );
    let won = lost.record_game(true, HandRank::RoyalFlush, Street::River);
    assert_eq!(won.games_won, 1);
    assert_eq!(won.games_played, 2);
    assert_eq!(won.locked_river, 1);
    assert_eq!(won.rank_counts.royal_flush, 1);
    assert_eq!(won.rank_counts.high_card, 1);
    let won = won.record_game(true, HandRank::TwoPairs, Street::Flop);
    assert_eq!((won.locked_flop, won.locked_turn, won.locked_river), (1, 0, 1));
}

#[test]
fn a_round_from_a_given_deck_is_played_the_same_way_each_time() {
    let table = build_full_table();
    let deck = standard_deck();
    let mut simulated = SimulatedHandTable::new();
    play_round(&mut simulated, &table, &deck, 3);
    play_round(&mut simulated, &table, &deck, 3);
    assert_eq!(simulated.recorded_games(), 6);
    // the board is 8d 7d 6d 5d 4d; seat 2 holds 9d Qd and makes the straight
    // flush to the nine on the turn, after seat 0 led the flop with the ace
    let third = simulated.lookup(&vec![card(9, D), card(12, D)]).unwrap();
    assert_eq!(third.games_won, 2);
    assert_eq!(third.rank_counts.straight_flush, 2);
    assert_eq!((third.locked_flop, third.locked_turn, third.locked_river), (0, 2, 0));
    let first = simulated.lookup(&vec![card(11, D), card(14, D)]).unwrap();
    assert_eq!(first.games_won, 0);
    assert_eq!(first.games_played, 2);
    assert_eq!(first.rank_counts.flush, 2);
}

#[test]
fn simulated_counts_are_consistent_and_repeat_with_the_seed() {
    let table = build_full_table();
    let deck = standard_deck();
    let mut first = SimulatedHandTable::new();
    simulate_game(3, 200, 4, &mut first, &table, &deck, 7);
    simulate_game(1, 100, 4, &mut first, &table, &deck, 8);
    assert_eq!(first.recorded_games(), (3 * 200 + 100) * 4);
    let mut second = SimulatedHandTable::new();
    simulate_game(3, 200, 4, &mut second, &table, &deck, 7);
    simulate_game(1, 100, 4, &mut second, &table, &deck, 8);
    let mut other = SimulatedHandTable::new();
    simulate_game(3, 200, 4, &mut other, &table, &deck, 9);
    let mut played = 0;
    let mut won = 0;
    let mut differs = false;
    let mut pairs = 0;
    for i in 0..deck.len() {
        for j in (i + 1)..deck.len() {
            let hole = sorted(vec![deck[i], deck[j]]);
            assert_eq!(first.lookup(&hole), second.lookup(&hole));
            differs = differs || first.lookup(&hole) != other.lookup(&hole);
            if let Some(entry) = first.lookup(&hole) {
                pairs += 1;
                assert!(entry.games_won <= entry.games_played);
                assert!(entry.games_played > 0);
                assert_eq!(entry.locked_flop + entry.locked_turn + entry.locked_river, entry.games_won);
                let h = entry.rank_counts;
                assert_eq!(
                    h.high_card
                        + h.pair
                        + h.two_pairs
                        + h.three_of_a_kind
                        + h.straight
                        + h.flush
                        + h.full_house
                        + h.four_of_a_kind
                        + h.straight_flush
                        + h.royal_flush,
                    entry.games_played
                );
                played += entry.games_played;
                won += entry.games_won;
            }
        }
    }
    assert_eq!(played, 2800);
    assert_eq!(won, 700);
    assert!(differs);
    // a shuffle that left the deck as it was would deal the same pairs every round
    assert!(pairs > 100);
}

#[test]
fn counts_are_restored_only_when_they_agree() {
    let mut table = SimulatedHandTable::with_records(10);
    assert_eq!(table.recorded_games(), 10);
    let hole = vec![card(13, H), card(14, H)];
    let counts = SimulatedHand::blank()
        .record_game(true, HandRank::Flush, Street::Turn)
        .record_game(false, HandRank::Pair, Street::Flop);
    assert!(table.restore(&hole, counts));
    assert_eq!(table.lookup(&hole), Some(counts));
    let mut wrong = counts;
    wrong.games_won = 3;
    assert!(!table.restore(&hole, wrong));
    let mut wrong = counts;
    wrong.locked_flop = 1;
    assert!(!table.restore(&hole, wrong));
    let mut wrong = counts;
    wrong.rank_counts.straight = 1;
    assert!(!table.restore(&hole, wrong));
    let mut wrong = counts;
    wrong.games_played = 1;
    assert!(!table.restore(&hole, wrong));
    assert!(!table.restore(&vec![card(14, H), card(13, H)], counts));
    // more rounds than were recorded
    let mut small = SimulatedHandTable::with_records(1);
    assert!(!small.restore(&hole, counts));
    assert_eq!(small.lookup(&hole), None);
    assert_eq!(table.lookup(&hole), Some(counts));
}

#[test]
fn shuffling_keeps_the_cards_and_follows_the_generator() {
    let deck = standard_deck();
    let mut first = deck.clone();
    let mut rng = <rand_chacha::ChaCha20Rng as rand::SeedableRng>::seed_from_u64(21);
    shuffle_deck(&mut first, &mut rng);
    assert_ne!(first, deck);
    assert_eq!(sorted(first.clone()), sorted(deck.clone()));
    // the same stream of numbers gives the same deck
    let mut second = deck.clone();
    let mut rng = <rand_chacha::ChaCha20Rng as rand::SeedableRng>::seed_from_u64(21);
    shuffle_deck(&mut second, &mut rng);
    assert_eq!(first, second);
    // and the deck is the one that the exchanges make, place by place
    let mut by_hand = deck.clone();
    let mut rng = <rand_chacha::ChaCha20Rng as rand::SeedableRng>::seed_from_u64(21);
    for place in 0..by_hand.len() {
        let drawn = (rand::RngCore::next_u32(&mut rng) % 52) as usize;
        swap_cards(&mut by_hand, drawn, place);
    }
    assert_eq!(first, by_hand);
    // a deck of one card stays as it is
    let mut one = vec![card(2, H)];
    shuffle_deck(&mut one, &mut rng);
    assert_eq!(one, vec![card(2, H)]);
}

#[test]
fn no_rounds_leave_the_counts_as_they_were() {
    let table = build_full_table();
    let deck = standard_deck();
    let mut simulated = SimulatedHandTable::new();
    simulate_game(1, 50, 3, &mut simulated, &table, &deck, 4);
    let pairs: Vec<Vec<Card>> = (0..deck.len())
        .flat_map(|i| ((i + 1)..deck.len()).map(move |j| (i, j)))
        .map(|(i, j)| sorted(vec![deck[i], deck[j]]))
        .collect();
    let before: Vec<Option<SimulatedHand>> = pairs.iter().map(|p| simulated.lookup(p)).collect();
    simulate_game(0, 1000, 3, &mut simulated, &table, &deck, 5);
    simulate_game(1000, 0, 3, &mut simulated, &table, &deck, 6);
    let after: Vec<Option<SimulatedHand>> = pairs.iter().map(|p| simulated.lookup(p)).collect();
    assert_eq!(before, after);
    assert_eq!(simulated.recorded_games(), 150);
    // one more round adds one round played for each player and one win
    let played = |t: &SimulatedHandTable| -> (u64, u64) {
        pairs.iter().filter_map(|p| t.lookup(p)).fold((0, 0), |(p, w), e| {
            (p + e.games_played, w + e.games_won)
        })
    };
    assert_eq!(played(&simulated), (150, 50));
    play_round(&mut simulated, &table, &deck, 3);
    assert_eq!(played(&simulated), (153, 51));
}
