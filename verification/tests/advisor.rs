use poker_ev::advisor::{
    calculcate_hand_ev, draws_for, preflop_advice, rank_for_level, wagers_for, Advice, AdviceError,
    Draw, Wager, Wagers,
};
use poker_ev::card::{standard_deck, Card, CardSuit};
use poker_ev::estimator::{
    estimate_opponent_range_and_equity, expected_value, get_hand_equity_and_opponent_range,
    half_pot_value, Amount, Ratio,
};
use poker_ev::position::TablePosition;
use poker_ev::rank::{HandRank, RankHistogram};
use poker_ev::simulator::{
    record_round, simulate_game, Deal, RoundOutcome, SimulatedHandTable, Street,
};
use poker_ev::starting::{build_starting_hand_table, starting_hand_entry};
use poker_ev::training::{generate_ml_round, ml_header, ml_records, Fraction, RecordError, Stage};
use poker_ev::universe::build_full_table;
use rand_chacha::ChaCha20Rng;

fn card(rank: u8, suit: CardSuit) -> Card {
    Card { rank, suit }
}

const H: CardSuit = CardSuit::Heart;
const S: CardSuit = CardSuit::Spade;
const C: CardSuit = CardSuit::Club;
const D: CardSuit = CardSuit::Diamond;

fn no_outs() -> RankHistogram {
    RankHistogram {
        high_card: 0,
        pair: 0,
        two_pairs: 0,
        three_of_a_kind: 0,
        straight: 0,
        flush: 0,
        full_house: 0,
        four_of_a_kind: 0,
        straight_flush: 0,
        royal_flush: 0,
    }
}

#[test]
fn two_bets_are_weighed() {
    let half = Ratio { num: 1, den: 2 };
    let Wagers { first: call, second: raise } = wagers_for(1000, 200, half);
    assert_eq!(call, Wager { bet: 200, value: Amount { numerator: 600, denominator: 2 } });
    assert_eq!(raise, Wager { bet: 400, value: Amount { numerator: 200, denominator: 2 } });
    // nothing to call: one dollar and two dollars
    let Wagers { first: small, second: big } = wagers_for(1000, 0, half);
    assert_eq!(small, Wager { bet: 100, value: Amount { numerator: 800, denominator: 2 } });
    assert_eq!(big, Wager { bet: 200, value: Amount { numerator: 600, denominator: 2 } });
    assert_eq!(small.value, expected_value(1000, 100, half));
}

#[test]
fn draws_are_listed_weakest_first() {
    let mut outs = no_outs();
    outs.flush = 9;
    outs.pair = 6;
    let draws = draws_for(&outs, 45, 1000, 200);
    assert_eq!(
        draws,
        vec![
            Draw {
                rank: HandRank::Pair,
                chance: Ratio { num: 6, den: 45 },
                value: Amount { numerator: 1000 * 6 - 200 * 45, denominator: 45 },
            },
            Draw {
                rank: HandRank::Flush,
                chance: Ratio { num: 9, den: 45 },
                value: Amount { numerator: 1000 * 9 - 200 * 45, denominator: 45 },
            },
        ]
    );
    // nothing to call: the draw is weighed against a bet of half the pot
    let draws = draws_for(&outs, 45, 1001, 0);
    assert_eq!(draws.len(), 2);
    assert_eq!(draws[1].value, Amount { numerator: 2 * 1001 * 9 - 1001 * 45, denominator: 90 });
    assert_eq!(draws[1].value, half_pot_value(1001, Ratio { num: 9, den: 45 }));
    assert!(draws_for(&no_outs(), 45, 1000, 200).is_empty());
    for level in 1..=10u8 {
        assert_eq!(rank_for_level(level).number(), level);
    }
}

#[test]
fn advice_before_and_after_the_flop() {
    let table = build_full_table();
    let deck = standard_deck();
    let hole = vec![card(14, H), card(13, H)];
    let starting = build_starting_hand_table(&hole, &table).unwrap();
    let none = Ratio { num: 0, den: 1 };

    // before the flop; the cards may come in any order
    let advice =
        calculcate_hand_ev(&hole, 150, 50, TablePosition::Early, &deck, &starting, &table, none);
    let sorted = vec![card(13, H), card(14, H)];
    match advice {
        Ok(Advice::Preflop(given)) => {
            assert!(given.playable);
            assert_eq!(Some(given.equity), starting_hand_entry(&sorted, &table));
            assert_eq!(Ok(given), preflop_advice(&hole, TablePosition::Early, &starting));
        }
        other => panic!("unexpected advice: {:?}", other),
    }
    let weak = vec![card(7, H), card(2, S)];
    let weak_table = build_starting_hand_table(&weak, &table).unwrap();
    match calculcate_hand_ev(&weak, 150, 50, TablePosition::SB, &deck, &weak_table, &table, none) {
        Ok(Advice::Preflop(given)) => assert!(!given.playable),
        other => panic!("unexpected advice: {:?}", other),
    }
    assert_eq!(
        calculcate_hand_ev(&weak, 150, 50, TablePosition::SB, &deck, &starting, &table, none).err(),
        Some(AdviceError::UnknownStartingHand)
    );

    // on the flop, with something to call
    let cards = vec![card(13, H), card(14, H), card(2, H), card(7, H), card(9, C)];
    let advice =
        calculcate_hand_ev(&cards, 1000, 200, TablePosition::Late, &deck, &starting, &table, none);
    let given = match advice {
        Ok(Advice::Postflop(given)) => given,
        other => panic!("unexpected advice: {:?}", other),
    };
    let estimate = get_hand_equity_and_opponent_range(
        &cards[..2].to_vec(),
        &cards[2..].to_vec(),
        &table,
        &starting,
        &deck,
        none,
    );
    assert_eq!(given.estimate, estimate);
    assert_eq!(
        Ok(estimate),
        estimate_opponent_range_and_equity(
            &cards[..2].to_vec(),
            &cards[2..].to_vec(),
            &table,
            &starting,
            &deck,
            none
        )
    );
    assert_eq!(given.cards_left, 45);
    assert_eq!(given.first.bet, 200);
    assert_eq!(given.second.bet, 400);
    assert_eq!(given.first.value, expected_value(1000, 200, estimate.relative_equity));
    assert_eq!(given.second.value, expected_value(1000, 400, estimate.relative_equity));
    assert_eq!(given.draws, draws_for(&estimate.outs, 45, 1000, 200));
    assert_eq!(given.draws.len(), 2);
    assert_eq!(given.draws[0].rank, HandRank::Pair);
    assert_eq!(given.draws[0].chance, Ratio { num: 6, den: 45 });
    assert_eq!(given.draws[1].rank, HandRank::Flush);
    assert_eq!(given.draws[1].chance, Ratio { num: 9, den: 45 });

    // on the river nothing is drawn to, and with nothing to call two raises are weighed
    let cards = vec![
        card(13, H),
        card(14, H),
        card(2, H),
        card(7, H),
        card(9, C),
        card(3, S),
        card(4, H),
    ];
    match calculcate_hand_ev(&cards, 1000, 0, TablePosition::Late, &deck, &starting, &table, none) {
        Ok(Advice::Postflop(given)) => {
            assert_eq!(given.estimate.rank, HandRank::Flush);
            assert_eq!(given.cards_left, 43);
            assert!(given.draws.is_empty());
            assert_eq!(given.first.bet, 100);
            assert_eq!(given.second.bet, 200);
            // only a better flush or a straight flush stands above the nut flush
            assert!(given.estimate.relative_equity.num * 10 > given.estimate.relative_equity.den * 9);
        }
        other => panic!("unexpected advice: {:?}", other),
    }
}

#[test]
fn faulty_card_lists_get_no_advice() {
    let table = build_full_table();
    let deck = standard_deck();
    let starting = build_starting_hand_table(&vec![], &table).unwrap();
    let none = Ratio { num: 0, den: 1 };
    let fault = |cards: Vec<Card>| {
        calculcate_hand_ev(&cards, 100, 0, TablePosition::Mid, &deck, &starting, &table, none).err()
    };
    assert_eq!(fault(vec![]), Some(AdviceError::NotEnoughCards));
    assert_eq!(fault(vec![card(2, H)]), Some(AdviceError::NotEnoughCards));
    assert_eq!(fault(vec![card(2, H), card(3, H), card(4, H)]), Some(AdviceError::NotEnoughCards));
    assert_eq!(
        fault(vec![card(2, H), card(3, H), card(4, H), card(5, H)]),
        Some(AdviceError::NotEnoughCards)
    );
    assert_eq!(
        fault(vec![card(2, H), card(2, H)]),
        Some(AdviceError::DuplicateCards { card: card(2, H) })
    );
    assert_eq!(
        fault(vec![card(2, H), card(3, H), card(3, H), card(5, H), card(2, H)]),
        Some(AdviceError::DuplicateCards { card: card(2, H) })
    );
    assert_eq!(
        fault((2..=9).map(|r| card(r, H)).collect()),
        Some(AdviceError::TooManyCards)
    );
    assert_eq!(
        fault(vec![card(2, H), card(3, H), card(4, H), card(5, H), card(15, H)]),
        Some(AdviceError::InvalidCard)
    );
    assert_eq!(fault(vec![card(2, H), card(3, H)]), Some(AdviceError::UnknownStartingHand));
}

#[test]
fn a_threshold_narrows_the_range() {
    let table = build_full_table();
    // a deck of nine cards: the player's five and four unseen ones
    let deck = vec![
        card(13, H),
        card(14, H),
        card(2, H),
        card(7, H),
        card(9, C),
        card(14, S),
        card(14, C),
        card(2, D),
        card(3, S),
    ];
    let unseen = deck[5..].to_vec();
    let starting = build_starting_hand_table(&unseen, &table).unwrap();
    assert_eq!(starting.len(), 6);
    let hole = deck[..2].to_vec();
    let flop = deck[2..5].to_vec();
    let all = get_hand_equity_and_opponent_range(
        &hole,
        &flop,
        &table,
        &starting,
        &deck,
        Ratio { num: 0, den: 1 },
    );
    assert_eq!(all.range_size, 6);
    // a threshold that nothing reaches
    let nothing = get_hand_equity_and_opponent_range(
        &hole,
        &flop,
        &table,
        &starting,
        &deck,
        Ratio { num: 1, den: 1 },
    );
    assert_eq!(nothing.range_size, 0);
    assert_eq!(nothing.relative_equity, Ratio { num: 0, den: 1 });
    assert_eq!(nothing.range, no_outs());
    // a threshold between the mean of the aces and the mean of the weakest pair
    let mean = |a: Card, b: Card| {
        let mut hole = vec![a, b];
        hole.sort();
        let e = starting.lookup(&hole).unwrap();
        e.position_sum as f64 / (e.hands as f64 * starting.listed_hands() as f64)
    };
    let aces = mean(card(14, S), card(14, C));
    let weakest = mean(card(2, D), card(3, S));
    assert!(weakest < aces);
    let between = ((aces + weakest) / 2.0 * 1000.0) as u32;
    let some = get_hand_equity_and_opponent_range(
        &hole,
        &flop,
        &table,
        &starting,
        &deck,
        Ratio { num: between, den: 1000 },
    );
    assert!(some.range_size >= 1 && some.range_size < 6);
    let expected = (5..9)
        .flat_map(|i| ((i + 1)..9).map(move |j| (i, j)))
        .filter(|&(i, j)| mean(deck[i], deck[j]) * 1000.0 >= between as f64)
        .count();
    assert_eq!(some.range_size as usize, expected);
    // with an empty starting-hand table no pair is plausible once a threshold is set
    let empty = build_starting_hand_table(&vec![], &table).unwrap();
    let unknown = get_hand_equity_and_opponent_range(
        &hole,
        &flop,
        &table,
        &empty,
        &deck,
        Ratio { num: 1, den: 1000 },
    );
    assert_eq!(unknown.range_size, 0);
}

#[test]
fn records_are_made_for_four_stages() {
    let table = build_full_table();
    let deck = standard_deck();
    let hole = vec![card(13, H), card(14, H)];
    let community = vec![card(2, H), card(7, H), card(9, C), card(3, S), card(4, H)];
    let starting = build_starting_hand_table(&hole, &table).unwrap();
    let none = Ratio { num: 0, den: 1 };
    let mut simulated = SimulatedHandTable::new();
    assert_eq!(
        ml_records(&hole, &community, true, &simulated, &starting, &table, &deck, none).err(),
        Some(RecordError::NotSimulated)
    );
    let deal = Deal {
        players: vec![hole.clone(), vec![card(5, D), card(6, D)]],
        community: community.clone(),
    };
    let outcome =
        RoundOutcome { winner: 0, ranks: vec![HandRank::Flush, HandRank::Straight], locked: Street::River };
    record_round(&mut simulated, &deal, &outcome);
    assert_eq!(
        ml_records(&deal.players[1], &community, false, &simulated, &starting, &table, &deck, none).err(),
        Some(RecordError::UnknownStartingHand)
    );
    let records =
        ml_records(&hole, &community, true, &simulated, &starting, &table, &deck, none).unwrap();
    assert_eq!(records.len(), 4);
    let stages = [Stage::Preflop, Stage::Flop, Stage::Turn, Stage::River];
    let shown = [0, 3, 4, 5];
    let entry = starting.lookup(&hole).unwrap();
    for i in 0..4 {
        assert_eq!(records[i].stage, stages[i]);
        assert_eq!(records[i].hole, hole);
        assert_eq!(records[i].board, community[..shown[i]].to_vec());
        assert_eq!(Some(records[i].counts), simulated.lookup(&hole));
        assert!(records[i].did_win);
        if i == 0 {
            assert_eq!(
                records[i].hand_equity,
                Fraction {
                    num: entry.position_sum,
                    den: entry.hands as u64 * starting.listed_hands() as u64
                }
            );
        } else {
            let estimate = get_hand_equity_and_opponent_range(
                &hole,
                &records[i].board,
                &table,
                &starting,
                &deck,
                none,
            );
            assert_eq!(
                records[i].hand_equity,
                Fraction {
                    num: estimate.relative_equity.num as u64,
                    den: estimate.relative_equity.den as u64
                }
            );
        }
    }
    assert_eq!(Stage::Preflop.label(), "PREFLOP");
    assert_eq!(Stage::Flop.label(), "FLOP");
    assert_eq!(Stage::Turn.label(), "TURN");
    assert_eq!(Stage::River.label(), "RIVER");
    assert_eq!(
        ml_header(),
        vec![
            "state",
            "hand1",
            "hand2",
            "flop1",
            "flop2",
            "flop3",
            "turn",
            "river",
            "win_chance",
            "won_on_flop",
            "won_on_turn",
            "won_on_river",
            "hand_equity",
            "did_win"
        ]
    );
}

#[test]
fn a_training_round_needs_its_pair_in_both_tables() {
    let table = build_full_table();
    let deck = standard_deck();
    let starting = build_starting_hand_table(&vec![], &table).unwrap();
    let simulated = SimulatedHandTable::new();
    let mut rng = <ChaCha20Rng as rand::SeedableRng>::seed_from_u64(5);
    let none = Ratio { num: 0, den: 1 };
    assert_eq!(
        generate_ml_round(6, &mut rng, &simulated, &starting, &table, &deck, none).err(),
        Some(RecordError::NotSimulated)
    );
}

#[test]
fn a_training_round_follows_one_player_through_the_streets() {
    let table = build_full_table();
    // nine cards: just enough for two players and a board
    let deck = vec![
        card(2, H),
        card(3, S),
        card(5, C),
        card(8, D),
        card(9, H),
        card(13, D),
        card(14, D),
        card(14, S),
        card(9, C),
    ];
    let starting = build_starting_hand_table(&deck, &table).unwrap();
    let mut simulated = SimulatedHandTable::new();
    simulate_game(1, 400, 2, &mut simulated, &table, &deck, 3);
    for i in 0..deck.len() {
        for j in (i + 1)..deck.len() {
            let mut hole = vec![deck[i], deck[j]];
            hole.sort();
            assert!(simulated.lookup(&hole).is_some());
        }
    }
    let none = Ratio { num: 0, den: 1 };
    let mut rng = <ChaCha20Rng as rand::SeedableRng>::seed_from_u64(11);
    let mut holes = Vec::new();
    for _ in 0..20 {
        let records =
            generate_ml_round(2, &mut rng, &simulated, &starting, &table, &deck, none).unwrap();
        assert_eq!(records.len(), 4);
        let hole = records[0].hole.clone();
        let board = records[3].board.clone();
        assert_eq!(board.len(), 5);
        assert!(hole.iter().chain(board.iter()).all(|c| deck.contains(c)));
        let again = ml_records(
            &hole,
            &board,
            records[0].did_win,
            &simulated,
            &starting,
            &table,
            &deck,
            none,
        )
        .unwrap();
        // all nine cards are dealt: the other player holds the two that are left
        let other: Vec<Card> = {
            let mut rest: Vec<Card> =
                deck.iter().filter(|c| !hole.contains(c) && !board.contains(c)).copied().collect();
            rest.sort();
            rest
        };
        assert_eq!(other.len(), 2);
        let mine = poker_ev::selector::evaluate_best_hand(&hole, &board, &table);
        let theirs = poker_ev::selector::evaluate_best_hand(&other, &board, &table);
        assert_ne!(mine.position, theirs.position);
        assert_eq!(records[0].did_win, mine.position > theirs.position);
        for k in 0..4 {
            assert_eq!(records[k].stage, again[k].stage);
            assert_eq!(records[k].hole, again[k].hole);
            assert_eq!(records[k].board, again[k].board);
            assert_eq!(records[k].counts, again[k].counts);
            assert_eq!(records[k].hand_equity, again[k].hand_equity);
            assert_eq!(records[k].did_win, again[k].did_win);
        }
        holes.push(hole);
    }
    holes.sort();
    holes.dedup();
    assert!(holes.len() > 5);
}
