use poker_ev::card::{Card, CardSuit};
use poker_ev::evaluator::HandData;
use poker_ev::starting::{
    build_starting_hand_table, StartingHandTable, find_possible_hands_in_all_combinations,
    find_possible_hands_in_all_combinations_no_ref, starting_hand_entry, StartingEquity,
    StartingTableError,
};
use poker_ev::table::build_combination_table;
use poker_ev::universe::build_full_table;

fn card(rank: u8, suit: CardSuit) -> Card {
    Card { rank, suit }
}

const H: CardSuit = CardSuit::Heart;
const S: CardSuit = CardSuit::Spade;
const C: CardSuit = CardSuit::Club;
const D: CardSuit = CardSuit::Diamond;

fn entry(cards: [(u8, CardSuit); 5], value: u32) -> HandData {
    HandData { cards: cards.iter().map(|&(r, s)| card(r, s)).collect(), value }
}

// positions 0..5: two high cards, a pair of aces, two pairs, three aces, a flush
fn small_table() -> poker_ev::table::CombinationTable {
    let base = vec![
        entry([(14, H), (13, H), (2, S), (3, C), (5, D)], 50_000_000),
        entry([(14, H), (13, H), (2, S), (3, C), (6, D)], 51_000_000),
        entry([(14, H), (13, H), (14, S), (3, C), (6, D)], 150_000_000),
        entry([(14, H), (13, H), (3, S), (3, C), (13, D)], 250_000_000),
        entry([(14, H), (13, H), (14, S), (14, C), (6, D)], 350_000_000),
        entry([(14, H), (13, H), (2, H), (3, H), (6, H)], 550_000_000),
        // a hand without the king of hearts
        entry([(14, H), (12, H), (2, H), (3, H), (6, H)], 551_000_000),
    ];
    build_combination_table(&base).unwrap()
}

#[test]
fn hands_with_both_hole_cards_are_found() {
    let table = small_table();
    let hole = vec![card(13, H), card(14, H)];
    let found = find_possible_hands_in_all_combinations_no_ref(&hole, &table);
    assert_eq!(found.len(), 6);
    for hand in &found {
        assert!(hand.contains(&hole[0]) && hand.contains(&hole[1]));
        assert!(table.lookup(hand).is_some());
        assert!(hand.windows(2).all(|w| w[0] < w[1]));
    }
    let mut unique = found.clone();
    unique.sort();
    unique.dedup();
    assert_eq!(unique.len(), 6);
    let refs: Vec<&Card> = hole.iter().collect();
    assert_eq!(find_possible_hands_in_all_combinations(&refs, &table), found);
    let other = vec![card(12, H), card(14, H)];
    let found = find_possible_hands_in_all_combinations_no_ref(&other, &table);
    assert_eq!(
        found,
        vec![vec![card(2, H), card(3, H), card(6, H), card(12, H), card(14, H)]]
    );
    let none = vec![card(2, D), card(14, H)];
    assert!(find_possible_hands_in_all_combinations_no_ref(&none, &table).is_empty());
}

#[test]
fn an_entry_sums_the_places_of_the_hands_that_count() {
    let table = small_table();
    let hole = vec![card(13, H), card(14, H)];
    // the two pairs at place 3 are made with one hole card and a pair of threes: left out
    // the three aces at place 4 have two matches with the ace in the hole: counted
    let entry = starting_hand_entry(&hole, &table).unwrap();
    assert_eq!(
        entry,
        StartingEquity { min_position: 0, max_position: 5, position_sum: 0 + 1 + 2 + 4 + 5, hands: 5 }
    );
    assert!(entry.min_position as u64 * entry.hands as u64 <= entry.position_sum);
    assert!(entry.position_sum <= entry.max_position as u64 * entry.hands as u64);
    assert_eq!(starting_hand_entry(&vec![card(2, D), card(14, H)], &table), None);
}

#[test]
fn the_table_holds_every_pair_of_the_deck() {
    let table = small_table();
    let deck = vec![card(14, H), card(13, H)];
    let starting = build_starting_hand_table(&deck, &table).unwrap();
    assert_eq!(starting.len(), 1);
    assert_eq!(starting.listed_hands(), 7);
    let hole = vec![card(13, H), card(14, H)];
    assert_eq!(starting.lookup(&hole), starting_hand_entry(&hole, &table));
    assert_eq!(starting.lookup(&vec![card(14, H), card(13, H)]), None);
    assert_eq!(starting.lookup(&vec![card(12, H), card(14, H)]), None);

    let deck = vec![card(14, H), card(12, H), card(13, H)];
    // in the order of the deck: (Ah, Qh) has the flush, (Ah, Kh) is known, (Qh, Kh) has no hand
    assert_eq!(
        build_starting_hand_table(&deck, &table).err(),
        Some(StartingTableError::NoQualifyingHand { first: 1, second: 2 })
    );
    let deck = vec![card(2, D), card(14, H)];
    assert_eq!(
        build_starting_hand_table(&deck, &table).err(),
        Some(StartingTableError::NoQualifyingHand { first: 0, second: 1 })
    );
    assert_eq!(build_starting_hand_table(&vec![], &table).unwrap().len(), 0);
}

#[test]
fn every_entry_of_a_real_table_has_its_mean_between_the_ends() {
    let table = build_full_table();
    let deck = vec![card(14, H), card(14, S), card(2, C), card(7, D), card(10, H), card(11, H)];
    let starting = build_starting_hand_table(&deck, &table).unwrap();
    assert_eq!(starting.len(), 15);
    let mut means: Vec<(f64, Vec<Card>)> = Vec::new();
    for i in 0..deck.len() {
        for j in (i + 1)..deck.len() {
            let mut hole = vec![deck[i], deck[j]];
            hole.sort();
            let entry = starting.lookup(&hole).unwrap();
            assert!(entry.hands > 0 && entry.hands <= 19600);
            assert!(entry.min_position <= entry.max_position);
            assert!(entry.max_position < starting.listed_hands());
            assert!(entry.min_position as u64 * entry.hands as u64 <= entry.position_sum);
            assert!(entry.position_sum <= entry.max_position as u64 * entry.hands as u64);
            means.push((entry.position_sum as f64 / entry.hands as f64, hole));
        }
    }
    means.sort_by(|a, b| a.0.partial_cmp(&b.0).unwrap());
    // the pair of aces has the highest mean
    assert_eq!(means.last().unwrap().1, vec![card(14, H), card(14, S)]);
}

#[test]
fn entries_are_stored_only_when_they_are_sound() {
    let mut table = StartingHandTable::empty(100);
    assert_eq!(table.len(), 0);
    assert_eq!(table.listed_hands(), 100);
    let hole = vec![card(13, H), card(14, H)];
    let sound = StartingEquity { min_position: 10, max_position: 90, position_sum: 150, hands: 3 };
    assert!(table.insert(&hole, sound));
    assert_eq!(table.lookup(&hole), Some(sound));
    assert_eq!(table.len(), 1);
    // a later entry takes the place of the first
    let other = StartingEquity { min_position: 5, max_position: 5, position_sum: 5, hands: 1 };
    assert!(table.insert(&hole, other));
    assert_eq!(table.lookup(&hole), Some(other));
    assert_eq!(table.len(), 1);
    let refused = [
        // no hands
        StartingEquity { min_position: 0, max_position: 0, position_sum: 0, hands: 0 },
        // the ends in the wrong order
        StartingEquity { min_position: 9, max_position: 8, position_sum: 9, hands: 1 },
        // the mean below the lowest place
        StartingEquity { min_position: 10, max_position: 90, position_sum: 29, hands: 3 },
        // the mean above the highest place
        StartingEquity { min_position: 10, max_position: 90, position_sum: 271, hands: 3 },
        // a place that is not below the number of listed hands
        StartingEquity { min_position: 10, max_position: 100, position_sum: 150, hands: 3 },
    ];
    for entry in refused {
        assert!(!table.insert(&hole, entry));
        assert_eq!(table.lookup(&hole), Some(other));
    }
    // cards that are no sorted hole pair
    assert!(!table.insert(&vec![card(14, H), card(13, H)], sound));
    assert!(!table.insert(&vec![card(14, H), card(14, H)], sound));
    assert!(!table.insert(&vec![card(14, H)], sound));
    assert!(!table.insert(&vec![card(1, H), card(14, H)], sound));
    assert_eq!(table.len(), 1);
}
