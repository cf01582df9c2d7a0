use poker_ev::card::{convert_card_to_int, standard_deck, Card, CardSuit};
use poker_ev::hand::{
    find_common_cards_in_pack, find_common_cards_in_pack_no_ref, find_duplicate_card,
    has_duplicate_cards,
    is_sorted_hand, key_of_hand, key_of_pair, normalize_hand, remove_cards, sort_cards,
};
use poker_ev::notation::{parse_card, ParseError};
use poker_ev::reading::{conv_string_to_cards, CardListError};

fn card(rank: u8, suit: CardSuit) -> Card {
    Card { rank, suit }
}

const SUITS: [CardSuit; 4] = [CardSuit::Heart, CardSuit::Spade, CardSuit::Club, CardSuit::Diamond];

#[test]
fn deck_has_fifty_two_cards_in_fixed_order() {
    let deck = standard_deck();
    assert_eq!(deck.len(), 52);
    assert_eq!(deck[0], card(2, CardSuit::Club));
    assert_eq!(deck[12], card(14, CardSuit::Club));
    assert_eq!(deck[13], card(2, CardSuit::Heart));
    assert_eq!(deck[26], card(2, CardSuit::Spade));
    assert_eq!(deck[39], card(2, CardSuit::Diamond));
    assert_eq!(deck[51], card(14, CardSuit::Diamond));
    assert!(!has_duplicate_cards(&deck));
    assert!(deck.iter().all(|c| c.is_valid()));
}

#[test]
fn deck_matches_its_written_form() {
    let written = "2c 3c 4c 5c 6c 7c 8c 9c Tc Jc Qc Kc Ac 2h 3h 4h 5h 6h 7h 8h 9h Th Jh Qh Kh Ah \
                   2s 3s 4s 5s 6s 7s 8s 9s Ts Js Qs Ks As 2d 3d 4d 5d 6d 7d 8d 9d Td Jd Qd Kd Ad";
    assert_eq!(conv_string_to_cards(written), Ok(standard_deck()));
}

#[test]
fn card_numbers_run_suit_by_suit() {
    assert_eq!(convert_card_to_int(&card(2, CardSuit::Heart)), 1);
    assert_eq!(convert_card_to_int(&card(14, CardSuit::Heart)), 13);
    assert_eq!(convert_card_to_int(&card(2, CardSuit::Spade)), 14);
    assert_eq!(convert_card_to_int(&card(14, CardSuit::Spade)), 26);
    assert_eq!(convert_card_to_int(&card(2, CardSuit::Club)), 27);
    assert_eq!(convert_card_to_int(&card(2, CardSuit::Diamond)), 40);
    assert_eq!(convert_card_to_int(&card(14, CardSuit::Diamond)), 52);
}

#[test]
fn cards_are_ordered_by_rank_then_suit() {
    assert!(card(2, CardSuit::Diamond).lt(&card(3, CardSuit::Heart)));
    assert!(card(9, CardSuit::Heart).lt(&card(9, CardSuit::Spade)));
    assert!(card(9, CardSuit::Spade).lt(&card(9, CardSuit::Club)));
    assert!(card(9, CardSuit::Club).lt(&card(9, CardSuit::Diamond)));
    assert!(!card(9, CardSuit::Club).lt(&card(9, CardSuit::Club)));
    assert!(!card(10, CardSuit::Heart).lt(&card(9, CardSuit::Diamond)));
    // the derived order agrees
    assert!(card(9, CardSuit::Spade) < card(9, CardSuit::Club));
    assert!(card(2, CardSuit::Diamond) < card(3, CardSuit::Heart));
    assert_eq!(card(2, CardSuit::Heart).index(), 0);
    assert_eq!(card(14, CardSuit::Diamond).index(), 51);
    for i in 0..52u8 {
        assert_eq!(Card::from_index(i).index(), i);
    }
}

#[test]
fn written_cards_read_back_for_all_fifty_two() {
    let mut seen = 0;
    for rank in 2..=14u8 {
        for suit in SUITS {
            let c = card(rank, suit);
            let text = c.notation();
            assert_eq!(text.chars().count(), 2);
            assert_eq!(parse_card(&text), Ok(c));
            seen += 1;
        }
    }
    assert_eq!(seen, 52);
    assert_eq!(card(14, CardSuit::Heart).notation(), "Ah");
    assert_eq!(card(10, CardSuit::Spade).notation(), "Ts");
    assert_eq!(card(2, CardSuit::Club).notation(), "2c");
    assert_eq!(card(13, CardSuit::Diamond).notation(), "Kd");
}

#[test]
fn both_notations_are_read() {
    assert_eq!(parse_card("H14"), Ok(card(14, CardSuit::Heart)));
    assert_eq!(parse_card("H10"), Ok(card(10, CardSuit::Heart)));
    assert_eq!(parse_card("S2"), Ok(card(2, CardSuit::Spade)));
    assert_eq!(parse_card("C8"), Ok(card(8, CardSuit::Club)));
    assert_eq!(parse_card("D12"), Ok(card(12, CardSuit::Diamond)));
    assert_eq!(parse_card("Ah"), Ok(card(14, CardSuit::Heart)));
    assert_eq!(parse_card("AH"), Ok(card(14, CardSuit::Heart)));
    assert_eq!(parse_card("10h"), Ok(card(10, CardSuit::Heart)));
    assert_eq!(parse_card("Th"), Ok(card(10, CardSuit::Heart)));
    assert_eq!(parse_card("Jd"), Ok(card(11, CardSuit::Diamond)));
    assert_eq!(parse_card("Qc"), Ok(card(12, CardSuit::Club)));
    assert_eq!(parse_card("Ks"), Ok(card(13, CardSuit::Spade)));
    assert_eq!(parse_card("9S"), Ok(card(9, CardSuit::Spade)));
}

#[test]
fn malformed_cards_are_refused_with_a_reason() {
    assert_eq!(parse_card(""), Err(ParseError::TooShort));
    assert_eq!(parse_card("A"), Err(ParseError::TooShort));
    assert_eq!(parse_card("H"), Err(ParseError::TooShort));
    assert_eq!(parse_card("1h"), Err(ParseError::UnknownRank));
    assert_eq!(parse_card("11h"), Err(ParseError::UnknownRank));
    assert_eq!(parse_card("ah"), Err(ParseError::UnknownRank));
    assert_eq!(parse_card("Xh"), Err(ParseError::UnknownRank));
    assert_eq!(parse_card("H15"), Err(ParseError::UnknownRank));
    assert_eq!(parse_card("H1"), Err(ParseError::UnknownRank));
    assert_eq!(parse_card("H014"), Err(ParseError::UnknownRank));
    assert_eq!(parse_card("HA"), Err(ParseError::UnknownRank));
    assert_eq!(parse_card("Ax"), Err(ParseError::UnknownSuit));
    assert_eq!(parse_card("10x"), Err(ParseError::UnknownSuit));
    // a small suit letter does not start the suit-first notation
    assert_eq!(parse_card("h14"), Err(ParseError::UnknownRank));
    assert_eq!(parse_card("Aé"), Err(ParseError::UnknownSuit));
}

#[test]
fn card_lists_pass_over_fillers() {
    assert_eq!(
        conv_string_to_cards("C8 H5 H7 D12 D6"),
        Ok(vec![
            card(8, CardSuit::Club),
            card(5, CardSuit::Heart),
            card(7, CardSuit::Heart),
            card(12, CardSuit::Diamond),
            card(6, CardSuit::Diamond),
        ])
    );
    assert_eq!(
        conv_string_to_cards("Ah Empty Kd Dealer"),
        Ok(vec![card(14, CardSuit::Heart), card(13, CardSuit::Diamond)])
    );
    assert_eq!(conv_string_to_cards("Empty"), Ok(vec![]));
    assert_eq!(
        conv_string_to_cards("Ah Zz Kd"),
        Err(CardListError { token: 1, error: ParseError::UnknownRank })
    );
    // two spaces in a row leave an empty token between them
    assert_eq!(
        conv_string_to_cards("Ah  Kd"),
        Err(CardListError { token: 1, error: ParseError::TooShort })
    );
    assert_eq!(
        conv_string_to_cards(""),
        Err(CardListError { token: 0, error: ParseError::TooShort })
    );
    // fillers are told by their exact spelling
    assert_eq!(
        conv_string_to_cards("Ah empty"),
        Err(CardListError { token: 1, error: ParseError::UnknownRank })
    );
}

#[test]
fn common_cards_are_counted_per_entry() {
    let pack = vec![card(2, CardSuit::Heart), card(3, CardSuit::Heart), card(4, CardSuit::Heart)];
    let cards = vec![card(3, CardSuit::Heart), card(9, CardSuit::Club), card(2, CardSuit::Heart)];
    assert_eq!(find_common_cards_in_pack_no_ref(&cards, &pack), 2);
    assert_eq!(find_common_cards_in_pack_no_ref(&pack, &pack), 3);
    assert_eq!(find_common_cards_in_pack_no_ref(&vec![], &pack), 0);
    assert_eq!(find_common_cards_in_pack_no_ref(&cards, &vec![]), 0);
    // an entry that repeats counts each time
    let twice = vec![card(3, CardSuit::Heart), card(3, CardSuit::Heart)];
    assert_eq!(find_common_cards_in_pack_no_ref(&twice, &pack), 2);
    let refs: Vec<&Card> = cards.iter().collect();
    assert_eq!(find_common_cards_in_pack(&refs, &pack), 2);
    let none: Vec<&Card> = Vec::new();
    assert_eq!(find_common_cards_in_pack(&none, &pack), 0);
}

#[test]
fn sorting_orders_cards_and_keeps_them() {
    let cards = vec![
        card(14, CardSuit::Heart),
        card(2, CardSuit::Diamond),
        card(14, CardSuit::Heart),
        card(2, CardSuit::Heart),
        card(9, CardSuit::Club),
    ];
    let sorted = sort_cards(&cards);
    assert_eq!(
        sorted,
        vec![
            card(2, CardSuit::Heart),
            card(2, CardSuit::Diamond),
            card(9, CardSuit::Club),
            card(14, CardSuit::Heart),
            card(14, CardSuit::Heart),
        ]
    );
    let mut by_std = cards.clone();
    by_std.sort();
    assert_eq!(sorted, by_std);
    assert!(has_duplicate_cards(&cards));
    assert_eq!(find_duplicate_card(&cards), Some(card(14, CardSuit::Heart)));
    assert_eq!(find_duplicate_card(&sorted), Some(card(14, CardSuit::Heart)));
    assert_eq!(find_duplicate_card(&cards[1..].to_vec()), None);
    assert_eq!(normalize_hand(&cards), None);
    assert!(!is_sorted_hand(&sorted));
}

#[test]
fn hands_are_normalized_and_keyed() {
    let cards = vec![
        card(14, CardSuit::Heart),
        card(2, CardSuit::Diamond),
        card(13, CardSuit::Heart),
        card(2, CardSuit::Heart),
        card(9, CardSuit::Club),
    ];
    let hand = normalize_hand(&cards).unwrap();
    assert!(is_sorted_hand(&hand));
    assert_eq!(hand[0], card(2, CardSuit::Heart));
    assert_eq!(hand[4], card(14, CardSuit::Heart));
    // positions 0, 3, 30, 44, 48 as base-64 digits
    assert_eq!(key_of_hand(&hand), (((0 * 64 + 3) * 64 + 30) * 64 + 44) * 64 + 48);
    assert_eq!(key_of_pair(&vec![card(2, CardSuit::Diamond), card(14, CardSuit::Heart)]), 3 * 64 + 48);
    assert_eq!(normalize_hand(&cards[..4].to_vec()), None);
    let mut invalid = cards.clone();
    invalid[0] = card(15, CardSuit::Heart);
    assert_eq!(normalize_hand(&invalid), None);
}

#[test]
fn removing_known_cards_keeps_the_order_of_the_rest() {
    let deck = standard_deck();
    let known = vec![card(2, CardSuit::Club), card(14, CardSuit::Diamond), card(3, CardSuit::Heart)];
    let rest = remove_cards(&deck, &known);
    assert_eq!(rest.len(), 49);
    assert_eq!(rest[0], card(3, CardSuit::Club));
    assert_eq!(rest[48], card(13, CardSuit::Diamond));
    assert!(!rest.contains(&card(3, CardSuit::Heart)));
    assert_eq!(remove_cards(&deck, &vec![]), deck);
    assert_eq!(remove_cards(&deck, &deck), vec![]);
}
