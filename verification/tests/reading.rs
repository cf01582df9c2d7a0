use poker_ev::card::{Card, CardSuit};
use poker_ev::notation::{chars_of, ParseError};
use poker_ev::reading::{
    call_amount_text, read_hand_line, total_pot_text, trim_chars, CardListError, LineError,
};
use poker_ev::text::{find_char, find_word, is_word, rest_without, split_chars, text_of, to_small};

fn text(found: Option<Vec<char>>) -> Option<String> {
    found.map(|chars| chars.into_iter().collect())
}

fn chars(s: &str) -> Vec<char> {
    s.chars().collect()
}

#[test]
fn the_total_pot_is_found_among_the_lines() {
    assert_eq!(text(total_pot_text("Total pot: $1.30\nMain pot: $1.10\n\n")), Some("1.30".to_string()));
    assert_eq!(text(total_pot_text("total pot: $1,234.50")), Some("1234.50".to_string()));
    // without a currency sign the amount follows the colon and one more character
    assert_eq!(text(total_pot_text("total pot: 7.25")), Some("7.25".to_string()));
    // the last line that names the total pot counts
    assert_eq!(
        text(total_pot_text("total pot: $1.00\nside pot: $9.00\ntotal pot: $2.00")),
        Some("2.00".to_string())
    );
    // the words must stand alone before the colon
    assert_eq!(text(total_pot_text("the total pot: $1.00")), None);
    assert_eq!(text(total_pot_text("main pot: $1.00")), None);
    assert_eq!(text(total_pot_text("")), None);
    // a line that ends at the colon has no amount
    assert_eq!(text(total_pot_text("total pot:")), Some(String::new()));
    // a currency sign anywhere in the text widens the gap
    assert_eq!(text(total_pot_text("total pot: 1.30\nmain pot: $1")), Some(".30".to_string()));
}

#[test]
fn the_call_is_found_after_its_word() {
    assert_eq!(text(call_amount_text("call $0.50")), Some("0.50".to_string()));
    assert_eq!(text(call_amount_text("fold call 2")), Some("2".to_string()));
    assert_eq!(text(call_amount_text("Call $1,000")), Some("1000".to_string()));
    assert_eq!(text(call_amount_text("check")), None);
    assert_eq!(text(call_amount_text("")), None);
    assert_eq!(text(call_amount_text("call")), Some(String::new()));
    assert_eq!(text(call_amount_text("call 5 call 6")), Some("5 call 6".to_string()));
}

#[test]
fn hand_lines_are_read() {
    let line = read_hand_line("['H2' 'H3' 'H4' 'H5' 'S7'],7.05432").unwrap();
    assert_eq!(
        line.cards,
        vec![
            Card { rank: 2, suit: CardSuit::Heart },
            Card { rank: 3, suit: CardSuit::Heart },
            Card { rank: 4, suit: CardSuit::Heart },
            Card { rank: 5, suit: CardSuit::Heart },
            Card { rank: 7, suit: CardSuit::Spade },
        ]
    );
    assert_eq!(line.value_text.iter().collect::<String>(), "7.05432");
    let line = read_hand_line("Ah Kd,1,2").unwrap();
    assert_eq!(line.cards.len(), 2);
    assert_eq!(line.value_text.iter().collect::<String>(), "1");
    assert_eq!(read_hand_line("['H2' 'H3']").err(), Some(LineError::MissingValue));
    assert_eq!(
        read_hand_line("['H2' 'X3'],1.0").err(),
        Some(LineError::BadCard(CardListError { token: 1, error: ParseError::UnknownRank }))
    );
    // fillers are not passed over on a hand line
    assert_eq!(
        read_hand_line("['H2' 'Empty'],1.0").err(),
        Some(LineError::BadCard(CardListError { token: 1, error: ParseError::UnknownRank }))
    );
}

#[test]
fn texts_are_split_trimmed_and_searched() {
    let parts: Vec<String> =
        split_chars(&chars("a,,bc,"), ',').into_iter().map(|p| p.into_iter().collect()).collect();
    assert_eq!(parts, vec!["a", "", "bc", ""]);
    assert_eq!(split_chars(&chars(""), ',').len(), 1);
    assert_eq!(split_chars(&chars("abc"), ',').len(), 1);
    assert_eq!(split_chars(&chars("a b"), ' '), "a b".split(' ').map(chars).collect::<Vec<_>>());
    assert_eq!(trim_chars(&chars("[[ab]c]]"), '[', ']'), chars("ab]c"));
    assert_eq!(trim_chars(&chars("'x'"), '\'', '\''), chars("x"));
    assert_eq!(trim_chars(&chars("[[]]"), '[', ']'), chars(""));
    assert_eq!(trim_chars(&chars("abc"), '[', ']'), chars("abc"));
    assert_eq!(find_word(&chars("the Total Pot is"), &chars("total pot")), Some(4));
    assert_eq!(find_word(&chars("aab"), &chars("ab")), Some(1));
    assert_eq!(find_word(&chars("ab"), &chars("abc")), None);
    assert_eq!(find_word(&chars("ab"), &chars("")), Some(0));
    // the word is compared as it stands, the text in small letters
    assert_eq!(find_word(&chars("total pot"), &chars("Total")), None);
    assert!(is_word(&chars("DeAlEr"), &chars("dealer")));
    assert!(!is_word(&chars("dealers"), &chars("dealer")));
    assert_eq!(find_char(&chars("a:b:c"), ':'), Some(1));
    assert_eq!(find_char(&chars("abc"), ':'), None);
    assert_eq!(rest_without(&chars("1,234,567"), 2, ','), chars("234567"));
    assert_eq!(rest_without(&chars("abc"), 3, ','), chars(""));
    assert_eq!(rest_without(&chars("abc"), 9, ','), chars(""));
    assert_eq!(to_small('A'), 'a');
    assert_eq!(to_small('Z'), 'z');
    assert_eq!(to_small('a'), 'a');
    assert_eq!(to_small('['), '[');
    assert_eq!(to_small('É'), 'É');
    assert_eq!(chars_of("héllo"), chars("héllo"));
    assert_eq!(text_of(&chars("héllo")), "héllo");
}
