//! Cards as text: reading the two notations and writing the short one.

use crate::card::{Card, CardSuit};
use vstd::prelude::*;
use vstd::string::StrSliceExecFns;

verus! {

/// Why a text is not a card.
#[derive(Clone, Copy, Debug, PartialEq, Eq, Structural)]
pub enum ParseError {
    /// The text has fewer than two characters.
    TooShort,
    /// The rank is not one of the known ranks.
    UnknownRank,
    /// The suit letter is not one of the four suit letters.
    UnknownSuit,
}

/// The suit that a capital letter stands for.
pub open spec fn upper_suit(letter: char) -> Option<CardSuit> {
    if letter == 'H' {
        Some(CardSuit::Heart)
    } else if letter == 'S' {
        Some(CardSuit::Spade)
    } else if letter == 'C' {
        Some(CardSuit::Club)
    } else if letter == 'D' {
        Some(CardSuit::Diamond)
    } else {
        None
    }
}

/// The suit that a letter of either case stands for.
pub open spec fn any_suit(letter: char) -> Option<CardSuit> {
    if letter == 'H' || letter == 'h' {
        Some(CardSuit::Heart)
    } else if letter == 'S' || letter == 's' {
        Some(CardSuit::Spade)
    } else if letter == 'C' || letter == 'c' {
        Some(CardSuit::Club)
    } else if letter == 'D' || letter == 'd' {
        Some(CardSuit::Diamond)
    } else {
        None
    }
}

/// The value of a decimal digit.
pub open spec fn digit(c: char) -> Option<u8> {
    if c == '0' {
        Some(0u8)
    } else if c == '1' {
        Some(1u8)
    } else if c == '2' {
        Some(2u8)
    } else if c == '3' {
        Some(3u8)
    } else if c == '4' {
        Some(4u8)
    } else if c == '5' {
        Some(5u8)
    } else if c == '6' {
        Some(6u8)
    } else if c == '7' {
        Some(7u8)
    } else if c == '8' {
        Some(8u8)
    } else if c == '9' {
        Some(9u8)
    } else {
        None
    }
}

/// The rank that a number stands for: `2` to `9` and `10` to `14`, written
/// without sign or leading zero.
pub open spec fn number_rank(token: Seq<char>) -> Option<u8> {
    if token.len() == 1 {
        match digit(token[0]) {
            Some(d) => if d >= 2 {
                Some(d)
            } else {
                None
            },
            None => None,
        }
    } else if token.len() == 2 && token[0] == '1' {
        match digit(token[1]) {
            Some(d) => if d <= 4 {
                Some((10 + d) as u8)
            } else {
                None
            },
            None => None,
        }
    } else {
        None
    }
}

/// The rank that a symbol stands for: `2` to `9`, `T` or `10`, `J`, `Q`, `K`, `A`.
pub open spec fn symbol_rank(token: Seq<char>) -> Option<u8> {
    if token.len() == 1 {
        if token[0] == 'T' {
            Some(10u8)
        } else if token[0] == 'J' {
            Some(11u8)
        } else if token[0] == 'Q' {
            Some(12u8)
        } else if token[0] == 'K' {
            Some(13u8)
        } else if token[0] == 'A' {
            Some(14u8)
        } else {
            match digit(token[0]) {
                Some(d) => if d >= 2 {
                    Some(d)
                } else {
                    None
                },
                None => None,
            }
        }
    } else if token.len() == 2 && token[0] == '1' && token[1] == '0' {
        Some(10u8)
    } else {
        None
    }
}

/// The card that a text stands for. A text that starts with a capital suit
/// letter is read as suit and number, as in `H14`; any other text as rank
/// symbol and suit letter, as in `Ah` or `10h`.
pub open spec fn card_of_text(text: Seq<char>) -> Result<Card, ParseError> {
    if text.len() < 2 {
        Err(ParseError::TooShort)
    } else {
        match upper_suit(text[0]) {
            Some(suit) => match number_rank(text.skip(1)) {
                Some(rank) => Ok(Card { rank, suit }),
                None => Err(ParseError::UnknownRank),
            },
            None => match symbol_rank(text.take(text.len() - 1)) {
                None => Err(ParseError::UnknownRank),
                Some(rank) => match any_suit(text.last()) {
                    None => Err(ParseError::UnknownSuit),
                    Some(suit) => Ok(Card { rank, suit }),
                },
            },
        }
    }
}

/// The symbol a rank is written with.
pub open spec fn rank_symbol(rank: u8) -> char {
    if rank == 2 {
        '2'
    } else if rank == 3 {
        '3'
    } else if rank == 4 {
        '4'
    } else if rank == 5 {
        '5'
    } else if rank == 6 {
        '6'
    } else if rank == 7 {
        '7'
    } else if rank == 8 {
        '8'
    } else if rank == 9 {
        '9'
    } else if rank == 10 {
        'T'
    } else if rank == 11 {
        'J'
    } else if rank == 12 {
        'Q'
    } else if rank == 13 {
        'K'
    } else {
        'A'
    }
}

/// The small letter a suit is written with.
pub open spec fn suit_letter(suit: CardSuit) -> char {
    match suit {
        CardSuit::Heart => 'h',
        CardSuit::Spade => 's',
        CardSuit::Club => 'c',
        CardSuit::Diamond => 'd',
    }
}

/// The text a card is written as: rank symbol, then suit letter.
pub open spec fn card_text(card: Card) -> Seq<char> {
    seq![rank_symbol(card.rank), suit_letter(card.suit)]
}

/// Reading what was written gives the card back, for each of the 52 cards.
pub proof fn lemma_notation_round_trip(card: Card)
    requires
        card.valid(),
    ensures
        card_of_text(card_text(card)) == Ok::<Card, ParseError>(card),
{
    let text = card_text(card);
    assert(text.len() == 2);
    assert(text[0] == rank_symbol(card.rank));
    assert(text.last() == suit_letter(card.suit));
    assert(text.take(1) =~= seq![rank_symbol(card.rank)]);
    assert(upper_suit(text[0]) is None);
    assert(symbol_rank(text.take(1)) == Some(card.rank));
    assert(any_suit(text.last()) == Some(card.suit));
}

/// The characters of a text.
pub fn chars_of(text: &str) -> (out: Vec<char>)
    ensures
        out@ == text@,
{
    let count = text.unicode_len();
    let mut out: Vec<char> = Vec::new();
    let mut i: usize = 0;
    while i < count
        invariant
            i <= count,
            count == text@.len(),
            out@ == text@.take(i as int),
        decreases count - i,
    {
        out.push(text.get_char(i));
        proof {
            assert(text@.take(i as int).push(text@[i as int]) =~= text@.take(i + 1));
        }
        i += 1;
    }
    proof {
        assert(text@.take(count as int) =~= text@);
    }
    out
}

/// Reads a decimal digit.
fn read_digit(c: char) -> (out: Option<u8>)
    ensures
        out == digit(c),
{
    match c {
        '0' => Some(0),
        '1' => Some(1),
        '2' => Some(2),
        '3' => Some(3),
        '4' => Some(4),
        '5' => Some(5),
        '6' => Some(6),
        '7' => Some(7),
        '8' => Some(8),
        '9' => Some(9),
        _ => None,
    }
}

/// Reads a suit letter of either case.
fn read_suit(letter: char) -> (out: Option<CardSuit>)
    ensures
        out == any_suit(letter),
{
    match letter {
        'H' | 'h' => Some(CardSuit::Heart),
        'S' | 's' => Some(CardSuit::Spade),
        'C' | 'c' => Some(CardSuit::Club),
        'D' | 'd' => Some(CardSuit::Diamond),
        _ => None,
    }
}

/// Reads a card from its characters.
pub fn parse_card_chars(text: &Vec<char>) -> (out: Result<Card, ParseError>)
    ensures
        out == card_of_text(text@),
{
    let size = text.len();
    if size < 2 {
        return Err(ParseError::TooShort);
    }
    let first = text[0];
    if first == 'H' || first == 'S' || first == 'C' || first == 'D' {
        let suit = match first {
            'H' => CardSuit::Heart,
            'S' => CardSuit::Spade,
            'C' => CardSuit::Club,
            _ => CardSuit::Diamond,
        };
        let ghost token = text@.skip(1);
        proof {
            assert(token.len() == size - 1);
            assert(token[0] == text@[1]);
            if size == 3 {
                assert(token[1] == text@[2]);
            }
        }
        let rank = if size == 2 {
            match read_digit(text[1]) {
                Some(d) => if d >= 2 {
                    Some(d)
                } else {
                    None
                },
                None => None,
            }
        } else if size == 3 && text[1] == '1' {
            match read_digit(text[2]) {
                Some(d) => if d <= 4 {
                    Some(10 + d)
                } else {
                    None
                },
                None => None,
            }
        } else {
            None
        };
        match rank {
            Some(rank) => Ok(Card { rank, suit }),
            None => Err(ParseError::UnknownRank),
        }
    } else {
        let ghost token = text@.take(size - 1);
        proof {
            assert(token.len() == size - 1);
            assert(token[0] == text@[0]);
            if size == 3 {
                assert(token[1] == text@[1]);
            }
        }
        let rank = if size == 2 {
            match first {
                'T' => Some(10),
                'J' => Some(11),
                'Q' => Some(12),
                'K' => Some(13),
                'A' => Some(14),
                _ => match read_digit(first) {
                    Some(d) => if d >= 2 {
                        Some(d)
                    } else {
                        None
                    },
                    None => None,
                },
            }
        } else if size == 3 && first == '1' && text[1] == '0' {
            Some(10)
        } else {
            None
        };
        match rank {
            None => Err(ParseError::UnknownRank),
            Some(rank) => match read_suit(text[size - 1]) {
                None => Err(ParseError::UnknownSuit),
                Some(suit) => Ok(Card { rank, suit }),
            },
        }
    }
}

/// Reads a card from a text in either notation.
pub fn parse_card(text: &str) -> (out: Result<Card, ParseError>)
    ensures
        out == card_of_text(text@),
{
    let chars = chars_of(text);
    parse_card_chars(&chars)
}

impl CardSuit {
    /// The small letter the suit is written with.
    pub fn letter(self) -> (c: char)
        ensures
            c == suit_letter(self),
    {
        match self {
            CardSuit::Heart => 'h',
            CardSuit::Spade => 's',
            CardSuit::Club => 'c',
            CardSuit::Diamond => 'd',
        }
    }
}

impl Card {
    /// The symbol the card's rank is written with.
    pub fn rank_char(&self) -> (c: char)
        requires
            self.valid(),
        ensures
            c == rank_symbol(self.rank),
    {
        match self.rank {
            2 => '2',
            3 => '3',
            4 => '4',
            5 => '5',
            6 => '6',
            7 => '7',
            8 => '8',
            9 => '9',
            10 => 'T',
            11 => 'J',
            12 => 'Q',
            13 => 'K',
            _ => 'A',
        }
    }

    /// The card as text: rank symbol, then suit letter.
    pub fn notation(&self) -> (out: String)
        requires
            self.valid(),
        ensures
            out@ == card_text(*self),
    {
        let chars = self.to_chars();
        crate::text::text_of(&chars)
    }

    /// The card's characters: rank symbol, then suit letter.
    pub fn to_chars(&self) -> (out: Vec<char>)
        requires
            self.valid(),
        ensures
            out@ == card_text(*self),
    {
        let mut out: Vec<char> = Vec::new();
        out.push(self.rank_char());
        out.push(self.suit.letter());
        proof {
            assert(out@ =~= card_text(*self));
        }
        out
    }
}

} // verus!
