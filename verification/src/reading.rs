//! Reading a query from text: the list of cards, the amounts of pot and
//! call, the player's position, and a line of the list of hand values.

use crate::card::Card;
use crate::notation::{card_of_text, chars_of, parse_card_chars, ParseError};
use crate::position::{position_for_dealer, seat_position, TablePosition};
use crate::text::{chars_before, dropping, find_char, find_word, first_char, first_place,
    holds_word, is_word, pieces, reads_as, rest_without, same_chars, split_chars, split_on};
use vstd::prelude::*;

verus! {

/// A token of a card list that is not a card.
#[derive(Clone, Copy, Debug, PartialEq, Eq, Structural)]
pub struct CardListError {
    /// The token's place in the list, counted from 0.
    pub token: usize,
    /// What is wrong with it.
    pub error: ParseError,
}

/// The token marks a seat without a card and is passed over.
pub open spec fn is_filler(token: Seq<char>) -> bool {
    token == "Empty"@ || token == "Dealer"@
}

/// The cards that a list of tokens stands for, or the first token that is
/// not a card. Where `fillers` is set, fillers are passed over.
pub open spec fn cards_of_tokens(tokens: Seq<Seq<char>>, fillers: bool) -> Result<
    Seq<Card>,
    CardListError,
>
    decreases tokens.len(),
{
    if tokens.len() == 0 {
        Ok(Seq::<Card>::empty())
    } else {
        match cards_of_tokens(tokens.drop_last(), fillers) {
            Err(e) => Err(e),
            Ok(cards) => if fillers && is_filler(tokens.last()) {
                Ok(cards)
            } else {
                match card_of_text(tokens.last()) {
                    Ok(card) => Ok(cards.push(card)),
                    Err(error) => Err(CardListError { token: (tokens.len() - 1) as usize, error }),
                }
            },
        }
    }
}

/// The cards that a text stands for: its tokens between single spaces, read
/// one by one.
pub open spec fn cards_of_text(text: Seq<char>) -> Result<Seq<Card>, CardListError> {
    cards_of_tokens(split_on(text, ' '), true)
}

/// Reads the cards of a list of tokens.
pub fn read_card_tokens(tokens: &Vec<Vec<char>>, fillers: bool) -> (out: Result<
    Vec<Card>,
    CardListError,
>)
    ensures
        match cards_of_tokens(pieces(tokens@), fillers) {
            Ok(cards) => out matches Ok(found) && found@ == cards,
            Err(e) => out == Err::<Vec<Card>, CardListError>(e),
        },
{
    let empty = chars_of("Empty");
    let dealer = chars_of("Dealer");
    let ghost all = pieces(tokens@);
    let mut found: Vec<Card> = Vec::new();
    let mut i: usize = 0;
    proof {
        assert(all.take(0) =~= Seq::<Seq<char>>::empty());
    }
    while i < tokens.len()
        invariant
            i <= tokens.len(),
            all == pieces(tokens@),
            empty@ == "Empty"@,
            dealer@ == "Dealer"@,
            cards_of_tokens(all.take(i as int), fillers) == Ok::<Seq<Card>, CardListError>(found@),
        decreases tokens.len() - i,
    {
        let token = &tokens[i];
        proof {
            assert(all.take(i + 1).drop_last() =~= all.take(i as int));
            assert(all.take(i + 1).last() == token@);
        }
        if !(fillers && (same_chars(token, &empty) || same_chars(token, &dealer))) {
            match parse_card_chars(token) {
                Ok(card) => {
                    found.push(card);
                },
                Err(error) => {
                    proof {
                        lemma_first_failure(all, fillers, i + 1);
                    }
                    return Err(CardListError { token: i, error });
                },
            }
        }
        i += 1;
    }
    proof {
        assert(all.take(tokens.len() as int) =~= all);
    }
    Ok(found)
}

/// Once the first tokens fail, the whole list fails in the same way.
proof fn lemma_first_failure(tokens: Seq<Seq<char>>, fillers: bool, end: int)
    requires
        0 <= end <= tokens.len(),
        cards_of_tokens(tokens.take(end), fillers) is Err,
    ensures
        cards_of_tokens(tokens, fillers) == cards_of_tokens(tokens.take(end), fillers),
    decreases tokens.len() - end,
{
    if end < tokens.len() {
        assert(tokens.take(end + 1).drop_last() =~= tokens.take(end));
        lemma_first_failure(tokens, fillers, end + 1);
    } else {
        assert(tokens.take(end) =~= tokens);
    }
}

/// Reads a list of cards: tokens between single spaces, each a card in
/// either notation. The tokens `Empty` and `Dealer` are passed over.
pub fn conv_string_to_cards(s: &str) -> (out: Result<Vec<Card>, CardListError>)
    ensures
        match cards_of_text(s@) {
            Ok(cards) => out matches Ok(found) && found@ == cards,
            Err(e) => out == Err::<Vec<Card>, CardListError>(e),
        },
{
    let chars = chars_of(s);
    let tokens = split_chars(&chars, ' ');
    read_card_tokens(&tokens, true)
}

/// The rest of a line from place `from` on, without thousands separators;
/// nothing if the line ends before that place.
pub open spec fn amount_from(line: Seq<char>, from: int) -> Seq<char> {
    if from <= line.len() {
        dropping(line.skip(from), ',')
    } else {
        Seq::<char>::empty()
    }
}

/// The amount of a line that names the total pot: the line reads `total pot`
/// up to its first colon, and the amount follows the colon and `lead - 1`
/// more characters.
pub open spec fn pot_line_amount(line: Seq<char>, lead: int) -> Option<Seq<char>> {
    if line.contains(':') && reads_as(line.take(first_char(line, ':')), "total pot"@) {
        Some(amount_from(line, first_char(line, ':') + lead))
    } else {
        None
    }
}

/// The amount of the last of the lines that names the total pot.
pub open spec fn pot_amount_in(lines: Seq<Seq<char>>, lead: int) -> Option<Seq<char>>
    decreases lines.len(),
{
    if lines.len() == 0 {
        None
    } else {
        match pot_line_amount(lines.last(), lead) {
            Some(amount) => Some(amount),
            None => pot_amount_in(lines.drop_last(), lead),
        }
    }
}

/// How many characters stand between the word before an amount and the
/// amount: a colon or a space, a space, and a currency sign if the text
/// holds one anywhere.
pub open spec fn lead_width(text: Seq<char>) -> int {
    if text.contains('$') {
        3
    } else {
        2
    }
}

/// The text of the total pot's amount, if the text names a total pot.
pub open spec fn total_pot_amount(text: Seq<char>) -> Option<Seq<char>> {
    if holds_word(text, "total pot"@) {
        pot_amount_in(split_on(text, '\n'), lead_width(text))
    } else {
        None
    }
}

/// Finds the amount of the total pot in a text such as
/// `Total pot: $1.30` followed by other lines. The amount is returned as
/// text, without thousands separators.
pub fn total_pot_text(pot: &str) -> (out: Option<Vec<char>>)
    ensures
        match total_pot_amount(pot@) {
            Some(amount) => out matches Some(found) && found@ == amount,
            None => out is None,
        },
{
    let chars = chars_of(pot);
    let word = chars_of("total pot");
    if find_word(&chars, &word).is_none() {
        return None;
    }
    let lead: usize = if find_char(&chars, '$').is_some() {
        3
    } else {
        2
    };
    let lines = split_chars(&chars, '\n');
    let ghost all = pieces(lines@);
    let mut found: Option<Vec<char>> = None;
    let mut i: usize = 0;
    proof {
        assert(all.take(0) =~= Seq::<Seq<char>>::empty());
    }
    while i < lines.len()
        invariant
            i <= lines.len(),
            all == pieces(lines@),
            word@ == "total pot"@,
            lead == lead_width(pot@),
            match pot_amount_in(all.take(i as int), lead as int) {
                Some(amount) => found matches Some(text) && text@ == amount,
                None => found is None,
            },
        decreases lines.len() - i,
    {
        let line = &lines[i];
        proof {
            assert(all.take(i + 1).drop_last() =~= all.take(i as int));
            assert(all.take(i + 1).last() == line@);
        }
        match find_char(line, ':') {
            Some(colon) => {
                let name = chars_before(line, colon);
                if is_word(&name, &word) {
                    let from: usize = if colon <= usize::MAX - lead {
                        colon + lead
                    } else {
                        usize::MAX
                    };
                    found = Some(rest_without(line, from, ','));
                }
            },
            None => {},
        }
        i += 1;
    }
    proof {
        assert(all.take(lines.len() as int) =~= all);
    }
    found
}

/// The text of the amount to call, if the text names a call: what follows
/// the first `call`, one more character, and a currency sign if the text
/// holds one anywhere.
pub open spec fn call_amount(text: Seq<char>) -> Option<Seq<char>> {
    if holds_word(text, "call"@) {
        Some(amount_from(text, first_place(text, "call"@) + 3 + lead_width(text)))
    } else {
        None
    }
}

/// Finds the amount to call in a text such as `call $0.50`. The amount is
/// returned as text, without thousands separators.
pub fn call_amount_text(action: &str) -> (out: Option<Vec<char>>)
    ensures
        match call_amount(action@) {
            Some(amount) => out matches Some(found) && found@ == amount,
            None => out is None,
        },
{
    let chars = chars_of(action);
    let word = chars_of("call");
    match find_word(&chars, &word) {
        None => None,
        Some(at) => {
            let lead: usize = if find_char(&chars, '$').is_some() {
                6
            } else {
                5
            };
            let from: usize = if at <= usize::MAX - lead {
                at + lead
            } else {
                usize::MAX
            };
            Some(rest_without(&chars, from, ','))
        },
    }
}

/// Why a text does not tell the player's position.
#[derive(Clone, Copy, Debug, PartialEq, Eq, Structural)]
pub enum PositionError {
    /// The table has neither 3 nor 6 nor 9 seats.
    MalformedTable,
    /// A seat before the dealer's is marked with something other than `Empty`.
    UnknownMarker,
    /// No seat is marked `Dealer`.
    NoDealer,
    /// No position is assigned to a player who sees the dealer on this seat.
    UnassignedSeat,
}

/// The dealer's seat, counted from 1: the first seat from `from` on that is
/// marked `dealer`, all seats before it being marked `empty`, whatever the
/// case of the markers.
pub open spec fn dealer_seat_from(seats: Seq<Seq<char>>, from: int) -> Result<int, PositionError>
    decreases seats.len() - from,
{
    if from < 0 || from >= seats.len() {
        Err(PositionError::NoDealer)
    } else if reads_as(seats[from], "dealer"@) {
        Ok(from + 1)
    } else if !reads_as(seats[from], "empty"@) {
        Err(PositionError::UnknownMarker)
    } else {
        dealer_seat_from(seats, from + 1)
    }
}

/// The player's position according to a text that marks the seats of the
/// table, the player's own seat last.
pub open spec fn position_of_text(text: Seq<char>) -> Result<TablePosition, PositionError> {
    let seats = split_on(text, ' ');
    if seats.len() != 3 && seats.len() != 6 && seats.len() != 9 {
        Err(PositionError::MalformedTable)
    } else {
        match dealer_seat_from(seats, 0) {
            Err(e) => Err(e),
            Ok(seat) => match seat_position(seats.len() as int, seat) {
                Some(position) => Ok(position),
                None => Err(PositionError::UnassignedSeat),
            },
        }
    }
}

/// Reads the player's position from the markers of the seats, separated by
/// single spaces.
pub fn dealer_position(pos: &str) -> (out: Result<TablePosition, PositionError>)
    ensures
        out == position_of_text(pos@),
{
    let chars = chars_of(pos);
    let seats = split_chars(&chars, ' ');
    let count = seats.len();
    if count != 3 && count != 6 && count != 9 {
        return Err(PositionError::MalformedTable);
    }
    let dealer = chars_of("dealer");
    let empty = chars_of("empty");
    let ghost all = pieces(seats@);
    let mut i: usize = 0;
    while i < count
        invariant
            i <= count,
            count == seats.len(),
            count == 3 || count == 6 || count == 9,
            all == pieces(seats@),
            all == split_on(pos@, ' '),
            dealer@ == "dealer"@,
            empty@ == "empty"@,
            dealer_seat_from(all, 0) == dealer_seat_from(all, i as int),
        decreases count - i,
    {
        let seat = &seats[i];
        proof {
            assert(all[i as int] == seat@);
        }
        if is_word(seat, &dealer) {
            return match position_for_dealer(count, i + 1) {
                Some(position) => Ok(position),
                None => Err(PositionError::UnassignedSeat),
            };
        }
        if !is_word(seat, &empty) {
            return Err(PositionError::UnknownMarker);
        }
        i += 1;
    }
    Err(PositionError::NoDealer)
}

/// The text without the characters `a` and `b` at its front.
pub open spec fn trim_front(text: Seq<char>, a: char, b: char) -> Seq<char>
    decreases text.len(),
{
    if text.len() > 0 && (text[0] == a || text[0] == b) {
        trim_front(text.skip(1), a, b)
    } else {
        text
    }
}

/// The text without the characters `a` and `b` at its back.
pub open spec fn trim_back(text: Seq<char>, a: char, b: char) -> Seq<char>
    decreases text.len(),
{
    if text.len() > 0 && (text.last() == a || text.last() == b) {
        trim_back(text.drop_last(), a, b)
    } else {
        text
    }
}

/// The text without the characters `a` and `b` at either end.
pub open spec fn trimmed(text: Seq<char>, a: char, b: char) -> Seq<char> {
    trim_back(trim_front(text, a, b), a, b)
}

/// Strips the characters `a` and `b` from both ends of a text.
pub fn trim_chars(text: &Vec<char>, a: char, b: char) -> (out: Vec<char>)
    ensures
        out@ == trimmed(text@, a, b),
{
    let mut start: usize = 0;
    proof {
        assert(text@.skip(0) =~= text@);
    }
    while start < text.len() && (text[start] == a || text[start] == b)
        invariant
            start <= text.len(),
            trim_front(text@, a, b) == trim_front(text@.skip(start as int), a, b),
        decreases text.len() - start,
    {
        proof {
            assert(text@.skip(start as int)[0] == text@[start as int]);
            assert(text@.skip(start as int).skip(1) =~= text@.skip(start + 1));
        }
        start += 1;
    }
    let ghost front = text@.skip(start as int);
    proof {
        if start < text.len() {
            assert(front[0] == text@[start as int]);
        }
        assert(trim_front(text@, a, b) == front);
        assert(front.take(front.len() as int) =~= front);
    }
    let mut end: usize = text.len();
    while end > start && (text[end - 1] == a || text[end - 1] == b)
        invariant
            start <= end <= text.len(),
            front == text@.skip(start as int),
            trim_back(front, a, b) == trim_back(front.take(end - start), a, b),
        decreases end - start,
    {
        proof {
            let part = front.take(end - start);
            assert(part.last() == text@[end - 1]);
            assert(part.drop_last() =~= front.take(end - 1 - start));
        }
        end -= 1;
    }
    proof {
        let part = front.take(end - start);
        if end > start {
            assert(part.last() == text@[end - 1]);
        }
        assert(trim_back(front, a, b) == part);
    }
    let mut out: Vec<char> = Vec::new();
    let mut i: usize = start;
    while i < end
        invariant
            start <= i <= end <= text.len(),
            front == text@.skip(start as int),
            out@ == front.take(i - start),
        decreases end - i,
    {
        out.push(text[i]);
        proof {
            assert(front.take(i - start).push(text@[i as int]) =~= front.take(i + 1 - start));
        }
        i += 1;
    }
    out
}

/// Why a line is not a hand with its value.
#[derive(Clone, Copy, Debug, PartialEq, Eq, Structural)]
pub enum LineError {
    /// The line has no comma, so no value follows the hand.
    MissingValue,
    /// A token of the hand is not a card.
    BadCard(CardListError),
}

/// A hand as listed on a line, with the text of its value.
#[derive(Debug)]
pub struct HandLine {
    pub cards: Vec<Card>,
    pub value_text: Vec<char>,
}

/// The tokens of a listed hand: the text between the brackets, split at
/// single spaces, each token without its quotes.
pub open spec fn quoted_tokens(hand: Seq<char>) -> Seq<Seq<char>> {
    split_on(trimmed(hand, '[', ']'), ' ').map_values(|token: Seq<char>| trimmed(token, '\'', '\''))
}

/// The cards of a line such as `['H2' 'H3' 'H4' 'H5' 'S7'],7.05432`: what
/// stands before the first comma is the hand.
pub open spec fn line_cards(line: Seq<char>) -> Result<Seq<Card>, LineError> {
    let parts = split_on(line, ',');
    if parts.len() < 2 {
        Err(LineError::MissingValue)
    } else {
        match cards_of_tokens(quoted_tokens(parts[0]), false) {
            Ok(cards) => Ok(cards),
            Err(e) => Err(LineError::BadCard(e)),
        }
    }
}

/// The text of the value of such a line: what stands between the first
/// comma and the second, or the end.
pub open spec fn line_value(line: Seq<char>) -> Seq<char> {
    split_on(line, ',')[1]
}

/// Reads a line of the list of hand values: the hand's cards, and the text
/// of the value.
pub fn read_hand_line(line: &str) -> (out: Result<HandLine, LineError>)
    ensures
        match line_cards(line@) {
            Ok(cards) => out matches Ok(found) && found.cards@ == cards && found.value_text@
                == line_value(line@),
            Err(e) => out matches Err(f) && f == e,
        },
{
    let chars = chars_of(line);
    let mut parts = split_chars(&chars, ',');
    if parts.len() < 2 {
        return Err(LineError::MissingValue);
    }
    let hand = trim_chars(&parts[0], '[', ']');
    let raw = split_chars(&hand, ' ');
    let ghost wanted = quoted_tokens(parts@[0]@);
    proof {
        assert(pieces(parts@)[0] == parts@[0]@);
    }
    let mut tokens: Vec<Vec<char>> = Vec::new();
    let mut i: usize = 0;
    while i < raw.len()
        invariant
            i <= raw.len(),
            wanted.len() == raw.len(),
            pieces(raw@) == split_on(trimmed(parts@[0]@, '[', ']'), ' '),
            wanted == quoted_tokens(parts@[0]@),
            tokens.len() == i,
            forall|k: int| 0 <= k < i ==> (#[trigger] tokens@[k])@ == wanted[k],
        decreases raw.len() - i,
    {
        let token = trim_chars(&raw[i], '\'', '\'');
        proof {
            assert(pieces(raw@)[i as int] == raw@[i as int]@);
        }
        tokens.push(token);
        i += 1;
    }
    proof {
        assert(pieces(tokens@) =~= wanted);
        assert(pieces(parts@)[1] == parts@[1]@);
    }
    match read_card_tokens(&tokens, false) {
        Err(e) => Err(LineError::BadCard(e)),
        Ok(cards) => {
            let value_text = parts.swap_remove(1);
            Ok(HandLine { cards, value_text })
        },
    }
}

} // verus!
