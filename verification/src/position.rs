//! Seats at the table and the starting hands that are playable from each.

use crate::card::Card;
use vstd::prelude::*;

verus! {

/// Where the player sits relative to the dealer.
#[derive(Clone, Copy, Debug, PartialEq, Eq, Hash, Structural)]
pub enum TablePosition {
    Early,
    Mid,
    Late,
    Button,
    SB,
}

impl TablePosition {
    /// The short name of the position.
    pub open spec fn label_text(self) -> Seq<char> {
        match self {
            TablePosition::Early => "UTG"@,
            TablePosition::Mid => "MID"@,
            TablePosition::Late => "LATE"@,
            TablePosition::Button => "BTN"@,
            TablePosition::SB => "SB"@,
        }
    }

    /// The short name of the position.
    pub fn label(self) -> (text: &'static str)
        ensures
            text@ == self.label_text(),
    {
        match self {
            TablePosition::Early => "UTG",
            TablePosition::Mid => "MID",
            TablePosition::Late => "LATE",
            TablePosition::Button => "BTN",
            TablePosition::SB => "SB",
        }
    }
}

/// The position of a player who sees the dealer button on seat `dealer_seat`
/// (counted from 1) of a table with `seats` seats. Tables have 3, 6 or 9
/// seats, and on the larger ones only the first six seats are assigned.
pub open spec fn seat_position(seats: int, dealer_seat: int) -> Option<TablePosition> {
    if seats == 3 {
        if dealer_seat == 1 {
            Some(TablePosition::Button)
        } else if dealer_seat == 2 {
            Some(TablePosition::Late)
        } else if dealer_seat == 3 {
            Some(TablePosition::SB)
        } else {
            None
        }
    } else if seats == 6 || seats == 9 {
        if dealer_seat == 1 {
            Some(TablePosition::Button)
        } else if dealer_seat == 2 {
            Some(TablePosition::Late)
        } else if dealer_seat == 3 {
            Some(TablePosition::Mid)
        } else if dealer_seat == 4 || dealer_seat == 5 {
            Some(TablePosition::Early)
        } else if dealer_seat == 6 {
            Some(TablePosition::SB)
        } else {
            None
        }
    } else {
        None
    }
}

/// Finds the player's position from the table size and the dealer's seat.
pub fn position_for_dealer(seats: usize, dealer_seat: usize) -> (out: Option<TablePosition>)
    ensures
        out == seat_position(seats as int, dealer_seat as int),
{
    if seats == 3 {
        match dealer_seat {
            1 => Some(TablePosition::Button),
            2 => Some(TablePosition::Late),
            3 => Some(TablePosition::SB),
            _ => None,
        }
    } else if seats == 6 || seats == 9 {
        match dealer_seat {
            1 => Some(TablePosition::Button),
            2 => Some(TablePosition::Late),
            3 => Some(TablePosition::Mid),
            4 | 5 => Some(TablePosition::Early),
            6 => Some(TablePosition::SB),
            _ => None,
        }
    } else {
        None
    }
}

/// The two hole cards share a suit.
pub open spec fn suited(hand: Seq<Card>) -> bool {
    hand[0].suit == hand[1].suit
}

/// The lower hole card has rank `low` and the higher one rank `high`.
pub open spec fn ranks_are(hand: Seq<Card>, low: int, high: int) -> bool {
    hand[0].rank == low && hand[1].rank == high
}

/// The higher hole card has rank `high` and the lower one a rank from
/// `low_from` to `low_to`.
pub open spec fn low_within(hand: Seq<Card>, low_from: int, low_to: int, high: int) -> bool {
    hand[1].rank == high && low_from <= hand[0].rank <= low_to
}

/// The lower hole card has rank `low` and the higher one a rank from
/// `high_from` to `high_to`.
pub open spec fn high_within(hand: Seq<Card>, low: int, high_from: int, high_to: int) -> bool {
    hand[0].rank == low && high_from <= hand[1].rank <= high_to
}

/// Hands opened from early position: any suited ace, the pairs from fives
/// up, ace with ten or better, king-queen, and the strongest suited
/// connectors.
pub open spec fn early_range(hand: Seq<Card>) -> bool {
    ||| hand[1].rank == 14 && suited(hand)
    ||| hand[0].rank == hand[1].rank && 5 <= hand[1].rank <= 14
    ||| low_within(hand, 10, 13, 14)
    ||| ranks_are(hand, 12, 13)
    ||| suited(hand) && low_within(hand, 10, 12, 13)
    ||| suited(hand) && low_within(hand, 10, 11, 12)
    ||| suited(hand) && ranks_are(hand, 10, 11)
    ||| suited(hand) && ranks_are(hand, 9, 10)
    ||| suited(hand) && ranks_are(hand, 5, 6)
}

/// What middle position adds to the early range.
pub open spec fn mid_extras(hand: Seq<Card>) -> bool {
    ||| suited(hand) && low_within(hand, 8, 9, 13)
    ||| suited(hand) && ranks_are(hand, 9, 12)
    ||| suited(hand) && ranks_are(hand, 9, 11)
    ||| ranks_are(hand, 11, 13)
    ||| ranks_are(hand, 11, 12)
    ||| suited(hand) && ranks_are(hand, 8, 9)
    ||| suited(hand) && ranks_are(hand, 7, 8)
    ||| suited(hand) && ranks_are(hand, 6, 7)
    ||| suited(hand) && ranks_are(hand, 4, 5)
    ||| ranks_are(hand, 4, 4)
}

/// What late position adds to the middle range.
pub open spec fn late_extras(hand: Seq<Card>) -> bool {
    ||| suited(hand) && low_within(hand, 5, 7, 13)
    ||| suited(hand) && ranks_are(hand, 8, 12)
    ||| suited(hand) && ranks_are(hand, 8, 11)
    ||| suited(hand) && ranks_are(hand, 8, 10)
    ||| high_within(hand, 10, 11, 13)
    ||| suited(hand) && ranks_are(hand, 7, 9)
    ||| suited(hand) && ranks_are(hand, 6, 8)
    ||| suited(hand) && ranks_are(hand, 5, 7)
    ||| ranks_are(hand, 3, 3)
    ||| ranks_are(hand, 2, 2)
}

/// What the button adds to the late range.
pub open spec fn button_extras(hand: Seq<Card>) -> bool {
    ||| suited(hand) && low_within(hand, 2, 4, 13)
    ||| suited(hand) && low_within(hand, 5, 7, 12)
    ||| suited(hand) && ranks_are(hand, 7, 11)
    ||| suited(hand) && low_within(hand, 6, 7, 10)
    ||| suited(hand) && ranks_are(hand, 6, 9)
    ||| suited(hand) && ranks_are(hand, 5, 8)
    ||| suited(hand) && ranks_are(hand, 4, 6)
    ||| suited(hand) && ranks_are(hand, 3, 5)
    ||| suited(hand) && ranks_are(hand, 3, 4)
    ||| high_within(hand, 9, 10, 14)
    ||| low_within(hand, 4, 8, 14)
}

/// What the small blind adds to the button range.
pub open spec fn small_blind_extras(hand: Seq<Card>) -> bool {
    ||| suited(hand) && low_within(hand, 2, 4, 12)
    ||| suited(hand) && low_within(hand, 2, 6, 11)
    ||| suited(hand) && low_within(hand, 2, 5, 10)
    ||| suited(hand) && low_within(hand, 4, 5, 9)
    ||| suited(hand) && ranks_are(hand, 4, 8)
    ||| suited(hand) && low_within(hand, 3, 4, 7)
    ||| suited(hand) && ranks_are(hand, 3, 6)
    ||| suited(hand) && ranks_are(hand, 2, 5)
    ||| suited(hand) && ranks_are(hand, 2, 4)
    ||| suited(hand) && ranks_are(hand, 2, 3)
    ||| high_within(hand, 8, 10, 13)
    ||| high_within(hand, 7, 8, 13)
    ||| low_within(hand, 4, 6, 13)
    ||| low_within(hand, 4, 5, 12)
    ||| low_within(hand, 2, 3, 14)
    ||| high_within(hand, 6, 7, 8)
    ||| high_within(hand, 5, 6, 7)
    ||| high_within(hand, 4, 5, 6)
}

/// Hands opened from middle position.
pub open spec fn mid_range(hand: Seq<Card>) -> bool {
    early_range(hand) || mid_extras(hand)
}

/// Hands opened from late position.
pub open spec fn late_range(hand: Seq<Card>) -> bool {
    mid_range(hand) || late_extras(hand)
}

/// Hands opened from the button.
pub open spec fn button_range(hand: Seq<Card>) -> bool {
    late_range(hand) || button_extras(hand)
}

/// Hands opened from the small blind.
pub open spec fn small_blind_range(hand: Seq<Card>) -> bool {
    button_range(hand) || small_blind_extras(hand)
}

/// The range of hands that are playable from `position`.
pub open spec fn playable(position: TablePosition, hand: Seq<Card>) -> bool {
    match position {
        TablePosition::Early => early_range(hand),
        TablePosition::Mid => mid_range(hand),
        TablePosition::Late => late_range(hand),
        TablePosition::Button => button_range(hand),
        TablePosition::SB => small_blind_range(hand),
    }
}

/// Whether a hole pair, lower card first, is opened from early position.
pub fn is_early_position_range(hand: &Vec<Card>) -> (b: bool)
    requires
        hand.len() == 2,
    ensures
        b == early_range(hand@),
{
    let low = hand[0].rank;
    let high = hand[1].rank;
    let same_suit = hand[0].suit == hand[1].suit;
    // any suited ace
    if high == 14 && same_suit {
        return true;
    }
    // aces, kings, queens
    if low == 14 && high == 14 {
        return true;
    }
    // suited king with queen, jack or ten
    if high == 13 && same_suit && low >= 10 && low <= 12 {
        return true;
    }
    if low == 13 && high == 13 {
        return true;
    }
    // ace-king
    if high == 14 && low == 13 {
        return true;
    }
    // suited queen with jack or ten
    if high == 12 && same_suit && low >= 10 && low <= 11 {
        return true;
    }
    if low == 12 && high == 12 {
        return true;
    }
    // ace-queen, king-queen
    if high == 14 && low == 12 {
        return true;
    }
    if high == 13 && low == 12 {
        return true;
    }
    // suited jack-ten, jacks, ace-jack
    if high == 11 && low == 10 && same_suit {
        return true;
    }
    if high == 11 && low == 11 {
        return true;
    }
    if high == 14 && low == 11 {
        return true;
    }
    // tens, suited ten-nine, ace-ten
    if high == 10 && low == 10 {
        return true;
    }
    if high == 10 && low == 9 && same_suit {
        return true;
    }
    if high == 14 && low == 10 {
        return true;
    }
    // nines down to fives
    if high == low && high >= 5 && high <= 9 {
        return true;
    }
    // suited six-five
    if high == 6 && low == 5 && same_suit {
        return true;
    }
    false
}

/// Whether a hole pair, lower card first, is opened from middle position.
pub fn is_mid_position_range(hand: &Vec<Card>) -> (b: bool)
    requires
        hand.len() == 2,
    ensures
        b == mid_range(hand@),
{
    if is_early_position_range(hand) {
        return true;
    }
    let low = hand[0].rank;
    let high = hand[1].rank;
    let same_suit = hand[0].suit == hand[1].suit;
    // suited king with nine or eight
    if high == 13 && same_suit && low >= 8 && low <= 9 {
        return true;
    }
    // suited queen-nine, jack-nine
    if high == 12 && same_suit && low == 9 {
        return true;
    }
    if high == 11 && same_suit && low == 9 {
        return true;
    }
    // king-jack, queen-jack
    if high == 13 && low == 11 {
        return true;
    }
    if high == 12 && low == 11 {
        return true;
    }
    // suited connectors from nine-eight down to five-four
    if high == 9 && low == 8 && same_suit {
        return true;
    }
    if high == 8 && low == 7 && same_suit {
        return true;
    }
    if high == 7 && low == 6 && same_suit {
        return true;
    }
    if high == 5 && low == 4 && same_suit {
        return true;
    }
    // fours
    if high == 4 && low == 4 {
        return true;
    }
    false
}

/// Whether a hole pair, lower card first, is opened from late position.
pub fn is_late_position_range(hand: &Vec<Card>) -> (b: bool)
    requires
        hand.len() == 2,
    ensures
        b == late_range(hand@),
{
    if is_mid_position_range(hand) {
        return true;
    }
    let low = hand[0].rank;
    let high = hand[1].rank;
    let same_suit = hand[0].suit == hand[1].suit;
    // suited king with seven, six or five
    if high == 13 && same_suit && low >= 5 && low <= 7 {
        return true;
    }
    // suited queen, jack or ten with an eight
    if high == 12 && same_suit && low == 8 {
        return true;
    }
    if high == 11 && same_suit && low == 8 {
        return true;
    }
    if high == 10 && same_suit && low == 8 {
        return true;
    }
    // king, queen or jack with a ten
    if high == 13 && low == 10 {
        return true;
    }
    if high == 12 && low == 10 {
        return true;
    }
    if high == 11 && low == 10 {
        return true;
    }
    // suited one-gappers
    if high == 9 && same_suit && low == 7 {
        return true;
    }
    if high == 8 && same_suit && low == 6 {
        return true;
    }
    if high == 7 && same_suit && low == 5 {
        return true;
    }
    // threes, deuces
    if high == 3 && low == 3 {
        return true;
    }
    if high == 2 && low == 2 {
        return true;
    }
    false
}

/// Whether a hole pair, lower card first, is opened from the button.
pub fn is_btn_position_range(hand: &Vec<Card>) -> (b: bool)
    requires
        hand.len() == 2,
    ensures
        b == button_range(hand@),
{
    if is_late_position_range(hand) {
        return true;
    }
    let low = hand[0].rank;
    let high = hand[1].rank;
    let same_suit = hand[0].suit == hand[1].suit;
    // suited king with four, three or two
    if high == 13 && same_suit && low >= 2 && low <= 4 {
        return true;
    }
    // suited queen with seven, six or five
    if high == 12 && same_suit && low >= 5 && low <= 7 {
        return true;
    }
    // suited jack-seven
    if high == 11 && same_suit && low == 7 {
        return true;
    }
    // suited ten with seven or six
    if high == 10 && same_suit && low >= 6 && low <= 7 {
        return true;
    }
    // suited gappers
    if high == 9 && same_suit && low == 6 {
        return true;
    }
    if high == 8 && same_suit && low == 5 {
        return true;
    }
    if high == 6 && same_suit && low == 4 {
        return true;
    }
    if high == 5 && same_suit && low == 3 {
        return true;
    }
    if high == 4 && same_suit && low == 3 {
        return true;
    }
    // a nine with a ten or better
    if low == 9 && high >= 10 && high <= 14 {
        return true;
    }
    // an ace with eight down to four
    if high == 14 && low >= 4 && low <= 8 {
        return true;
    }
    false
}

/// Whether a hole pair, lower card first, is opened from the small blind.
pub fn is_sb_position_range(hand: &Vec<Card>) -> (b: bool)
    requires
        hand.len() == 2,
    ensures
        b == small_blind_range(hand@),
{
    if is_btn_position_range(hand) {
        return true;
    }
    let low = hand[0].rank;
    let high = hand[1].rank;
    let same_suit = hand[0].suit == hand[1].suit;
    // suited queen with four, three or two
    if high == 12 && same_suit && low >= 2 && low <= 4 {
        return true;
    }
    // suited jack with six down to two
    if high == 11 && same_suit && low >= 2 && low <= 6 {
        return true;
    }
    // suited ten with five down to two
    if high == 10 && same_suit && low >= 2 && low <= 5 {
        return true;
    }
    // suited nine with five or four
    if high == 9 && same_suit && low == 5 {
        return true;
    }
    if high == 9 && same_suit && low == 4 {
        return true;
    }
    // suited eight-four
    if high == 8 && same_suit && low == 4 {
        return true;
    }
    // suited seven with four or three
    if high == 7 && same_suit && low >= 3 && low <= 4 {
        return true;
    }
    // suited six-three, five-two, four-two, three-two
    if high == 6 && same_suit && low == 3 {
        return true;
    }
    if high == 5 && same_suit && low == 2 {
        return true;
    }
    if high == 4 && same_suit && low == 2 {
        return true;
    }
    if high == 3 && same_suit && low == 2 {
        return true;
    }
    // an eight with a ten up to a king
    if low == 8 && high >= 10 && high <= 13 {
        return true;
    }
    // a seven with an eight up to a king
    if low == 7 && high >= 8 && high <= 13 {
        return true;
    }
    // a king with six, five or four
    if high == 13 && low >= 4 && low <= 6 {
        return true;
    }
    // a queen with five or four
    if high == 12 && low >= 4 && low <= 5 {
        return true;
    }
    // an ace with three or two
    if high == 14 && low >= 2 && low <= 3 {
        return true;
    }
    // connectors and one-gappers below the eight
    if low == 6 && high >= 7 && high <= 8 {
        return true;
    }
    if low == 5 && high >= 6 && high <= 7 {
        return true;
    }
    if low == 4 && high >= 5 && high <= 6 {
        return true;
    }
    false
}

/// Whether a hole pair, lower card first, is playable from `position`.
pub fn is_playable(position: TablePosition, hand: &Vec<Card>) -> (b: bool)
    requires
        hand.len() == 2,
    ensures
        b == playable(position, hand@),
{
    match position {
        TablePosition::Early => is_early_position_range(hand),
        TablePosition::Mid => is_mid_position_range(hand),
        TablePosition::Late => is_late_position_range(hand),
        TablePosition::Button => is_btn_position_range(hand),
        TablePosition::SB => is_sb_position_range(hand),
    }
}

} // verus!
