//! Cards, their total order and the 52-card deck.

use vstd::prelude::*;

verus! {

/// The four suits, in the order used to break ties between cards of one rank.
#[derive(Clone, Copy, Debug, PartialEq, Eq, PartialOrd, Ord, Hash, Structural)]
pub enum CardSuit {
    Heart,
    Spade,
    Club,
    Diamond,
}

impl CardSuit {
    /// Position of the suit in the suit order: 1 for hearts up to 4 for diamonds.
    pub open spec fn ordinal(self) -> int {
        match self {
            CardSuit::Heart => 1,
            CardSuit::Spade => 2,
            CardSuit::Club => 3,
            CardSuit::Diamond => 4,
        }
    }

    /// The suit's position in the suit order.
    pub fn number(self) -> (n: u8)
        ensures
            n == self.ordinal(),
    {
        match self {
            CardSuit::Heart => 1,
            CardSuit::Spade => 2,
            CardSuit::Club => 3,
            CardSuit::Diamond => 4,
        }
    }
}

/// Lowest rank, the deuce.
pub const MIN_RANK: u8 = 2;

/// Highest rank, the ace.
pub const MAX_RANK: u8 = 14;

/// Number of cards in a full deck.
pub const DECK_SIZE: usize = 52;

/// A playing card. Ranks run from 2 to 14; 11 to 14 are jack, queen, king and ace.
#[derive(Clone, Copy, Debug, PartialEq, Eq, PartialOrd, Ord, Hash, Structural)]
pub struct Card {
    pub rank: u8,
    pub suit: CardSuit,
}

impl Card {
    /// A card is valid when its rank is one of the thirteen ranks.
    pub open spec fn valid(self) -> bool {
        MIN_RANK <= self.rank <= MAX_RANK
    }

    /// The number cards are ordered by: rank first, suit second.
    pub open spec fn sort_key(self) -> int {
        self.rank * 4 + self.suit.ordinal()
    }

    /// Position of a valid card in the order by rank, then suit: 0 for the
    /// deuce of hearts up to 51 for the ace of diamonds.
    pub open spec fn ordinal(self) -> int {
        self.sort_key() - 9
    }

    /// Strict order of cards: by rank, then by suit.
    pub open spec fn precedes(self, other: Card) -> bool {
        self.sort_key() < other.sort_key()
    }

    /// The card at position `i` of the order by rank, then suit.
    pub open spec fn at_ordinal(i: int) -> Card {
        Card {
            rank: (MIN_RANK + i / 4) as u8,
            suit: if i % 4 == 0 {
                CardSuit::Heart
            } else if i % 4 == 1 {
                CardSuit::Spade
            } else if i % 4 == 2 {
                CardSuit::Club
            } else {
                CardSuit::Diamond
            },
        }
    }

    pub fn is_valid(&self) -> (b: bool)
        ensures
            b == self.valid(),
    {
        MIN_RANK <= self.rank && self.rank <= MAX_RANK
    }

    /// The number cards are ordered by.
    pub fn key(&self) -> (k: u16)
        ensures
            k == self.sort_key(),
    {
        let rank: u16 = self.rank as u16;
        let suit: u16 = self.suit.number() as u16;
        rank * 4 + suit
    }

    /// Whether this card comes strictly before `other` in the card order.
    pub fn lt(&self, other: &Card) -> (b: bool)
        ensures
            b == self.precedes(*other),
    {
        self.key() < other.key()
    }

    /// The card's position in the order by rank, then suit.
    pub fn index(&self) -> (i: u8)
        requires
            self.valid(),
        ensures
            i == self.ordinal(),
            i < 52,
    {
        (self.rank - MIN_RANK) * 4 + (self.suit.number() - 1)
    }

    /// The card that stands at position `i` of the card order.
    pub fn from_index(i: u8) -> (c: Card)
        requires
            i < 52,
        ensures
            c == Card::at_ordinal(i as int),
            c.valid(),
            c.ordinal() == i,
    {
        let suit = match i % 4 {
            0 => CardSuit::Heart,
            1 => CardSuit::Spade,
            2 => CardSuit::Club,
            _ => CardSuit::Diamond,
        };
        Card { rank: MIN_RANK + i / 4, suit }
    }
}

/// Two cards with the same sort key are the same card.
pub proof fn lemma_sort_key_injective(a: Card, b: Card)
    requires
        a.sort_key() == b.sort_key(),
    ensures
        a == b,
{
}

/// Every card in the sequence is valid.
pub open spec fn all_valid(cards: Seq<Card>) -> bool {
    forall|i: int| 0 <= i < cards.len() ==> (#[trigger] cards[i]).valid()
}

/// The sequence is in ascending card order; equal neighbours are allowed.
pub open spec fn sorted(cards: Seq<Card>) -> bool {
    forall|i: int, j: int|
        0 <= i < j < cards.len() ==> (#[trigger] cards[i]).sort_key() <= (
        #[trigger] cards[j]).sort_key()
}

/// The sequence is in strictly ascending card order, so no card repeats.
pub open spec fn strictly_sorted(cards: Seq<Card>) -> bool {
    forall|i: int, j: int|
        0 <= i < j < cards.len() ==> (#[trigger] cards[i]).precedes(#[trigger] cards[j])
}

/// The suit of the `block`-th run of thirteen cards in the deck.
pub open spec fn deck_suit(block: int) -> CardSuit {
    if block == 0 {
        CardSuit::Club
    } else if block == 1 {
        CardSuit::Heart
    } else if block == 2 {
        CardSuit::Spade
    } else {
        CardSuit::Diamond
    }
}

/// The card at position `i` of the deck: clubs, hearts, spades, diamonds,
/// each suit from the deuce up to the ace.
pub open spec fn deck_card(i: int) -> Card {
    Card { rank: (MIN_RANK + i % 13) as u8, suit: deck_suit(i / 13) }
}

/// The sequence is the full deck in its fixed order.
pub open spec fn is_standard_deck(deck: Seq<Card>) -> bool {
    &&& deck.len() == DECK_SIZE
    &&& forall|i: int| 0 <= i < DECK_SIZE ==> #[trigger] deck[i] == deck_card(i)
}

/// The full deck holds 52 valid cards, none of them twice.
pub proof fn lemma_standard_deck_distinct(deck: Seq<Card>)
    requires
        is_standard_deck(deck),
    ensures
        all_valid(deck),
        deck.no_duplicates(),
{
    assert forall|i: int, j: int| 0 <= i < deck.len() && 0 <= j < deck.len() && i != j implies deck[i]
        != deck[j] by {
        assert(deck[i] == deck_card(i));
        assert(deck[j] == deck_card(j));
        if i / 13 == j / 13 {
            assert(i % 13 != j % 13);
        }
    }
}

/// Builds the full deck in its fixed order.
pub fn standard_deck() -> (deck: Vec<Card>)
    ensures
        is_standard_deck(deck@),
{
    let mut deck: Vec<Card> = Vec::new();
    let mut i: u8 = 0;
    while i < 52
        invariant
            i <= 52,
            deck.len() == i,
            forall|k: int| 0 <= k < i ==> #[trigger] deck[k] == deck_card(k),
        decreases 52 - i,
    {
        let suit = match i / 13 {
            0 => CardSuit::Club,
            1 => CardSuit::Heart,
            2 => CardSuit::Spade,
            _ => CardSuit::Diamond,
        };
        deck.push(Card { rank: MIN_RANK + i % 13, suit });
        i += 1;
    }
    deck
}

/// Numbers the cards 1 to 52 suit by suit: hearts, spades, clubs, diamonds,
/// each from the deuce (first) to the ace (thirteenth).
pub open spec fn card_number(card: Card) -> int {
    (card.suit.ordinal() - 1) * 13 + (card.rank - 1)
}

/// The card's number between 1 and 52, suit by suit.
pub fn convert_card_to_int(card: &Card) -> (n: u32)
    requires
        card.valid(),
    ensures
        n == card_number(*card),
        1 <= n <= 52,
{
    let rank: u32 = card.rank as u32;
    match card.suit {
        CardSuit::Heart => rank - 1,
        CardSuit::Spade => 13 + (rank - 1),
        CardSuit::Club => 26 + (rank - 1),
        CardSuit::Diamond => 39 + (rank - 1),
    }
}

} // verus!
