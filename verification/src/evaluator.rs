//! Scoring of five-card hands: the category of a hand, the order of hands
//! within a category, and the score that encodes both.

use crate::card::Card;
use crate::hand::{can_form_hand, is_hand, normalize_hand};
use crate::rank::{lemma_score_rank_band, score_rank, HandRank, SCORE_LIMIT};
use vstd::prelude::*;

verus! {

/// A five-card hand with its score.
#[derive(Clone, Debug)]
pub struct HandData {
    pub cards: Vec<Card>,
    pub value: u32,
}

/// All five cards share one suit.
pub open spec fn is_flush(hand: Seq<Card>) -> bool {
    &&& hand[1].suit == hand[0].suit
    &&& hand[2].suit == hand[0].suit
    &&& hand[3].suit == hand[0].suit
    &&& hand[4].suit == hand[0].suit
}

/// The hand is ace, two, three, four, five: the lowest straight.
pub open spec fn is_wheel(hand: Seq<Card>) -> bool {
    &&& hand[0].rank == 2
    &&& hand[1].rank == 3
    &&& hand[2].rank == 4
    &&& hand[3].rank == 5
    &&& hand[4].rank == 14
}

/// The ranks of the sorted hand are five in a row, the ace counting high or low.
pub open spec fn is_straight(hand: Seq<Card>) -> bool {
    ||| is_wheel(hand)
    ||| {
        &&& hand[1].rank == hand[0].rank + 1
        &&& hand[2].rank == hand[0].rank + 2
        &&& hand[3].rank == hand[0].rank + 3
        &&& hand[4].rank == hand[0].rank + 4
    }
}

/// The category of a sorted hand.
pub open spec fn hand_rank(hand: Seq<Card>) -> HandRank {
    let r0 = hand[0].rank;
    let r1 = hand[1].rank;
    let r2 = hand[2].rank;
    let r3 = hand[3].rank;
    let r4 = hand[4].rank;
    if is_flush(hand) && is_straight(hand) {
        if r0 == 10 {
            HandRank::RoyalFlush
        } else {
            HandRank::StraightFlush
        }
    } else if r0 == r3 || r1 == r4 {
        HandRank::FourOfAKind
    } else if (r0 == r2 && r3 == r4) || (r0 == r1 && r2 == r4) {
        HandRank::FullHouse
    } else if is_flush(hand) {
        HandRank::Flush
    } else if is_straight(hand) {
        HandRank::Straight
    } else if r0 == r2 || r1 == r3 || r2 == r4 {
        HandRank::ThreeOfAKind
    } else if (r0 == r1 && r2 == r3) || (r0 == r1 && r3 == r4) || (r1 == r2 && r3 == r4) {
        HandRank::TwoPairs
    } else if r0 == r1 || r1 == r2 || r2 == r3 || r3 == r4 {
        HandRank::Pair
    } else {
        HandRank::HighCard
    }
}

/// The five ranks of a sorted hand in the order that decides between hands of
/// one category: ranks that occur more often first, higher ranks before lower
/// ones. In the lowest straight the ace counts as 1.
pub open spec fn tiebreak(hand: Seq<Card>) -> Seq<int> {
    let r0 = hand[0].rank as int;
    let r1 = hand[1].rank as int;
    let r2 = hand[2].rank as int;
    let r3 = hand[3].rank as int;
    let r4 = hand[4].rank as int;
    match hand_rank(hand) {
        HandRank::FourOfAKind => if r0 == r3 {
            seq![r0, r0, r0, r0, r4]
        } else {
            seq![r4, r4, r4, r4, r0]
        },
        HandRank::FullHouse => if r0 == r2 {
            seq![r0, r0, r0, r4, r4]
        } else {
            seq![r4, r4, r4, r0, r0]
        },
        HandRank::ThreeOfAKind => if r0 == r2 {
            seq![r0, r0, r0, r4, r3]
        } else if r1 == r3 {
            seq![r1, r1, r1, r4, r0]
        } else {
            seq![r4, r4, r4, r1, r0]
        },
        HandRank::TwoPairs => if r0 == r1 && r2 == r3 {
            seq![r2, r2, r0, r0, r4]
        } else if r0 == r1 {
            seq![r4, r4, r0, r0, r2]
        } else {
            seq![r4, r4, r1, r1, r0]
        },
        HandRank::Pair => if r0 == r1 {
            seq![r0, r0, r4, r3, r2]
        } else if r1 == r2 {
            seq![r1, r1, r4, r3, r0]
        } else if r2 == r3 {
            seq![r2, r2, r4, r1, r0]
        } else {
            seq![r3, r3, r2, r1, r0]
        },
        _ => if is_wheel(hand) {
            seq![5, 4, 3, 2, 1]
        } else {
            seq![r4, r3, r2, r1, r0]
        },
    }
}

/// Reads five ranks as the digits of a number in base 15.
pub open spec fn encode(digits: Seq<int>) -> int {
    (((digits[0] * 15 + digits[1]) * 15 + digits[2]) * 15 + digits[3]) * 15 + digits[4]
}

/// The score of a sorted hand: the floor of its category's band plus the
/// encoded order within the category.
pub open spec fn hand_score(hand: Seq<Card>) -> int {
    hand_rank(hand).band_floor() + encode(tiebreak(hand))
}

/// `a` comes after `b` in the order of five-digit sequences by their first
/// difference.
pub open spec fn lex_greater(a: Seq<int>, b: Seq<int>) -> bool {
    ||| a[0] > b[0]
    ||| a[0] == b[0] && a[1] > b[1]
    ||| a[0] == b[0] && a[1] == b[1] && a[2] > b[2]
    ||| a[0] == b[0] && a[1] == b[1] && a[2] == b[2] && a[3] > b[3]
    ||| a[0] == b[0] && a[1] == b[1] && a[2] == b[2] && a[3] == b[3] && a[4] > b[4]
}

/// `a` beats `b` by the rules of poker: a stronger category wins, and within
/// one category the ranks decide, compared in tiebreak order.
pub open spec fn beats(a: Seq<Card>, b: Seq<Card>) -> bool {
    ||| hand_rank(a).level() > hand_rank(b).level()
    ||| hand_rank(a) == hand_rank(b) && lex_greater(tiebreak(a), tiebreak(b))
}

/// Neither hand beats the other: same category, same ranks in tiebreak order.
pub open spec fn ties(a: Seq<Card>, b: Seq<Card>) -> bool {
    hand_rank(a) == hand_rank(b) && tiebreak(a) == tiebreak(b)
}

/// The tiebreak sequence of a hand has five digits between 1 and 14.
pub proof fn lemma_tiebreak_digits(hand: Seq<Card>)
    requires
        is_hand(hand),
    ensures
        tiebreak(hand).len() == 5,
        forall|i: int| 0 <= i < 5 ==> 1 <= #[trigger] tiebreak(hand)[i] <= 14,
{
    assert(hand[0].valid() && hand[1].valid() && hand[2].valid() && hand[3].valid()
        && hand[4].valid());
}

/// Five digits between 0 and 14 encode to a number below 15 to the fifth
/// power, and the encoding keeps the order by first difference.
pub proof fn lemma_encode_order(a: Seq<int>, b: Seq<int>)
    requires
        a.len() == 5,
        b.len() == 5,
        forall|i: int| 0 <= i < 5 ==> 0 <= #[trigger] a[i] <= 14,
        forall|i: int| 0 <= i < 5 ==> 0 <= #[trigger] b[i] <= 14,
    ensures
        0 <= encode(a) < 759375,
        lex_greater(a, b) ==> encode(a) > encode(b),
        encode(a) == encode(b) ==> a == b,
{
    assert(0 <= a[0] <= 14 && 0 <= a[1] <= 14 && 0 <= a[2] <= 14 && 0 <= a[3] <= 14 && 0 <= a[4]
        <= 14);
    assert(0 <= b[0] <= 14 && 0 <= b[1] <= 14 && 0 <= b[2] <= 14 && 0 <= b[3] <= 14 && 0 <= b[4]
        <= 14);
    if encode(a) == encode(b) {
        assert(a =~= b);
    }
}

/// The score of every hand is below 1000 points and lies in the band of the
/// hand's category, so the category read back from the score is the hand's.
pub proof fn lemma_score_in_band(hand: Seq<Card>)
    requires
        is_hand(hand),
    ensures
        0 <= hand_score(hand) < SCORE_LIMIT,
        hand_rank(hand).holds(hand_score(hand)),
        score_rank(hand_score(hand)) == hand_rank(hand),
{
    lemma_tiebreak_digits(hand);
    lemma_encode_order(tiebreak(hand), tiebreak(hand));
    lemma_score_rank_band(hand_score(hand), hand_rank(hand));
}

/// A hand that beats another has the strictly higher score, and only then;
/// hands that tie have equal scores, and only they.
pub proof fn lemma_score_monotone(a: Seq<Card>, b: Seq<Card>)
    requires
        is_hand(a),
        is_hand(b),
    ensures
        beats(a, b) <==> hand_score(a) > hand_score(b),
        ties(a, b) <==> hand_score(a) == hand_score(b),
{
    lemma_tiebreak_digits(a);
    lemma_tiebreak_digits(b);
    lemma_encode_order(tiebreak(a), tiebreak(b));
    lemma_encode_order(tiebreak(b), tiebreak(a));
    lemma_score_in_band(a);
    lemma_score_in_band(b);
    let ta = tiebreak(a);
    let tb = tiebreak(b);
    if hand_rank(a) == hand_rank(b) {
        if !lex_greater(ta, tb) && !lex_greater(tb, ta) {
            assert(ta[0] == tb[0] && ta[1] == tb[1] && ta[2] == tb[2] && ta[3] == tb[3] && ta[4]
                == tb[4]);
            assert(ta =~= tb);
        }
    }
}

/// Classifies a sorted hand.
pub fn classify_hand(hand: &Vec<Card>) -> (rank: HandRank)
    requires
        is_hand(hand@),
    ensures
        rank == hand_rank(hand@),
{
    let r0 = hand[0].rank;
    let r1 = hand[1].rank;
    let r2 = hand[2].rank;
    let r3 = hand[3].rank;
    let r4 = hand[4].rank;
    proof {
        assert(hand[0].valid() && hand[1].valid() && hand[2].valid() && hand[3].valid()
            && hand[4].valid());
    }
    let suit = hand[0].suit;
    let flush = hand[1].suit == suit && hand[2].suit == suit && hand[3].suit == suit
        && hand[4].suit == suit;
    let wheel = r0 == 2 && r1 == 3 && r2 == 4 && r3 == 5 && r4 == 14;
    let straight = wheel || (r1 == r0 + 1 && r2 == r0 + 2 && r3 == r0 + 3 && r4 == r0 + 4);
    if flush && straight {
        if r0 == 10 {
            HandRank::RoyalFlush
        } else {
            HandRank::StraightFlush
        }
    } else if r0 == r3 || r1 == r4 {
        HandRank::FourOfAKind
    } else if (r0 == r2 && r3 == r4) || (r0 == r1 && r2 == r4) {
        HandRank::FullHouse
    } else if flush {
        HandRank::Flush
    } else if straight {
        HandRank::Straight
    } else if r0 == r2 || r1 == r3 || r2 == r4 {
        HandRank::ThreeOfAKind
    } else if (r0 == r1 && r2 == r3) || (r0 == r1 && r3 == r4) || (r1 == r2 && r3 == r4) {
        HandRank::TwoPairs
    } else if r0 == r1 || r1 == r2 || r2 == r3 || r3 == r4 {
        HandRank::Pair
    } else {
        HandRank::HighCard
    }
}

/// Encodes five ranks, most significant first, in base 15.
fn encode_ranks(d0: u8, d1: u8, d2: u8, d3: u8, d4: u8) -> (code: u32)
    requires
        d0 <= 14,
        d1 <= 14,
        d2 <= 14,
        d3 <= 14,
        d4 <= 14,
    ensures
        code == encode(seq![d0 as int, d1 as int, d2 as int, d3 as int, d4 as int]),
        code < 759375,
{
    let a: u32 = d0 as u32;
    let b: u32 = d1 as u32;
    let c: u32 = d2 as u32;
    let d: u32 = d3 as u32;
    let e: u32 = d4 as u32;
    (((a * 15 + b) * 15 + c) * 15 + d) * 15 + e
}

/// Scores a sorted hand.
pub fn score_hand(hand: &Vec<Card>) -> (score: u32)
    requires
        is_hand(hand@),
    ensures
        score == hand_score(hand@),
        score < SCORE_LIMIT,
        score_rank(score as int) == hand_rank(hand@),
{
    let rank = classify_hand(hand);
    let r0 = hand[0].rank;
    let r1 = hand[1].rank;
    let r2 = hand[2].rank;
    let r3 = hand[3].rank;
    let r4 = hand[4].rank;
    proof {
        assert(hand[0].valid() && hand[1].valid() && hand[2].valid() && hand[3].valid()
            && hand[4].valid());
        lemma_score_in_band(hand@);
    }
    let code: u32 = match rank {
        HandRank::FourOfAKind => if r0 == r3 {
            encode_ranks(r0, r0, r0, r0, r4)
        } else {
            encode_ranks(r4, r4, r4, r4, r0)
        },
        HandRank::FullHouse => if r0 == r2 {
            encode_ranks(r0, r0, r0, r4, r4)
        } else {
            encode_ranks(r4, r4, r4, r0, r0)
        },
        HandRank::ThreeOfAKind => if r0 == r2 {
            encode_ranks(r0, r0, r0, r4, r3)
        } else if r1 == r3 {
            encode_ranks(r1, r1, r1, r4, r0)
        } else {
            encode_ranks(r4, r4, r4, r1, r0)
        },
        HandRank::TwoPairs => if r0 == r1 && r2 == r3 {
            encode_ranks(r2, r2, r0, r0, r4)
        } else if r0 == r1 {
            encode_ranks(r4, r4, r0, r0, r2)
        } else {
            encode_ranks(r4, r4, r1, r1, r0)
        },
        HandRank::Pair => if r0 == r1 {
            encode_ranks(r0, r0, r4, r3, r2)
        } else if r1 == r2 {
            encode_ranks(r1, r1, r4, r3, r0)
        } else if r2 == r3 {
            encode_ranks(r2, r2, r4, r1, r0)
        } else {
            encode_ranks(r3, r3, r2, r1, r0)
        },
        HandRank::Straight | HandRank::StraightFlush => if r4 == 14 && r0 == 2 {
            encode_ranks(5, 4, 3, 2, 1)
        } else {
            encode_ranks(r4, r3, r2, r1, r0)
        },
        _ => encode_ranks(r4, r3, r2, r1, r0),
    };
    rank.floor() + code
}

/// Sorts five cards into a hand and scores it. The result is `None` exactly
/// when the cards are not five valid cards without a repeat.
pub fn evaluate_hand(cards: &Vec<Card>) -> (out: Option<HandData>)
    ensures
        out is Some <==> can_form_hand(cards@),
        out matches Some(data) ==> {
            &&& is_hand(data.cards@)
            &&& data.cards@.to_multiset() == cards@.to_multiset()
            &&& data.value == hand_score(data.cards@)
        },
{
    let hand = match normalize_hand(cards) {
        Some(hand) => hand,
        None => {
            return None;
        },
    };
    let value = score_hand(&hand);
    Some(HandData { cards: hand, value })
}

} // verus!
