//! Advice for one decision: before the flop whether the hole cards are
//! playable from the player's position, after the flop the expected value
//! of calling, raising and drawing.

use crate::card::{all_valid, Card};
use crate::estimator::{expected_value, get_hand_equity_and_opponent_range, half_pot_value,
    standing, Amount, Estimate, Ratio};
use crate::hand::{all_cards_valid, ascending, find_duplicate_card, first_repeated, sort_cards};
use crate::position::{is_playable, playable, TablePosition};
use crate::rank::{HandRank, RankHistogram};
use crate::selector::lemma_complete_covers;
use crate::starting::{StartingEquity, StartingHandTable};
use crate::table::CombinationTable;
use vstd::prelude::*;

verus! {

/// A bet with its expected value, both in cents.
#[derive(Clone, Copy, Debug, PartialEq, Eq, Structural)]
pub struct Wager {
    pub bet: u64,
    pub value: Amount,
}

/// A better category that the player can draw to.
#[derive(Clone, Copy, Debug, PartialEq, Eq, Structural)]
pub struct Draw {
    /// The category.
    pub rank: HandRank,
    /// The chance to get there with the next card: outs over cards left.
    pub chance: Ratio,
    /// The expected value of paying for the next card, in cents.
    pub value: Amount,
}

/// The smaller of the two raises that are weighed when there is nothing to
/// call: one dollar.
pub const SMALL_RAISE: u64 = 100;

/// The larger of the two raises that are weighed when there is nothing to
/// call: two dollars.
pub const BIG_RAISE: u64 = 200;

/// Number of opponents whose hole cards are out of the deck.
pub const OPPONENTS: usize = 1;

/// The category of a given strength.
pub open spec fn rank_of_level(level: int) -> HandRank {
    if level <= 1 {
        HandRank::HighCard
    } else if level == 2 {
        HandRank::Pair
    } else if level == 3 {
        HandRank::TwoPairs
    } else if level == 4 {
        HandRank::ThreeOfAKind
    } else if level == 5 {
        HandRank::Straight
    } else if level == 6 {
        HandRank::Flush
    } else if level == 7 {
        HandRank::FullHouse
    } else if level == 8 {
        HandRank::FourOfAKind
    } else if level == 9 {
        HandRank::StraightFlush
    } else {
        HandRank::RoyalFlush
    }
}

/// The category of a given strength.
pub fn rank_for_level(level: u8) -> (rank: HandRank)
    ensures
        rank == rank_of_level(level as int),
        1 <= level <= 10 ==> rank.level() == level,
{
    if level <= 1 {
        HandRank::HighCard
    } else if level == 2 {
        HandRank::Pair
    } else if level == 3 {
        HandRank::TwoPairs
    } else if level == 4 {
        HandRank::ThreeOfAKind
    } else if level == 5 {
        HandRank::Straight
    } else if level == 6 {
        HandRank::Flush
    } else if level == 7 {
        HandRank::FullHouse
    } else if level == 8 {
        HandRank::FourOfAKind
    } else if level == 9 {
        HandRank::StraightFlush
    } else {
        HandRank::RoyalFlush
    }
}

/// The two bets that are weighed: the call and its double where there is
/// something to call, else the small and the big raise.
pub open spec fn bets(call: u64) -> (int, int) {
    if call > 0 {
        (call as int, 2 * call)
    } else {
        (SMALL_RAISE as int, BIG_RAISE as int)
    }
}

/// The expected value of a bet as the estimator's formula gives it.
pub open spec fn value_of_bet(pot: u64, bet: int, chance: Ratio) -> Amount {
    Amount { numerator: (pot * chance.num - bet * chance.den) as i128, denominator: chance.den as u64 }
}

/// The expected value of betting half the pot.
pub open spec fn value_of_half_pot(pot: u64, chance: Ratio) -> Amount {
    Amount {
        numerator: (2 * pot * chance.num - pot * chance.den) as i128,
        denominator: (2 * chance.den) as u64,
    }
}

/// The two bets that are weighed, each with its expected value.
#[derive(Clone, Copy, Debug, PartialEq, Eq, Structural)]
pub struct Wagers {
    /// The call, or the small raise where there is nothing to call.
    pub first: Wager,
    /// The raise to twice the call, or the big raise.
    pub second: Wager,
}

/// Weighs the two bets at the given chance to win.
pub fn wagers_for(pot: u64, call: u64, chance: Ratio) -> (out: Wagers)
    requires
        call <= u64::MAX / 2,
    ensures
        out.first.bet == bets(call).0,
        out.second.bet == bets(call).1,
        out.first.value == value_of_bet(pot, bets(call).0, chance),
        out.second.value == value_of_bet(pot, bets(call).1, chance),
{
    let (first, second): (u64, u64) = if call > 0 {
        (call, 2 * call)
    } else {
        (SMALL_RAISE, BIG_RAISE)
    };
    Wagers {
        first: Wager { bet: first, value: expected_value(pot, first, chance) },
        second: Wager { bet: second, value: expected_value(pot, second, chance) },
    }
}

/// The draw to one category: its chance is the outs over the cards left, and
/// its value that of the call, or of a bet of half the pot where there is
/// nothing to call.
pub open spec fn draw_of(rank: HandRank, outs: int, cards_left: u32, pot: u64, call: u64) -> Draw {
    let chance = Ratio { num: outs as u32, den: cards_left };
    Draw {
        rank,
        chance,
        value: if call == 0 {
            value_of_half_pot(pot, chance)
        } else {
            value_of_bet(pot, call as int, chance)
        },
    }
}

/// The draws to the categories up to a given strength that have outs,
/// weakest category first.
pub open spec fn draws_upto(outs: RankHistogram, level: int, cards_left: u32, pot: u64, call: u64) -> Seq<
    Draw,
>
    decreases level,
{
    if level <= 0 {
        Seq::<Draw>::empty()
    } else {
        let before = draws_upto(outs, level - 1, cards_left, pot, call);
        let rank = rank_of_level(level);
        if outs.count_of(rank) > 0 {
            before.push(draw_of(rank, outs.count_of(rank), cards_left, pot, call))
        } else {
            before
        }
    }
}

/// Lists the draws, weakest category first.
pub fn draws_for(outs: &RankHistogram, cards_left: u32, pot: u64, call: u64) -> (out: Vec<Draw>)
    requires
        outs.total() <= u32::MAX,
    ensures
        out@ == draws_upto(*outs, 10, cards_left, pot, call),
{
    let mut out: Vec<Draw> = Vec::new();
    let mut level: u8 = 1;
    while level <= 10
        invariant
            1 <= level <= 11,
            outs.total() <= u32::MAX,
            out@ == draws_upto(*outs, level - 1, cards_left, pot, call),
        decreases 11 - level,
    {
        let rank = rank_for_level(level);
        let count = outs.count(rank);
        if count > 0 {
            let chance = Ratio { num: count as u32, den: cards_left };
            let value = if call == 0 {
                half_pot_value(pot, chance)
            } else {
                expected_value(pot, call, chance)
            };
            out.push(Draw { rank, chance, value });
        }
        level += 1;
    }
    out
}

/// What is advised before the flop.
#[derive(Clone, Copy, Debug, PartialEq, Eq, Structural)]
pub struct PreflopAdvice {
    /// The equities of the hole cards as a starting hand.
    pub equity: StartingEquity,
    /// Whether the hole cards are opened from the player's position.
    pub playable: bool,
}

/// What is advised from the flop on.
#[derive(Debug)]
pub struct PostflopAdvice {
    /// The player's standing.
    pub estimate: Estimate,
    /// The call, or the small raise where there is nothing to call.
    pub first: Wager,
    /// The raise to twice the call, or the big raise.
    pub second: Wager,
    /// The cards left in the deck once the opponent's hole cards are out.
    pub cards_left: u32,
    /// The draws to better categories, weakest first.
    pub draws: Vec<Draw>,
}

/// The advice for one decision.
#[derive(Debug)]
pub enum Advice {
    Preflop(PreflopAdvice),
    Postflop(PostflopAdvice),
}

/// Why no advice can be given.
#[derive(Clone, Copy, Debug, PartialEq, Eq, Structural)]
pub enum AdviceError {
    /// The same card was given twice; `card` is the first card that occurs
    /// again.
    DuplicateCards { card: Card },
    /// A card has a rank outside 2 to 14.
    InvalidCard,
    /// Fewer than two cards, or three or four.
    NotEnoughCards,
    /// More than seven cards.
    TooManyCards,
    /// The starting-hand table does not hold the hole cards.
    UnknownStartingHand,
}

/// What is wrong with the cards, if anything. Of several faults the first in
/// this order is named: a repeated card, too few cards, too many cards, an
/// invalid card.
pub open spec fn advice_fault(cards: Seq<Card>) -> Option<AdviceError> {
    if !cards.no_duplicates() {
        Some(AdviceError::DuplicateCards { card: first_repeated(cards) })
    } else if cards.len() < 2 || cards.len() == 3 || cards.len() == 4 {
        Some(AdviceError::NotEnoughCards)
    } else if cards.len() > 7 {
        Some(AdviceError::TooManyCards)
    } else if !all_valid(cards) {
        Some(AdviceError::InvalidCard)
    } else {
        None
    }
}

/// The cards left in the deck for the next street: the deck less the
/// community cards, the player's hole cards and the opponent's.
pub open spec fn cards_left_in(deck_size: int, community: int) -> int {
    if deck_size >= community + 2 + 2 * OPPONENTS {
        deck_size - community - 2 - 2 * OPPONENTS
    } else {
        0
    }
}

/// The advice before the flop.
pub open spec fn preflop_of(
    starting: Map<Seq<Card>, StartingEquity>,
    position: TablePosition,
    cards: Seq<Card>,
) -> Result<PreflopAdvice, AdviceError> {
    let hole = ascending(cards);
    if starting.contains_key(hole) {
        Ok(PreflopAdvice { equity: starting[hole], playable: playable(position, hole) })
    } else {
        Err(AdviceError::UnknownStartingHand)
    }
}

/// Advises on two hole cards before the flop.
pub fn preflop_advice(cards: &Vec<Card>, position: TablePosition, starting: &StartingHandTable) -> (out:
    Result<PreflopAdvice, AdviceError>)
    requires
        cards.len() == 2,
    ensures
        out == preflop_of(starting@, position, cards@),
{
    let hole = sort_cards(cards);
    proof {
        crate::hand::lemma_same_cards(hole@, cards@);
    }
    match starting.lookup(&hole) {
        Some(equity) => Ok(PreflopAdvice { equity, playable: is_playable(position, &hole) }),
        None => Err(AdviceError::UnknownStartingHand),
    }
}

/// Advises on one decision. The first two cards are the player's hole
/// cards, the others the community cards. Amounts are in cents.
///
/// With two cards the advice is whether to play them from the position. With
/// five to seven cards it holds the player's standing, the expected value of
/// two bets won with the chance of the relative equity, and the draws.
pub fn calculcate_hand_ev(
    input_cards: &Vec<Card>,
    total_pot: u64,
    call_amount: u64,
    my_position: TablePosition,
    card_deck: &Vec<Card>,
    starting_hands: &StartingHandTable,
    combinations: &CombinationTable,
    threshold: Ratio,
) -> (out: Result<Advice, AdviceError>)
    requires
        combinations.wf(),
        combinations.complete(),
        all_valid(card_deck@),
        card_deck@.no_duplicates(),
        card_deck.len() <= 52,
        call_amount <= u64::MAX / 2,
    ensures
        match advice_fault(input_cards@) {
            Some(fault) => out matches Err(e) && e == fault,
            None => if input_cards.len() == 2 {
                match preflop_of(starting_hands@, my_position, input_cards@) {
                    Ok(advice) => out matches Ok(Advice::Preflop(given)) && given == advice,
                    Err(fault) => out matches Err(e) && e == fault,
                }
            } else {
                &&& out matches Ok(Advice::Postflop(given))
                &&& given.estimate == standing(
                    combinations@,
                    starting_hands@,
                    starting_hands.listed(),
                    threshold,
                    card_deck@,
                    input_cards@.take(2),
                    input_cards@.skip(2),
                )
                &&& given.first.bet == bets(call_amount).0
                &&& given.second.bet == bets(call_amount).1
                &&& given.first.value == value_of_bet(
                    total_pot,
                    bets(call_amount).0,
                    given.estimate.relative_equity,
                )
                &&& given.second.value == value_of_bet(
                    total_pot,
                    bets(call_amount).1,
                    given.estimate.relative_equity,
                )
                &&& given.cards_left == cards_left_in(
                    card_deck.len() as int,
                    input_cards.len() - 2,
                )
                &&& given.draws@ == if given.cards_left == 0 {
                    Seq::<Draw>::empty()
                } else {
                    draws_upto(given.estimate.outs, 10, given.cards_left, total_pot, call_amount)
                }
            },
        },
{
    match find_duplicate_card(input_cards) {
        Some(card) => {
            return Err(AdviceError::DuplicateCards { card });
        },
        None => {},
    }
    let count = input_cards.len();
    if count < 2 || count == 3 || count == 4 {
        return Err(AdviceError::NotEnoughCards);
    }
    if count > 7 {
        return Err(AdviceError::TooManyCards);
    }
    if !all_cards_valid(input_cards) {
        return Err(AdviceError::InvalidCard);
    }
    if count == 2 {
        return match preflop_advice(input_cards, my_position, starting_hands) {
            Ok(advice) => Ok(Advice::Preflop(advice)),
            Err(e) => Err(e),
        };
    }
    let mut hand: Vec<Card> = Vec::new();
    hand.push(input_cards[0]);
    hand.push(input_cards[1]);
    let mut community: Vec<Card> = Vec::new();
    let mut i: usize = 2;
    proof {
        assert(hand@ =~= input_cards@.take(2));
        assert(input_cards@.skip(2).take(0) =~= community@);
    }
    while i < count
        invariant
            2 <= i <= count,
            count == input_cards.len(),
            community@ == input_cards@.skip(2).take(i - 2),
        decreases count - i,
    {
        community.push(input_cards[i]);
        proof {
            assert(input_cards@.skip(2).take(i - 2).push(input_cards@[i as int]) =~= input_cards@.skip(
                2,
            ).take(i + 1 - 2));
        }
        i += 1;
    }
    proof {
        assert(input_cards@.skip(2).take(count - 2) =~= input_cards@.skip(2));
        assert(hand@ + community@ =~= input_cards@);
        lemma_complete_covers(combinations, card_deck@ + hand@ + community@);
    }
    let estimate = get_hand_equity_and_opponent_range(
        &hand,
        &community,
        combinations,
        starting_hands,
        card_deck,
        threshold,
    );
    let wagers = wagers_for(total_pot, call_amount, estimate.relative_equity);
    let taken = community.len() + 2 + 2 * OPPONENTS;
    let cards_left: u32 = if card_deck.len() >= taken {
        (card_deck.len() - taken) as u32
    } else {
        0
    };
    let draws = if cards_left == 0 {
        Vec::new()
    } else {
        proof {
            lemma_outs_bound(
                combinations@,
                starting_hands@,
                starting_hands.listed(),
                threshold,
                card_deck@,
                hand@,
                community@,
            );
        }
        draws_for(&estimate.outs, cards_left, total_pot, call_amount)
    };
    Ok(
        Advice::Postflop(
            PostflopAdvice {
                estimate,
                first: wagers.first,
                second: wagers.second,
                cards_left,
                draws,
            },
        ),
    )
}

/// The outs are no more than the cards of the deck.
pub proof fn lemma_outs_bound(
    table: Map<Seq<Card>, crate::table::HandValue>,
    starting: Map<Seq<Card>, StartingEquity>,
    listed: nat,
    threshold: Ratio,
    deck: Seq<Card>,
    hole: Seq<Card>,
    community: Seq<Card>,
)
    requires
        all_valid(deck),
        deck.no_duplicates(),
    ensures
        standing(table, starting, listed, threshold, deck, hole, community).outs.total()
            <= deck.len(),
{
    let value = crate::selector::showdown_value(table, hole, community);
    let current = crate::selector::showdown_rank(table, hole, community);
    let cards = crate::estimator::unseen(deck, hole, community);
    crate::estimator::lemma_unseen(deck, hole, community);
    crate::estimator::lemma_outs_total(table, hole, community, current, cards);
}

} // verus!
