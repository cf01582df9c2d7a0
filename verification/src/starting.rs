//! The starting-hand table: for every pair of hole cards, the lowest, the
//! mean and the highest equity of the hands that the pair takes part in.

use crate::card::{all_valid, Card, CardSuit};
use crate::hand::{ascending, excluding, is_hand, is_hole_pair, join_cards, key_of_pair, views,
    lemma_excluding, lemma_pair_key_injective, lemma_same_cards, lemma_sorted_distinct_is_strict,
    pair_key, remove_cards, sort_cards, HOLE_SIZE};
use crate::rank::{rank_of_score, score_rank};
use crate::selector::{hole_cards_take_part, is_hand_part_of_made_up_hand};
use crate::subsets::{combinations, k_subsets, lemma_choose_three, lemma_k_subsets_complete,
    lemma_k_subsets_len};
use crate::table::{CombinationTable, HandValue};
use crate::universe::{cards_in_order, lemma_ordered_deck, ordered_deck};
use std::collections::HashMap;
use vstd::prelude::*;

verus! {

/// The equities of the hands that a hole pair takes part in. Places are
/// places in the combination table; a place divided by the number of hands
/// listed there is an equity. The mean equity is `position_sum` divided by
/// `hands` and by the number of listed hands.
#[derive(Clone, Copy, Debug, PartialEq, Eq, Structural)]
pub struct StartingEquity {
    pub min_position: u32,
    pub max_position: u32,
    pub position_sum: u64,
    pub hands: u32,
}

impl StartingEquity {
    /// At least one hand was counted, and the mean lies between the lowest
    /// and the highest place.
    pub open spec fn wf(self) -> bool {
        &&& self.hands > 0
        &&& self.min_position <= self.max_position
        &&& self.min_position * self.hands <= self.position_sum
        &&& self.position_sum <= self.max_position * self.hands
    }
}

/// A running count of places: how many, their sum, the lowest and the highest.
pub struct Tally {
    pub count: nat,
    pub sum: nat,
    pub min: nat,
    pub max: nat,
}

/// The five-card sequences that hold both hole cards: the hole cards with
/// each pick of three other cards, in ascending order. They are enumerated
/// in the order of the picks of three.
pub open spec fn completions(hole: Seq<Card>) -> Seq<Seq<Card>> {
    k_subsets(excluding(ordered_deck(), hole), 3).map_values(
        |three: Seq<Card>| ascending(hole + three),
    )
}

/// The test whether the table holds a hand.
pub open spec fn held_by(table: Map<Seq<Card>, HandValue>) -> spec_fn(Seq<Card>) -> bool {
    |hand: Seq<Card>| table.contains_key(hand)
}

/// The hands of the table that hold both hole cards, in the order in which
/// they are enumerated.
pub open spec fn hands_with(table: Map<Seq<Card>, HandValue>, hole: Seq<Card>) -> Seq<Seq<Card>> {
    completions(hole).filter(held_by(table))
}

/// The hands found for a hole pair are the hands of the table that hold
/// both hole cards.
pub proof fn lemma_hands_with_hold_the_pair(
    table: Map<Seq<Card>, HandValue>,
    hole: Seq<Card>,
    hand: Seq<Card>,
)
    requires
        is_hole_pair(hole),
        forall|h: Seq<Card>| #[trigger] table.contains_key(h) ==> is_hand(h),
    ensures
        hands_with(table, hole).contains(hand) <==> table.contains_key(hand) && hand.contains(hole[0])
            && hand.contains(hole[1]),
{
    let all = completions(hole);
    let others = excluding(ordered_deck(), hole);
    let picks = k_subsets(others, 3);
    lemma_ordered_deck();
    lemma_excluding(ordered_deck(), hole);
    crate::hand::lemma_strict_is_distinct(hole);
    if hands_with(table, hole).contains(hand) {
        let found = hands_with(table, hole);
        let i = choose|i: int| 0 <= i < found.len() && found[i] == hand;
        all.lemma_filter_pred(held_by(table), i);
        all.lemma_filter_contains_rev(held_by(table), hand);
        let j = choose|j: int| 0 <= j < all.len() && all[j] == hand;
        let joined = hole + picks[j];
        crate::hand::lemma_ascending_exists(joined);
        lemma_same_cards(hand, joined);
        assert(joined[0] == hole[0] && joined[1] == hole[1]);
        assert(joined.contains(hole[0]) && joined.contains(hole[1]));
    }
    if table.contains_key(hand) && hand.contains(hole[0]) && hand.contains(hole[1]) {
        let three = excluding(hand, hole);
        lemma_excluding(hand, hole);
        crate::hand::lemma_strict_is_distinct(hand);
        let joined = hole + three;
        // the hole cards and the three others are the hand's cards
        assert forall|card: Card| joined.contains(card) <==> hand.contains(card) by {
            if joined.contains(card) {
                let t = choose|t: int| 0 <= t < joined.len() && joined[t] == card;
                if t < 2 {
                    assert(card == hole[0] || card == hole[1]);
                } else {
                    assert(three.contains(three[t - 2]));
                }
            }
            if hand.contains(card) {
                if hole.contains(card) {
                    let t = choose|t: int| 0 <= t < hole.len() && hole[t] == card;
                    assert(joined[t] == card);
                } else {
                    assert(three.contains(card));
                    let t = choose|t: int| 0 <= t < three.len() && three[t] == card;
                    assert(joined[2 + t] == card);
                }
            }
        }
        assert forall|a: int, b: int| 0 <= a < hole.len() && 0 <= b < three.len() implies hole[a]
            != three[b] by {
            assert(three.contains(three[b]));
            assert(hole.contains(hole[a]));
        }
        vstd::seq_lib::lemma_no_dup_in_concat(hole, three);
        crate::hand::lemma_same_members(joined, hand);
        lemma_same_cards(joined, hand);
        assert(three.len() == 3);
        crate::hand::lemma_ascending(joined, hand);
        // the three others are one of the picks
        assert forall|b: int| 0 <= b < three.len() implies others.contains(#[trigger] three[b]) by {
            assert(three.contains(three[b]));
            assert(hand.contains(three[b]));
            let t = choose|t: int| 0 <= t < hand.len() && hand[t] == three[b];
            assert(hand[t].valid());
            assert(ordered_deck().contains(three[b]));
        }
        let j = lemma_k_subsets_complete(others, 3, three);
        assert(all[j] == hand);
        all.lemma_filter_contains(held_by(table), j);
    }
}

/// No two completions of a hole pair are the same.
pub proof fn lemma_completions_distinct(hole: Seq<Card>, i: int, j: int)
    requires
        is_hole_pair(hole),
        0 <= i < j < completions(hole).len(),
    ensures
        completions(hole)[i] != completions(hole)[j],
{
    let others = excluding(ordered_deck(), hole);
    let picks = k_subsets(others, 3);
    lemma_ordered_deck();
    lemma_excluding(ordered_deck(), hole);
    crate::subsets::lemma_k_subsets_distinct(others, 3, i, j);
    crate::subsets::lemma_k_subset_member(others, 3, i);
    crate::subsets::lemma_k_subset_member(others, 3, j);
    let a = picks[i];
    let b = picks[j];
    if completions(hole)[i] == completions(hole)[j] {
        crate::hand::lemma_ascending_exists(hole + a);
        crate::hand::lemma_ascending_exists(hole + b);
        lemma_same_cards(hole + a, hole + b);
        assert forall|card: Card| a.contains(card) <==> b.contains(card) by {
            if a.contains(card) {
                let t = choose|t: int| 0 <= t < a.len() && a[t] == card;
                assert((hole + a)[2 + t] == card);
                assert((hole + b).contains(card));
                let u = choose|u: int| 0 <= u < (hole + b).len() && (hole + b)[u] == card;
                assert(others.contains(a[t]));
                if u < 2 {
                    assert(hole.contains(hole[u]));
                }
                assert(b[u - 2] == card);
            }
            if b.contains(card) {
                let t = choose|t: int| 0 <= t < b.len() && b[t] == card;
                assert((hole + b)[2 + t] == card);
                assert((hole + a).contains(card));
                let u = choose|u: int| 0 <= u < (hole + a).len() && (hole + a)[u] == card;
                assert(others.contains(b[t]));
                if u < 2 {
                    assert(hole.contains(hole[u]));
                }
                assert(a[u - 2] == card);
            }
        }
        crate::hand::lemma_strict_is_distinct(a);
        crate::hand::lemma_strict_is_distinct(b);
        crate::hand::lemma_same_members(a, b);
        crate::hand::lemma_sorted_form_unique(a, b);
    }
}

/// What is kept of a sequence without repeats has no repeats.
proof fn lemma_kept_distinct(hands: Seq<Seq<Card>>, keep: spec_fn(Seq<Card>) -> bool)
    requires
        hands.no_duplicates(),
    ensures
        hands.filter(keep).no_duplicates(),
    decreases hands.len(),
{
    reveal(Seq::filter);
    if hands.len() > 0 {
        let front = hands.drop_last();
        lemma_kept_distinct(front, keep);
        if keep(hands.last()) {
            let kept = front.filter(keep);
            if kept.contains(hands.last()) {
                front.lemma_filter_contains_rev(keep, hands.last());
                let t = choose|t: int| 0 <= t < front.len() && front[t] == hands.last();
                assert(hands[t] == hands[hands.len() - 1]);
            }
            assert forall|a: int, b: int|
                0 <= a < kept.len() + 1 && 0 <= b < kept.len() + 1 && a != b implies kept.push(
                hands.last(),
            )[a] != kept.push(hands.last())[b] by {
                if a < kept.len() && b < kept.len() {
                } else if a < kept.len() {
                    assert(kept.contains(kept[a]));
                } else {
                    assert(kept.contains(kept[b]));
                }
            }
        }
    }
}

/// No hand is found twice for a hole pair.
pub proof fn lemma_hands_with_distinct(table: Map<Seq<Card>, HandValue>, hole: Seq<Card>)
    requires
        is_hole_pair(hole),
    ensures
        hands_with(table, hole).no_duplicates(),
{
    let all = completions(hole);
    assert forall|i: int, j: int| 0 <= i < all.len() && 0 <= j < all.len() && i != j implies all[i]
        != all[j] by {
        if i < j {
            lemma_completions_distinct(hole, i, j);
        } else {
            lemma_completions_distinct(hole, j, i);
        }
    }
    lemma_kept_distinct(all, held_by(table));
}

/// The hole cards take part in the hand, judged by the category of the
/// hand's score.
pub open spec fn qualifies(table: Map<Seq<Card>, HandValue>, hole: Seq<Card>, hand: Seq<Card>) -> bool {
    hole_cards_take_part(hole, score_rank(table[hand].score as int), hand)
}

/// The tally of the places of those hands in which the hole cards take part.
pub open spec fn tally(table: Map<Seq<Card>, HandValue>, hole: Seq<Card>, hands: Seq<Seq<Card>>) -> Tally
    decreases hands.len(),
{
    if hands.len() == 0 {
        Tally { count: 0, sum: 0, min: 0, max: 0 }
    } else {
        let before = tally(table, hole, hands.drop_last());
        let place = table[hands.last()].position as nat;
        if !qualifies(table, hole, hands.last()) {
            before
        } else if before.count == 0 {
            Tally { count: 1, sum: place, min: place, max: place }
        } else {
            Tally {
                count: before.count + 1,
                sum: before.sum + place,
                min: if place < before.min {
                    place
                } else {
                    before.min
                },
                max: if place > before.max {
                    place
                } else {
                    before.max
                },
            }
        }
    }
}

/// The entry that a tally of at least one place gives.
pub open spec fn entry_of(t: Tally) -> StartingEquity {
    StartingEquity {
        min_position: t.min as u32,
        max_position: t.max as u32,
        position_sum: t.sum as u64,
        hands: t.count as u32,
    }
}

/// The starting-hand entry of a hole pair, if the pair takes part in any
/// hand of the table.
#[verifier::opaque]
pub open spec fn starting_entry(table: Map<Seq<Card>, HandValue>, hole: Seq<Card>) -> Option<
    StartingEquity,
> {
    let t = tally(table, hole, hands_with(table, hole));
    if t.count == 0 {
        None
    } else {
        Some(entry_of(t))
    }
}

/// A tally counts no more places than there are hands; its lowest and its
/// highest place are places of hands in which the hole cards take part, no
/// such place lies outside them, and the sum lies between the count times
/// the lowest and the count times the highest place.
pub proof fn lemma_tally(table: Map<Seq<Card>, HandValue>, hole: Seq<Card>, hands: Seq<Seq<Card>>)
    ensures
        tally(table, hole, hands).count <= hands.len(),
        tally(table, hole, hands).sum <= tally(table, hole, hands).count * u32::MAX,
        tally(table, hole, hands).max <= u32::MAX,
        tally(table, hole, hands).min <= tally(table, hole, hands).max,
        tally(table, hole, hands).min * tally(table, hole, hands).count <= tally(
            table,
            hole,
            hands,
        ).sum,
        tally(table, hole, hands).sum <= tally(table, hole, hands).max * tally(
            table,
            hole,
            hands,
        ).count,
        forall|i: int|
            0 <= i < hands.len() && qualifies(table, hole, #[trigger] hands[i]) ==> tally(
                table,
                hole,
                hands,
            ).min <= table[hands[i]].position <= tally(table, hole, hands).max,
        tally(table, hole, hands).count > 0 ==> exists|i: int|
            0 <= i < hands.len() && qualifies(table, hole, #[trigger] hands[i])
                && table[hands[i]].position == tally(table, hole, hands).min,
        tally(table, hole, hands).count > 0 ==> exists|i: int|
            0 <= i < hands.len() && qualifies(table, hole, #[trigger] hands[i])
                && table[hands[i]].position == tally(table, hole, hands).max,
        tally(table, hole, hands).count == 0 <==> forall|i: int|
            0 <= i < hands.len() ==> !qualifies(table, hole, #[trigger] hands[i]),
    decreases hands.len(),
{
    let now = tally(table, hole, hands);
    if hands.len() > 0 {
        let front = hands.drop_last();
        let before = tally(table, hole, front);
        let last = hands.len() - 1;
        let place = table[hands.last()].position as nat;
        lemma_tally(table, hole, front);
        assert(forall|i: int| 0 <= i < front.len() ==> front[i] == hands[i]);
        if qualifies(table, hole, hands.last()) {
            assert(qualifies(table, hole, hands[last]));
            if before.count == 0 {
                assert(now.min * now.count <= now.sum && now.sum <= now.max * now.count)
                    by (nonlinear_arith)
                    requires
                        now.count == 1,
                        now.min == now.sum,
                        now.max == now.sum,
                ;
                assert(now.sum <= now.count * u32::MAX) by (nonlinear_arith)
                    requires
                        now.count == 1,
                        now.sum <= u32::MAX,
                ;
            } else {
                assert(now.min * now.count <= now.sum) by (nonlinear_arith)
                    requires
                        now.count == before.count + 1,
                        now.sum == before.sum + place,
                        before.min * before.count <= before.sum,
                        now.min <= before.min,
                        now.min <= place,
                ;
                assert(now.sum <= now.max * now.count) by (nonlinear_arith)
                    requires
                        now.count == before.count + 1,
                        now.sum == before.sum + place,
                        before.sum <= before.max * before.count,
                        now.max >= before.max,
                        now.max >= place,
                ;
                assert(now.sum <= now.count * u32::MAX) by (nonlinear_arith)
                    requires
                        now.count == before.count + 1,
                        now.sum == before.sum + place,
                        before.sum <= before.count * u32::MAX,
                        place <= u32::MAX,
                ;
                if now.min != place {
                    let i = choose|i: int|
                        0 <= i < front.len() && qualifies(table, hole, #[trigger] front[i])
                            && table[front[i]].position == before.min;
                    assert(qualifies(table, hole, hands[i]));
                }
                if now.max != place {
                    let i = choose|i: int|
                        0 <= i < front.len() && qualifies(table, hole, #[trigger] front[i])
                            && table[front[i]].position == before.max;
                    assert(qualifies(table, hole, hands[i]));
                }
            }
            assert forall|i: int|
                0 <= i < hands.len() && qualifies(table, hole, #[trigger] hands[i]) implies now.min
                <= table[hands[i]].position <= now.max by {
                if i < last {
                    assert(qualifies(table, hole, front[i]));
                }
            }
        } else {
            assert forall|i: int|
                0 <= i < hands.len() && qualifies(table, hole, #[trigger] hands[i]) implies now.min
                <= table[hands[i]].position <= now.max by {
                assert(qualifies(table, hole, front[i]));
            }
            if now.count > 0 {
                let i = choose|i: int|
                    0 <= i < front.len() && qualifies(table, hole, #[trigger] front[i])
                        && table[front[i]].position == before.min;
                assert(qualifies(table, hole, hands[i]));
                let j = choose|j: int|
                    0 <= j < front.len() && qualifies(table, hole, #[trigger] front[j])
                        && table[front[j]].position == before.max;
                assert(qualifies(table, hole, hands[j]));
            } else {
                assert forall|i: int| 0 <= i < hands.len() implies !qualifies(
                    table,
                    hole,
                    #[trigger] hands[i],
                ) by {
                    if i < last {
                        assert(!qualifies(table, hole, front[i]));
                    }
                }
            }
        }
    } else {
        assert(now.min * now.count <= now.sum && now.sum <= now.max * now.count) by (nonlinear_arith)
            requires
                now.count == 0,
                now.sum == 0,
        ;
    }
}

/// A hole pair has an entry exactly when it takes part in a hand of the
/// table. The entry counts the hands it takes part in; its lowest and its
/// highest place are places of such hands, and no such hand has a place
/// outside them.
pub proof fn lemma_starting_entry(table: Map<Seq<Card>, HandValue>, hole: Seq<Card>)
    ensures
        starting_entry(table, hole) is Some <==> exists|i: int|
            0 <= i < hands_with(table, hole).len() && qualifies(
                table,
                hole,
                #[trigger] hands_with(table, hole)[i],
            ),
        starting_entry(table, hole) matches Some(entry) ==> {
            &&& entry.wf()
            &&& entry.hands <= hands_with(table, hole).len() <= MAX_COMPLETIONS
            &&& forall|i: int|
                0 <= i < hands_with(table, hole).len() && qualifies(
                    table,
                    hole,
                    #[trigger] hands_with(table, hole)[i],
                ) ==> entry.min_position <= table[hands_with(table, hole)[i]].position
                    <= entry.max_position
            &&& exists|i: int|
                0 <= i < hands_with(table, hole).len() && qualifies(
                    table,
                    hole,
                    #[trigger] hands_with(table, hole)[i],
                ) && table[hands_with(table, hole)[i]].position == entry.min_position
            &&& exists|i: int|
                0 <= i < hands_with(table, hole).len() && qualifies(
                    table,
                    hole,
                    #[trigger] hands_with(table, hole)[i],
                ) && table[hands_with(table, hole)[i]].position == entry.max_position
        },
{
    reveal(starting_entry);
    let hands = hands_with(table, hole);
    let t = tally(table, hole, hands);
    lemma_tally(table, hole, hands);
    lemma_completions_len(hole);
    completions(hole).lemma_filter_len(held_by(table));
    if t.count > 0 {
        assert(t.sum <= MAX_COMPLETIONS * u32::MAX) by (nonlinear_arith)
            requires
                t.sum <= t.count * u32::MAX,
                t.count <= MAX_COMPLETIONS,
        ;
    }
}

/// A hand that holds both cards of a hole pair and in which they take part
/// whatever the rule: four of a kind for a pair in the hole, else a full
/// house of three cards of the lower rank and two of the higher.
pub open spec fn sure_hand(hole: Seq<Card>) -> Seq<Card> {
    let low = hole[0].rank;
    let high = hole[1].rank;
    if low == high {
        if low == 14 {
            seq![
                Card { rank: 13, suit: CardSuit::Heart },
                Card { rank: low, suit: CardSuit::Heart },
                Card { rank: low, suit: CardSuit::Spade },
                Card { rank: low, suit: CardSuit::Club },
                Card { rank: low, suit: CardSuit::Diamond },
            ]
        } else {
            seq![
                Card { rank: low, suit: CardSuit::Heart },
                Card { rank: low, suit: CardSuit::Spade },
                Card { rank: low, suit: CardSuit::Club },
                Card { rank: low, suit: CardSuit::Diamond },
                Card { rank: 14, suit: CardSuit::Heart },
            ]
        }
    } else {
        let first = if hole[0].suit == CardSuit::Diamond {
            CardSuit::Spade
        } else {
            CardSuit::Heart
        };
        let second = if hole[0].suit == CardSuit::Diamond {
            CardSuit::Club
        } else {
            CardSuit::Spade
        };
        let third = if hole[0].suit == CardSuit::Diamond {
            CardSuit::Diamond
        } else {
            CardSuit::Club
        };
        let other = if hole[1].suit == CardSuit::Heart {
            CardSuit::Spade
        } else {
            hole[1].suit
        };
        seq![
            Card { rank: low, suit: first },
            Card { rank: low, suit: second },
            Card { rank: low, suit: third },
            Card { rank: high, suit: CardSuit::Heart },
            Card { rank: high, suit: other },
        ]
    }
}

/// The table holds every hand, each with the score the evaluator gives it.
pub open spec fn is_full_table(table: &CombinationTable) -> bool {
    &&& table.complete()
    &&& forall|hand: Seq<Card>|
        is_hand(hand) ==> (#[trigger] table@[hand]).score == crate::evaluator::hand_score(hand)
}

/// In a table that holds every hand with the score the evaluator gives it,
/// every hole pair takes part in some hand, so every hole pair has a
/// starting-hand entry.
pub proof fn lemma_every_pair_has_entry(table: &CombinationTable, hole: Seq<Card>)
    requires
        table.wf(),
        is_full_table(table),
        is_hole_pair(hole),
    ensures
        starting_entry(table@, hole) is Some,
{
    let hand = sure_hand(hole);
    let rank = crate::evaluator::hand_rank(hand);
    assert(hole[0].valid() && hole[1].valid() && hole[0].precedes(hole[1]));
    assert(hand.len() == 5);
    assert(is_hand(hand)) by {
        assert(hand[0].valid() && hand[1].valid() && hand[2].valid() && hand[3].valid()
            && hand[4].valid());
        assert(hand[0].precedes(hand[1]) && hand[1].precedes(hand[2]) && hand[2].precedes(hand[3])
            && hand[3].precedes(hand[4]));
    }
    assert(rank == crate::rank::HandRank::FourOfAKind || rank == crate::rank::HandRank::FullHouse);
    assert(hand.contains(hole[0])) by {
        if hole[0].rank == hole[1].rank {
            let i = if hole[0].rank == 14 {
                hole[0].suit.ordinal()
            } else {
                hole[0].suit.ordinal() - 1
            };
            assert(hand[i] == hole[0]);
        } else {
            let i = if hole[0].suit == CardSuit::Diamond {
                2
            } else {
                hole[0].suit.ordinal() - 1
            };
            assert(hand[i] == hole[0]);
        }
    }
    assert(hand.contains(hole[1])) by {
        if hole[0].rank == hole[1].rank {
            let i = if hole[0].rank == 14 {
                hole[1].suit.ordinal()
            } else {
                hole[1].suit.ordinal() - 1
            };
            assert(hand[i] == hole[1]);
        } else {
            let i: int = if hole[1].suit == CardSuit::Heart {
                3
            } else {
                4
            };
            assert(hand[i] == hole[1]);
        }
    }
    table.lemma_wf_view();
    assert(table@.contains_key(hand));
    crate::evaluator::lemma_score_in_band(hand);
    assert(qualifies(table@, hole, hand));
    lemma_hands_with_hold_the_pair(table@, hole, hand);
    let found = hands_with(table@, hole);
    let i = choose|i: int| 0 <= i < found.len() && found[i] == hand;
    assert(qualifies(table@, hole, found[i]));
    lemma_starting_entry(table@, hole);
}

/// The most three-card picks that the cards other than a hole pair allow.
pub const MAX_COMPLETIONS: usize = 22100;

/// No more than 22,100 sequences complete a hole pair.
pub proof fn lemma_completions_len(hole: Seq<Card>)
    ensures
        completions(hole).len() <= MAX_COMPLETIONS,
{
    let others = excluding(ordered_deck(), hole);
    lemma_excluding(ordered_deck(), hole);
    lemma_k_subsets_len(others, 3);
    lemma_choose_three(others.len());
    let n = others.len() as int;
    assert(n * (n - 1) * (n - 2) <= 52 * 51 * 50) by (nonlinear_arith)
        requires
            0 <= n <= 52,
    ;
}

/// Finds the hands of the table that hold both cards of a hole pair, in the
/// order in which the completions of the pair are enumerated.
pub fn find_possible_hands_in_all_combinations_no_ref(
    cards: &Vec<Card>,
    table: &CombinationTable,
) -> (found: Vec<Vec<Card>>)
    requires
        cards.len() == HOLE_SIZE,
    ensures
        views(found@) == hands_with(table@, cards@),
        found.len() <= MAX_COMPLETIONS,
{
    let deck = cards_in_order();
    let others = remove_cards(&deck, cards);
    let threes = combinations(&others, 3);
    let ghost picks = k_subsets(excluding(ordered_deck(), cards@), 3);
    let ghost all = completions(cards@);
    let ghost in_table = held_by(table@);
    let mut found: Vec<Vec<Card>> = Vec::new();
    let mut i: usize = 0;
    proof {
        assert(all.take(0).filter(in_table) =~= views(found@)) by {
            assert(all.take(0) =~= Seq::<Seq<Card>>::empty());
            reveal(Seq::filter);
        }
    }
    while i < threes.len()
        invariant
            i <= threes.len(),
            cards.len() == HOLE_SIZE,
            picks == k_subsets(excluding(ordered_deck(), cards@), 3),
            all == completions(cards@),
            in_table == held_by(table@),
            threes@.len() == picks.len(),
            forall|k: int| 0 <= k < threes@.len() ==> (#[trigger] threes@[k])@ == picks[k],
            views(found@) == all.take(i as int).filter(in_table),
            found.len() <= i,
        decreases threes.len() - i,
    {
        let three = &threes[i];
        let five = join_cards(cards, three);
        let hand = sort_cards(&five);
        proof {
            assert(hand@ == all[i as int]);
            assert(all.take(i + 1) =~= all.take(i as int).push(all[i as int]));
            all.take(i as int).lemma_filter_push(all[i as int], in_table);
        }
        let ghost before = found@;
        if table.lookup(&hand).is_some() {
            found.push(hand);
            proof {
                assert(views(found@) =~= views(before).push(hand@));
            }
        }
        i += 1;
    }
    proof {
        assert(all.take(threes.len() as int) =~= all);
        lemma_completions_len(cards@);
    }
    found
}

/// Finds the hands of the table that hold both referenced cards of a hole
/// pair, in the order in which the completions of the pair are enumerated.
pub fn find_possible_hands_in_all_combinations(cards: &Vec<&Card>, table: &CombinationTable) -> (found:
    Vec<Vec<Card>>)
    requires
        cards.len() == HOLE_SIZE,
    ensures
        views(found@) == hands_with(table@, crate::hand::referenced(cards@)),
        found.len() <= MAX_COMPLETIONS,
{
    let mut hole: Vec<Card> = Vec::new();
    hole.push(*cards[0]);
    hole.push(*cards[1]);
    proof {
        assert(hole@ =~= crate::hand::referenced(cards@));
    }
    find_possible_hands_in_all_combinations_no_ref(&hole, table)
}

/// Computes the starting-hand entry of a hole pair: the lowest and highest
/// place, the sum of places and the number of the table's hands that hold
/// both hole cards and in which the hole cards take part. The result is
/// `None` exactly when there is no such hand.
pub fn starting_hand_entry(hole: &Vec<Card>, table: &CombinationTable) -> (out: Option<StartingEquity>)
    requires
        table.wf(),
        hole.len() == HOLE_SIZE,
    ensures
        out == starting_entry(table@, hole@),
        out matches Some(entry) ==> entry.wf() && entry.max_position < table.listed(),
{
    let found = find_possible_hands_in_all_combinations_no_ref(hole, table);
    let ghost hands = hands_with(table@, hole@);
    let mut count: u32 = 0;
    let mut sum: u64 = 0;
    let mut min: u32 = 0;
    let mut max: u32 = 0;
    let mut i: usize = 0;
    proof {
        table.lemma_wf_view();
        assert(hands.take(0) =~= Seq::<Seq<Card>>::empty());
    }
    while i < found.len()
        invariant
            i <= found.len() <= MAX_COMPLETIONS,
            hole.len() == HOLE_SIZE,
            table.wf(),
            hands == hands_with(table@, hole@),
            views(found@) == hands,
            count == tally(table@, hole@, hands.take(i as int)).count,
            sum == tally(table@, hole@, hands.take(i as int)).sum,
            min == tally(table@, hole@, hands.take(i as int)).min,
            max == tally(table@, hole@, hands.take(i as int)).max,
            count <= i,
            count == 0 ==> sum == 0,
            sum <= i * u32::MAX,
            count > 0 ==> max < table.listed(),
        decreases found.len() - i,
    {
        let hand = &found[i];
        proof {
            assert(hands.take(i + 1).drop_last() =~= hands.take(i as int));
            assert(hands.take(i + 1).last() == hands[i as int]);
            assert(hand@ == hands[i as int]);
            assert(table@.contains_key(hand@)) by {
                hands_in_table(table@, hole@, i as int);
            }
            table.lemma_wf_view();
        }
        let value = table.lookup(hand).unwrap();
        let rank = rank_of_score(value.score);
        if is_hand_part_of_made_up_hand(hole, &rank, hand) {
            if count == 0 {
                min = value.position;
                max = value.position;
            } else {
                if value.position < min {
                    min = value.position;
                }
                if value.position > max {
                    max = value.position;
                }
            }
            count = count + 1;
            sum = sum + value.position as u64;
        }
        i += 1;
    }
    proof {
        assert(hands.take(found.len() as int) =~= hands);
        lemma_tally(table@, hole@, hands);
        reveal(starting_entry);
    }
    if count == 0 {
        None
    } else {
        Some(StartingEquity { min_position: min, max_position: max, position_sum: sum, hands: count })
    }
}

/// Why no starting-hand table could be built.
#[derive(Clone, Copy, Debug, PartialEq, Eq, Structural)]
pub enum StartingTableError {
    /// The hole pair made of the deck's cards at `first` and `second` takes
    /// part in no hand of the combination table.
    NoQualifyingHand { first: usize, second: usize },
}

/// Mapping from hole pairs to the equities of the hands they take part in.
pub struct StartingHandTable {
    pub(crate) entries: HashMap<u64, StartingEquity>,
    pub(crate) total: u32,
}

impl View for StartingHandTable {
    type V = Map<Seq<Card>, StartingEquity>;

    /// The table as a map from hole pairs to their entries.
    open(crate) spec fn view(&self) -> Map<Seq<Card>, StartingEquity> {
        Map::new(
            |hole: Seq<Card>| is_hole_pair(hole) && self.entries@.contains_key(pair_key(hole) as u64),
            |hole: Seq<Card>| self.entries@[pair_key(hole) as u64],
        )
    }
}

impl StartingHandTable {
    /// The number of hands listed in the combination table that the places
    /// refer to: the denominator of every equity.
    pub open(crate) spec fn listed(&self) -> nat {
        self.total as nat
    }

    /// The table's invariant: it holds hole pairs only, every entry counts at
    /// least one hand, its mean lies between its lowest and its highest
    /// place, and places lie below the number of listed hands.
    pub open(crate) spec fn wf(&self) -> bool {
        &&& forall|k: u64| #[trigger]
            self.entries@.contains_key(k) ==> exists|hole: Seq<Card>|
                is_hole_pair(hole) && #[trigger] pair_key(hole) == k
        &&& forall|k: u64| #[trigger]
            self.entries@.contains_key(k) ==> self.entries@[k].wf() && self.entries@[k].max_position
                < self.total
    }

    /// In every entry the mean equity lies between the lowest and the highest
    /// equity, and all three lie below 1.
    pub proof fn lemma_entries_ordered(&self, hole: Seq<Card>)
        requires
            self.wf(),
            self@.contains_key(hole),
        ensures
            self@[hole].hands > 0,
            self@[hole].min_position * self@[hole].hands <= self@[hole].position_sum,
            self@[hole].position_sum <= self@[hole].max_position * self@[hole].hands,
            self@[hole].min_position <= self@[hole].max_position < self.listed(),
    {
    }

    /// The table holds as many hole pairs as its view has keys.
    pub proof fn lemma_size_is_number_of_pairs(&self)
        requires
            self.wf(),
        ensures
            self@.dom().finite(),
            self.size() == self@.dom().len(),
    {
        broadcast use vstd::std_specs::hash::group_hash_axioms;

        let keys = self.entries@.dom();
        let pairs = self@.dom();
        let pair_of = |k: u64| choose|hole: Seq<Card>| is_hole_pair(hole) && pair_key(hole) == k;
        assert forall|k: u64| keys.contains(k) implies is_hole_pair(pair_of(k)) && pair_key(
            pair_of(k),
        ) == k by {
            assert(self.entries@.contains_key(k));
        }
        assert(vstd::relations::injective_on(pair_of, keys));
        assert forall|hole: Seq<Card>| keys.map(pair_of).contains(hole) <==> pairs.contains(hole) by {
            if keys.map(pair_of).contains(hole) {
                let k = choose|k: u64| keys.contains(k) && hole == pair_of(k);
                assert(is_hole_pair(hole) && pair_key(hole) == k);
            }
            if pairs.contains(hole) {
                lemma_pair_key_range(hole);
                let k = pair_key(hole) as u64;
                assert(keys.contains(k));
                lemma_pair_key_injective(pair_of(k), hole);
            }
        }
        assert(keys.map(pair_of) =~= pairs);
        vstd::set_lib::lemma_map_size(keys, pairs, pair_of);
    }

    /// A table without entries, for places among `listed` hands.
    pub fn empty(listed: u32) -> (out: StartingHandTable)
        ensures
            out.wf(),
            out.listed() == listed,
            out@ == Map::<Seq<Card>, StartingEquity>::empty(),
    {
        let out = StartingHandTable { entries: HashMap::new(), total: listed };
        proof {
            assert(out@ =~= Map::<Seq<Card>, StartingEquity>::empty());
        }
        out
    }

    /// Whether an entry may be stored for the cards: the cards are a sorted
    /// hole pair, and the entry is well formed with its places below the
    /// number of listed hands.
    pub open spec fn admits(&self, hole: Seq<Card>, entry: StartingEquity) -> bool {
        is_hole_pair(hole) && entry.wf() && entry.max_position < self.listed()
    }

    /// Stores the entry of a hole pair, in place of an earlier one. What the
    /// table does not admit is not stored, and `false` is returned.
    pub fn insert(&mut self, hole: &Vec<Card>, entry: StartingEquity) -> (stored: bool)
        requires
            old(self).wf(),
        ensures
            final(self).wf(),
            final(self).listed() == old(self).listed(),
            stored == old(self).admits(hole@, entry),
            final(self)@ == if stored {
                old(self)@.insert(hole@, entry)
            } else {
                old(self)@
            },
    {
        broadcast use vstd::std_specs::hash::group_hash_axioms;

        if hole.len() != HOLE_SIZE || !crate::hand::is_strictly_sorted_valid(hole) {
            return false;
        }
        proof {
            assert(entry.min_position * entry.hands <= 0xffff_ffff * 0xffff_ffff) by (nonlinear_arith)
                requires
                    0 <= entry.min_position <= 0xffff_ffff,
                    0 <= entry.hands <= 0xffff_ffff,
            ;
            assert(entry.max_position * entry.hands <= 0xffff_ffff * 0xffff_ffff) by (nonlinear_arith)
                requires
                    0 <= entry.max_position <= 0xffff_ffff,
                    0 <= entry.hands <= 0xffff_ffff,
            ;
        }
        let low: u64 = (entry.min_position as u64) * (entry.hands as u64);
        let high: u64 = (entry.max_position as u64) * (entry.hands as u64);
        let sum_ok = entry.hands > 0 && entry.min_position <= entry.max_position
            && entry.max_position < self.total && low <= entry.position_sum && entry.position_sum
            <= high;
        if !sum_ok {
            return false;
        }
        proof {
            lemma_pair_key_range(hole@);
        }
        let key = key_of_pair(hole);
        let ghost before = *self;
        self.entries.insert(key, entry);
        proof {
            assert forall|k: u64| #[trigger] self.entries@.contains_key(k) implies exists|
                h: Seq<Card>,
            |
                is_hole_pair(h) && #[trigger] pair_key(h) == k by {
                if k == key {
                    assert(is_hole_pair(hole@) && pair_key(hole@) == k);
                } else {
                    assert(before.entries@.contains_key(k));
                }
            }
            assert forall|other: Seq<Card>| #[trigger]
                self@.contains_key(other) == before@.insert(hole@, entry).contains_key(other)
                && (self@.contains_key(other) ==> self@[other] == before@.insert(hole@, entry)[other]) by {
                if is_hole_pair(other) {
                    lemma_pair_key_range(other);
                    if pair_key(other) as u64 == key {
                        lemma_pair_key_injective(other, hole@);
                    }
                }
            }
            assert(self@ =~= before@.insert(hole@, entry));
        }
        true
    }

    /// The number of hands listed in the combination table that the places
    /// refer to.
    pub fn listed_hands(&self) -> (n: u32)
        ensures
            n == self.listed(),
    {
        self.total
    }

    /// The number of hole pairs the table holds.
    pub open(crate) spec fn size(&self) -> nat {
        self.entries@.len()
    }

    /// The number of hole pairs in the table.
    pub fn len(&self) -> (n: usize)
        ensures
            n == self.size(),
    {
        self.entries.len()
    }

    /// Looks a hole pair up. The cards must be given in ascending order;
    /// anything that is not a sorted hole pair is not in the table.
    pub fn lookup(&self, hole: &Vec<Card>) -> (out: Option<StartingEquity>)
        ensures
            out == if self@.contains_key(hole@) {
                Some(self@[hole@])
            } else {
                None
            },
    {
        broadcast use vstd::std_specs::hash::group_hash_axioms;

        if hole.len() != HOLE_SIZE || !crate::hand::is_strictly_sorted_valid(hole) {
            return None;
        }
        proof {
            lemma_pair_key_range(hole@);
        }
        let key = key_of_pair(hole);
        match self.entries.get(&key) {
            Some(entry) => Some(*entry),
            None => None,
        }
    }
}

/// The key of a two-card sequence of valid cards fits in 12 bits.
pub proof fn lemma_pair_key_range(cards: Seq<Card>)
    requires
        cards.len() == HOLE_SIZE,
        all_valid(cards),
    ensures
        0 <= pair_key(cards) < 4096,
{
    assert(cards[0].valid() && cards[1].valid());
}

/// The hole pair made of the deck's cards at `first` and `second`.
pub open spec fn hole_at(deck: Seq<Card>, first: int, second: int) -> Seq<Card> {
    ascending(seq![deck[first], deck[second]])
}

/// The pair of positions `(a, b)` comes before `(i, j)` when all pairs are
/// walked row by row.
pub open spec fn walked_before(a: int, b: int, i: int, j: int) -> bool {
    a < i || (a == i && b < j)
}

/// Two different valid cards, put in order, are a hole pair.
pub proof fn lemma_hole_at(deck: Seq<Card>, first: int, second: int)
    requires
        all_valid(deck),
        deck.no_duplicates(),
        0 <= first < second < deck.len(),
    ensures
        is_hole_pair(hole_at(deck, first, second)),
{
    let two = seq![deck[first], deck[second]];
    let hole = hole_at(deck, first, second);
    assert(two.no_duplicates());
    assert(all_valid(two)) by {
        assert(deck[first].valid() && deck[second].valid());
    }
    assert(crate::card::sorted(hole) && hole.to_multiset() == two.to_multiset()) by {
        let low = if deck[first].sort_key() <= deck[second].sort_key() {
            seq![deck[first], deck[second]]
        } else {
            seq![deck[second], deck[first]]
        };
        assert(crate::card::sorted(low));
        assert(low.to_multiset() =~= two.to_multiset()) by {
            broadcast use vstd::seq_lib::group_to_multiset_ensures;

            assert(two =~= seq![deck[first]].push(deck[second]));
            assert(low =~= seq![low[0]].push(low[1]));
            assert(seq![deck[first]] =~= Seq::<Card>::empty().push(deck[first]));
            assert(seq![deck[second]] =~= Seq::<Card>::empty().push(deck[second]));
        }
    }
    lemma_same_cards(hole, two);
    lemma_sorted_distinct_is_strict(hole);
}

/// The entry of the pair made of the deck's cards at `a` and `b` is stored
/// under the pair's key.
pub open spec fn filled(
    entries: Map<u64, StartingEquity>,
    table: Map<Seq<Card>, HandValue>,
    deck: Seq<Card>,
    a: int,
    b: int,
) -> bool {
    let hole = hole_at(deck, a, b);
    &&& starting_entry(table, hole) is Some
    &&& entries.contains_key(pair_key(hole) as u64)
    &&& Some(entries[pair_key(hole) as u64]) == starting_entry(table, hole)
}

/// The key belongs to a pair of the deck's cards, and what is stored under
/// it is a well-formed entry.
pub open spec fn sound_entry(entries: Map<u64, StartingEquity>, deck: Seq<Card>, total: u32, key: u64) -> bool {
    &&& entries[key].wf()
    &&& entries[key].max_position < total
    &&& exists|a: int, b: int|
        0 <= a < b < deck.len() && #[trigger] pair_key(hole_at(deck, a, b)) == key
}

/// Storing the entry of one more pair keeps what was stored for the others.
proof fn lemma_store_entry(
    before: Map<u64, StartingEquity>,
    table: Map<Seq<Card>, HandValue>,
    deck: Seq<Card>,
    total: u32,
    i: int,
    j: int,
    entry: StartingEquity,
)
    requires
        all_valid(deck),
        deck.no_duplicates(),
        0 <= i < j < deck.len(),
        starting_entry(table, hole_at(deck, i, j)) == Some(entry),
        entry.wf(),
        entry.max_position < total,
        forall|a: int, b: int|
            0 <= a < b < deck.len() && walked_before(a, b, i, j) ==> #[trigger] filled(
                before,
                table,
                deck,
                a,
                b,
            ),
        forall|k: u64| #[trigger] before.contains_key(k) ==> sound_entry(before, deck, total, k),
    ensures
        forall|a: int, b: int|
            0 <= a < b < deck.len() && walked_before(a, b, i, j + 1) ==> #[trigger] filled(
                before.insert(pair_key(hole_at(deck, i, j)) as u64, entry),
                table,
                deck,
                a,
                b,
            ),
        forall|k: u64| #[trigger]
            before.insert(pair_key(hole_at(deck, i, j)) as u64, entry).contains_key(k)
                ==> sound_entry(
                before.insert(pair_key(hole_at(deck, i, j)) as u64, entry),
                deck,
                total,
                k,
            ),
{
    let hole = hole_at(deck, i, j);
    let key = pair_key(hole) as u64;
    let after = before.insert(key, entry);
    lemma_hole_at(deck, i, j);
    lemma_pair_key_range(hole);
    assert forall|a: int, b: int|
        0 <= a < b < deck.len() && walked_before(a, b, i, j + 1) implies #[trigger] filled(
        after,
        table,
        deck,
        a,
        b,
    ) by {
        let other = hole_at(deck, a, b);
        lemma_hole_at(deck, a, b);
        lemma_pair_key_range(other);
        if pair_key(other) as u64 == key {
            lemma_pair_key_injective(other, hole);
        } else {
            assert(walked_before(a, b, i, j));
            assert(filled(before, table, deck, a, b));
        }
    }
    assert forall|k: u64| #[trigger] after.contains_key(k) implies sound_entry(
        after,
        deck,
        total,
        k,
    ) by {
        if k == key {
            assert(pair_key(hole_at(deck, i, j)) == k);
        } else {
            assert(before.contains_key(k));
            assert(sound_entry(before, deck, total, k));
            let (a, b) = choose|a: int, b: int|
                0 <= a < b < deck.len() && #[trigger] pair_key(hole_at(deck, a, b)) == k;
            assert(pair_key(hole_at(deck, a, b)) == k);
        }
    }
}

/// Builds the starting-hand table for every pair of cards of the deck. A
/// pair that takes part in no hand of the combination table is an error;
/// with the table of all hands there is no such pair.
pub fn build_starting_hand_table(deck: &Vec<Card>, table: &CombinationTable) -> (out: Result<
    StartingHandTable,
    StartingTableError,
>)
    requires
        table.wf(),
        all_valid(deck@),
        deck@.no_duplicates(),
    ensures
        out is Ok <==> forall|a: int, b: int|
            0 <= a < b < deck.len() ==> #[trigger] starting_entry(table@, hole_at(deck@, a, b))
                is Some,
        is_full_table(table) ==> out is Ok,
        out matches Err(StartingTableError::NoQualifyingHand { first, second }) ==> {
            &&& first < second < deck.len()
            &&& starting_entry(table@, hole_at(deck@, first as int, second as int)) is None
            &&& forall|a: int, b: int|
                0 <= a < b < deck.len() && walked_before(a, b, first as int, second as int)
                    ==> #[trigger] starting_entry(table@, hole_at(deck@, a, b)) is Some
        },
        out matches Ok(starting) ==> {
            &&& starting.wf()
            &&& starting.listed() == table.listed()
            &&& forall|a: int, b: int|
                0 <= a < b < deck.len() ==> starting@.contains_key(#[trigger] hole_at(deck@, a, b))
                    && Some(starting@[hole_at(deck@, a, b)]) == starting_entry(
                    table@,
                    hole_at(deck@, a, b),
                )
            &&& forall|hole: Seq<Card>| #[trigger]
                starting@.contains_key(hole) ==> exists|a: int, b: int|
                    0 <= a < b < deck.len() && hole == hole_at(deck@, a, b)
        },
{
    broadcast use vstd::std_specs::hash::group_hash_axioms;

    let mut entries: HashMap<u64, StartingEquity> = HashMap::new();
    let total = table.listed_hands();
    let mut i: usize = 0;
    while i < deck.len()
        invariant
            i <= deck.len(),
            table.wf(),
            all_valid(deck@),
            deck@.no_duplicates(),
            total == table.listed(),
            forall|a: int, b: int|
                0 <= a < b < deck.len() && a < i ==> #[trigger] filled(
                    entries@,
                    table@,
                    deck@,
                    a,
                    b,
                ),
            forall|k: u64| #[trigger]
                entries@.contains_key(k) ==> sound_entry(entries@, deck@, total, k),
        decreases deck.len() - i,
    {
        let mut j: usize = i + 1;
        while j < deck.len()
            invariant
                i < deck.len(),
                i < j <= deck.len(),
                table.wf(),
                all_valid(deck@),
                deck@.no_duplicates(),
                total == table.listed(),
                forall|a: int, b: int|
                    0 <= a < b < deck.len() && walked_before(a, b, i as int, j as int)
                        ==> #[trigger] filled(entries@, table@, deck@, a, b),
                forall|k: u64| #[trigger]
                    entries@.contains_key(k) ==> sound_entry(entries@, deck@, total, k),
            decreases deck.len() - j,
        {
            let mut two: Vec<Card> = Vec::new();
            two.push(deck[i]);
            two.push(deck[j]);
            let hole = sort_cards(&two);
            proof {
                assert(two@ =~= seq![deck[i as int], deck[j as int]]);
                assert(hole@ == hole_at(deck@, i as int, j as int));
                lemma_hole_at(deck@, i as int, j as int);
                lemma_pair_key_range(hole@);
            }
            let entry = match starting_hand_entry(&hole, table) {
                Some(entry) => entry,
                None => {
                    proof {
                        if is_full_table(table) {
                            lemma_every_pair_has_entry(table, hole@);
                        }
                        assert forall|a: int, b: int|
                            0 <= a < b < deck.len() && walked_before(
                                a,
                                b,
                                i as int,
                                j as int,
                            ) implies #[trigger] starting_entry(table@, hole_at(deck@, a, b))
                            is Some by {
                            assert(filled(entries@, table@, deck@, a, b));
                        }
                    }
                    return Err(StartingTableError::NoQualifyingHand { first: i, second: j });
                },
            };
            let key = key_of_pair(&hole);
            let ghost before = entries@;
            proof {
                lemma_store_entry(before, table@, deck@, total, i as int, j as int, entry);
            }
            entries.insert(key, entry);
            proof {
                assert(key == pair_key(hole_at(deck@, i as int, j as int)) as u64);
                assert(entries@ == before.insert(key, entry));
            }
            j += 1;
        }
        proof {
            assert forall|a: int, b: int| 0 <= a < b < deck.len() && a < i + 1 implies #[trigger] filled(
                entries@,
                table@,
                deck@,
                a,
                b,
            ) by {
                assert(walked_before(a, b, i as int, j as int));
            }
        }
        i += 1;
    }
    let starting = StartingHandTable { entries, total };
    proof {
        lemma_starting_view(starting, table@, deck@);
    }
    Ok(starting)
}

/// What a table filled for every pair of the deck says on its view.
proof fn lemma_starting_view(starting: StartingHandTable, table: Map<Seq<Card>, HandValue>, deck: Seq<Card>)
    requires
        all_valid(deck),
        deck.no_duplicates(),
        forall|a: int, b: int|
            0 <= a < b < deck.len() ==> #[trigger] filled(starting.entries@, table, deck, a, b),
        forall|k: u64| #[trigger]
            starting.entries@.contains_key(k) ==> sound_entry(
                starting.entries@,
                deck,
                starting.total,
                k,
            ),
    ensures
        starting.wf(),
        forall|a: int, b: int|
            0 <= a < b < deck.len() ==> #[trigger] starting_entry(table, hole_at(deck, a, b))
                is Some,
        forall|a: int, b: int|
            0 <= a < b < deck.len() ==> starting@.contains_key(#[trigger] hole_at(deck, a, b))
                && Some(starting@[hole_at(deck, a, b)]) == starting_entry(table, hole_at(deck, a, b)),
        forall|hole: Seq<Card>| #[trigger]
            starting@.contains_key(hole) ==> exists|a: int, b: int|
                0 <= a < b < deck.len() && hole == hole_at(deck, a, b),
{
    assert forall|k: u64| #[trigger] starting.entries@.contains_key(k) implies (exists|
        hole: Seq<Card>,
    |
        is_hole_pair(hole) && #[trigger] pair_key(hole) == k) && starting.entries@[k].wf()
        && starting.entries@[k].max_position < starting.total by {
        assert(sound_entry(starting.entries@, deck, starting.total, k));
        let (a, b) = choose|a: int, b: int|
            0 <= a < b < deck.len() && #[trigger] pair_key(hole_at(deck, a, b)) == k;
        lemma_hole_at(deck, a, b);
    }
    assert forall|a: int, b: int| 0 <= a < b < deck.len() implies #[trigger] starting_entry(
        table,
        hole_at(deck, a, b),
    ) is Some by {
        assert(filled(starting.entries@, table, deck, a, b));
    }
    assert forall|a: int, b: int| 0 <= a < b < deck.len() implies starting@.contains_key(
        #[trigger] hole_at(deck, a, b),
    ) && Some(starting@[hole_at(deck, a, b)]) == starting_entry(table, hole_at(deck, a, b)) by {
        lemma_hole_at(deck, a, b);
        lemma_pair_key_range(hole_at(deck, a, b));
        assert(filled(starting.entries@, table, deck, a, b));
    }
    assert forall|hole: Seq<Card>| #[trigger] starting@.contains_key(hole) implies exists|
        a: int,
        b: int,
    | 0 <= a < b < deck.len() && hole == hole_at(deck, a, b) by {
        lemma_pair_key_range(hole);
        let k = pair_key(hole) as u64;
        assert(sound_entry(starting.entries@, deck, starting.total, k));
        let (a, b) = choose|a: int, b: int|
            0 <= a < b < deck.len() && #[trigger] pair_key(hole_at(deck, a, b)) == k;
        lemma_hole_at(deck, a, b);
        lemma_pair_key_injective(hole, hole_at(deck, a, b));
    }
}

/// Every hand found for a hole pair is in the table.
pub proof fn hands_in_table(table: Map<Seq<Card>, HandValue>, hole: Seq<Card>, i: int)
    requires
        0 <= i < hands_with(table, hole).len(),
    ensures
        table.contains_key(hands_with(table, hole)[i]),
{
    completions(hole).lemma_filter_pred(held_by(table), i);
}

} // verus!
