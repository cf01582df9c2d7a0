//! The universe of five-card hands: every hand with its score, in ascending
//! order of score, and the combination table built from that list.

use crate::card::{all_valid, lemma_sort_key_injective, strictly_sorted, Card};
use crate::evaluator::{beats, hand_score, lemma_score_in_band, lemma_score_monotone, score_hand,
    HandData};
use crate::hand::{is_hand, lemma_sorted_form_unique, lemma_strict_is_distinct, HAND_SIZE};
use crate::subsets::{combinations, k_subsets, lemma_choose_five,
    lemma_k_subset_member, lemma_k_subsets_complete, lemma_k_subsets_distinct, lemma_k_subsets_len};
use crate::table::{build_combination_table, fault_at, faultless_before, lists, lists_each_once,
    lists_last, CombinationTable};
use vstd::prelude::*;

verus! {

/// The number of five-card hands in a deck of 52 cards.
pub const HAND_COUNT: usize = 2_598_960;

/// All 52 cards in ascending card order.
pub open spec fn ordered_deck() -> Seq<Card> {
    Seq::new(52, |i: int| Card::at_ordinal(i))
}

/// The cards in ascending order are valid and strictly sorted, and every
/// valid card is among them.
pub proof fn lemma_ordered_deck()
    ensures
        ordered_deck().len() == 52,
        all_valid(ordered_deck()),
        strictly_sorted(ordered_deck()),
        forall|card: Card| card.valid() ==> ordered_deck().contains(card),
{
    let deck = ordered_deck();
    assert forall|card: Card| card.valid() implies deck.contains(card) by {
        let i = card.ordinal();
        assert(0 <= i < 52);
        lemma_sort_key_injective(deck[i], card);
    }
}

/// Builds the sequence of all 52 cards in ascending card order.
pub fn cards_in_order() -> (deck: Vec<Card>)
    ensures
        deck@ == ordered_deck(),
{
    let mut deck: Vec<Card> = Vec::new();
    let mut i: u8 = 0;
    while i < 52
        invariant
            i <= 52,
            deck.len() == i,
            forall|k: int| 0 <= k < i ==> #[trigger] deck[k] == Card::at_ordinal(k),
        decreases 52 - i,
    {
        deck.push(Card::from_index(i));
        i += 1;
    }
    proof {
        assert(deck@ =~= ordered_deck());
    }
    deck
}

/// The scores never fall from one entry to the next.
pub open spec fn ascending_values(list: Seq<HandData>) -> bool {
    forall|i: int, j: int|
        0 <= i < j < list.len() ==> (#[trigger] list[i]).value <= (#[trigger] list[j]).value
}

/// Every entry is a sorted hand with the score the evaluator gives it.
pub open spec fn scored_hands(list: Seq<HandData>) -> bool {
    forall|i: int|
        0 <= i < list.len() ==> is_hand((#[trigger] list[i]).cards@) && list[i].value
            == hand_score(list[i].cards@)
}

/// Every hand is the hand of some entry.
pub open spec fn holds_every_hand(list: Seq<HandData>) -> bool {
    forall|hand: Seq<Card>|
        is_hand(hand) ==> exists|i: int| 0 <= i < list.len() && (#[trigger] list[i]).cards@ == hand
}

/// No two entries hold the same hand.
pub open spec fn holds_no_hand_twice(list: Seq<HandData>) -> bool {
    forall|i: int, j: int|
        0 <= i < j < list.len() ==> (#[trigger] list[i]).cards@ != (#[trigger] list[j]).cards@
}

/// The list holds each of the 2,598,960 hands once, with its score, in
/// ascending order of score.
pub open spec fn is_full_list(list: Seq<HandData>) -> bool {
    &&& list.len() == HAND_COUNT
    &&& ascending_values(list)
    &&& scored_hands(list)
    &&& holds_every_hand(list)
    &&& holds_no_hand_twice(list)
}

/// Five of 52 cards can be picked in 2,598,960 ways.
pub proof fn lemma_hand_count()
    ensures
        k_subsets(ordered_deck(), HAND_SIZE as nat).len() == HAND_COUNT,
{
    lemma_k_subsets_len(ordered_deck(), 5);
    lemma_choose_five(52);
    assert(52 * 51 * 50 * 49 * 48 == 311875200) by (nonlinear_arith);
}

/// Orders the entries by score, ascending.
///
/// Calls `slice::sort_by_key` of the standard library with the score as the
/// key. The contract states what its documentation promises: the slice ends
/// up sorted by the key and holds the same elements as before.
#[verifier::external_body]
fn sort_by_value(list: &mut Vec<HandData>)
    ensures
        ascending_values(final(list)@),
        final(list)@.to_multiset() == old(list)@.to_multiset(),
{
    list.sort_by_key(|entry| entry.value);
}

/// What an ordering by score keeps of a list of scored hands.
proof fn lemma_rearranged_list(before: Seq<HandData>, after: Seq<HandData>)
    requires
        before.to_multiset() == after.to_multiset(),
        scored_hands(before),
        holds_every_hand(before),
        holds_no_hand_twice(before),
    ensures
        after.len() == before.len(),
        scored_hands(after),
        holds_every_hand(after),
        holds_no_hand_twice(after),
{
    broadcast use vstd::seq_lib::to_multiset_len, vstd::seq_lib::to_multiset_contains;

    assert(after.len() == before.len()) by {
        assert(before.to_multiset().len() == before.len());
        assert(after.to_multiset().len() == after.len());
    }
    assert forall|i: int| 0 <= i < after.len() implies is_hand((#[trigger] after[i]).cards@)
        && after[i].value == hand_score(after[i].cards@) by {
        assert(after.contains(after[i]));
        assert(after.to_multiset().count(after[i]) > 0);
        assert(before.contains(after[i]));
        let m = choose|m: int| 0 <= m < before.len() && before[m] == after[i];
        assert(is_hand(before[m].cards@));
    }
    assert forall|hand: Seq<Card>| is_hand(hand) implies exists|i: int|
        0 <= i < after.len() && (#[trigger] after[i]).cards@ == hand by {
        let m = choose|m: int| 0 <= m < before.len() && (#[trigger] before[m]).cards@ == hand;
        assert(before.contains(before[m]));
        assert(before.to_multiset().count(before[m]) > 0);
        assert(after.contains(before[m]));
        let i = choose|i: int| 0 <= i < after.len() && after[i] == before[m];
        assert(after[i].cards@ == hand);
    }
    assert(before.no_duplicates()) by {
        assert forall|i: int, j: int| 0 <= i < before.len() && 0 <= j < before.len() && i
            != j implies before[i] != before[j] by {
            if i < j {
                assert(before[i].cards@ != before[j].cards@);
            } else {
                assert(before[j].cards@ != before[i].cards@);
            }
        }
    }
    before.lemma_multiset_has_no_duplicates();
    after.lemma_multiset_has_no_duplicates_conv();
    assert forall|i: int, j: int| 0 <= i < j < after.len() implies (#[trigger] after[i]).cards@ != (
    #[trigger] after[j]).cards@ by {
        assert(after.contains(after[i]));
        assert(after.to_multiset().count(after[i]) > 0);
        assert(before.contains(after[i]));
        assert(after.contains(after[j]));
        assert(after.to_multiset().count(after[j]) > 0);
        assert(before.contains(after[j]));
        let a = choose|a: int| 0 <= a < before.len() && before[a] == after[i];
        let b = choose|b: int| 0 <= b < before.len() && before[b] == after[j];
        assert(after[i] != after[j]);
        if a < b {
            assert(before[a].cards@ != before[b].cards@);
        } else if b < a {
            assert(before[b].cards@ != before[a].cards@);
        }
    }
}

/// Lists every five-card hand with its score, in ascending order of score.
pub fn generate_hand_values() -> (list: Vec<HandData>)
    ensures
        is_full_list(list@),
{
    let deck = cards_in_order();
    let mut picks = combinations(&deck, HAND_SIZE);
    let ghost subsets = k_subsets(ordered_deck(), HAND_SIZE as nat);
    let ghost all_picks = picks@;
    proof {
        lemma_ordered_deck();
        lemma_hand_count();
    }
    let mut list: Vec<HandData> = Vec::new();
    while picks.len() > 0
        invariant
            subsets == k_subsets(ordered_deck(), HAND_SIZE as nat),
            subsets.len() == HAND_COUNT,
            all_picks.len() == subsets.len(),
            forall|k: int| 0 <= k < all_picks.len() ==> (#[trigger] all_picks[k])@ == subsets[k],
            picks@ == all_picks.take(picks.len() as int),
            picks.len() <= all_picks.len(),
            list.len() == all_picks.len() - picks.len(),
            all_valid(ordered_deck()),
            strictly_sorted(ordered_deck()),
            forall|m: int|
                0 <= m < list.len() ==> (#[trigger] list[m]).cards@ == subsets[subsets.len() - 1
                    - m] && list[m].value == hand_score(list[m].cards@),
        decreases picks.len(),
    {
        let ghost n = picks.len() - 1;
        let pick = picks.pop().unwrap();
        proof {
            assert(pick == all_picks[n]);
            assert(pick@ == subsets[n]);
            lemma_k_subset_member(ordered_deck(), HAND_SIZE as nat, n);
            assert(picks@ =~= all_picks.take(n));
        }
        let value = score_hand(&pick);
        list.push(HandData { cards: pick, value });
    }
    proof {
        let before = list@;
        assert(scored_hands(before)) by {
            assert forall|m: int| 0 <= m < before.len() implies is_hand((#[trigger] before[m]).cards@)
                && before[m].value == hand_score(before[m].cards@) by {
                let n = subsets.len() - 1 - m;
                lemma_k_subset_member(ordered_deck(), HAND_SIZE as nat, n);
            }
        }
        assert(holds_every_hand(before)) by {
            assert forall|hand: Seq<Card>| is_hand(hand) implies exists|i: int|
                0 <= i < before.len() && (#[trigger] before[i]).cards@ == hand by {
                assert forall|j: int| 0 <= j < hand.len() implies ordered_deck().contains(
                    #[trigger] hand[j],
                ) by {
                    assert(hand[j].valid());
                }
                let n = lemma_k_subsets_complete(ordered_deck(), HAND_SIZE as nat, hand);
                let m = subsets.len() - 1 - n;
                assert(before[m].cards@ == hand);
            }
        }
        assert(holds_no_hand_twice(before)) by {
            assert forall|i: int, j: int| 0 <= i < j < before.len() implies (
            #[trigger] before[i]).cards@ != (#[trigger] before[j]).cards@ by {
                lemma_k_subsets_distinct(
                    ordered_deck(),
                    HAND_SIZE as nat,
                    subsets.len() - 1 - j,
                    subsets.len() - 1 - i,
                );
            }
        }
    }
    let ghost before = list@;
    sort_by_value(&mut list);
    proof {
        lemma_rearranged_list(before, list@);
    }
    list
}

/// A full list has no fault, lists each hand once, and lists every hand.
pub proof fn lemma_full_list_builds(list: Seq<HandData>)
    requires
        is_full_list(list),
    ensures
        faultless_before(list, list.len() as int),
        lists_each_once(list),
        forall|hand: Seq<Card>| is_hand(hand) ==> exists|i: int| lists(list, i, hand),
        forall|hand: Seq<Card>, i: int|
            is_hand(hand) && 0 <= i < list.len() && list[i].cards@ == hand ==> #[trigger] lists_last(
                list,
                i,
                hand,
            ),
{
    assert forall|i: int| 0 <= i < list.len() implies #[trigger] fault_at(list, i) is None by {
        lemma_strict_is_distinct(list[i].cards@);
        lemma_score_in_band(list[i].cards@);
        if i > 0 {
            assert(list[i - 1].value <= list[i].value);
        }
    }
    assert forall|i: int, j: int| 0 <= i < j < list.len() implies (#[trigger] list[i]).cards@.to_multiset()
        != (#[trigger] list[j]).cards@.to_multiset() by {
        if list[i].cards@.to_multiset() == list[j].cards@.to_multiset() {
            lemma_strict_is_distinct(list[i].cards@);
            lemma_strict_is_distinct(list[j].cards@);
            lemma_sorted_form_unique(list[i].cards@, list[j].cards@);
        }
    }
    assert forall|hand: Seq<Card>| is_hand(hand) implies exists|i: int| lists(list, i, hand) by {
        let i = choose|i: int| 0 <= i < list.len() && (#[trigger] list[i]).cards@ == hand;
        assert(lists(list, i, hand));
    }
    assert forall|hand: Seq<Card>, i: int|
        is_hand(hand) && 0 <= i < list.len() && list[i].cards@ == hand implies #[trigger] lists_last(
        list,
        i,
        hand,
    ) by {
        assert forall|j: int| i < j < list.len() implies !lists(list, j, hand) by {
            assert(list[i].cards@.to_multiset() != list[j].cards@.to_multiset());
        }
    }
}

/// Tells whether the table holds every hand, by looking each of them up.
pub fn holds_every_hand_of(table: &CombinationTable) -> (b: bool)
    ensures
        b == table.complete(),
{
    let deck = cards_in_order();
    let picks = combinations(&deck, HAND_SIZE);
    let ghost subsets = k_subsets(ordered_deck(), HAND_SIZE as nat);
    proof {
        lemma_ordered_deck();
    }
    let mut i: usize = 0;
    while i < picks.len()
        invariant
            i <= picks.len(),
            subsets == k_subsets(ordered_deck(), HAND_SIZE as nat),
            picks@.len() == subsets.len(),
            forall|k: int| 0 <= k < picks@.len() ==> (#[trigger] picks@[k])@ == subsets[k],
            forall|k: int| 0 <= k < i ==> table@.contains_key(#[trigger] subsets[k]),
            all_valid(ordered_deck()),
            strictly_sorted(ordered_deck()),
        decreases picks.len() - i,
    {
        if table.lookup(&picks[i]).is_none() {
            proof {
                let pick = subsets[i as int];
                lemma_k_subset_member(ordered_deck(), HAND_SIZE as nat, i as int);
                assert(is_hand(pick) && !table@.contains_key(pick));
            }
            return false;
        }
        i += 1;
    }
    proof {
        assert forall|hand: Seq<Card>| is_hand(hand) implies #[trigger] table@.contains_key(hand) by {
            assert forall|j: int| 0 <= j < hand.len() implies ordered_deck().contains(
                #[trigger] hand[j],
            ) by {
                assert(hand[j].valid());
            }
            let n = lemma_k_subsets_complete(ordered_deck(), HAND_SIZE as nat, hand);
            assert(table@.contains_key(subsets[n]));
        }
    }
    true
}

/// In a table that holds two hands with the scores the evaluator gives
/// them, the hand that beats the other has the higher place, and so the
/// higher equity.
pub proof fn lemma_stronger_hand_higher_equity(table: &CombinationTable, a: Seq<Card>, b: Seq<Card>)
    requires
        table.wf(),
        table@.contains_key(a),
        table@.contains_key(b),
        table@[a].score == hand_score(a),
        table@[b].score == hand_score(b),
        beats(a, b),
    ensures
        table@[a].score > table@[b].score,
        table@[a].position > table@[b].position,
{
    table.lemma_wf_view();
    lemma_score_monotone(a, b);
}

/// Builds the table of all five-card hands, each with the score the
/// evaluator gives it and its place in ascending order of score.
pub fn build_full_table() -> (table: CombinationTable)
    ensures
        table.wf(),
        table.complete(),
        table.listed() == HAND_COUNT,
        table.size() == HAND_COUNT,
        table@.dom().len() == HAND_COUNT,
        forall|hand: Seq<Card>| is_hand(hand) ==> (#[trigger] table@[hand]).score == hand_score(hand),
{
    let list = generate_hand_values();
    proof {
        lemma_full_list_builds(list@);
    }
    let table = build_combination_table(&list).unwrap();
    proof {
        assert forall|hand: Seq<Card>| is_hand(hand) implies (#[trigger] table@[hand]).score
            == hand_score(hand) by {
            let i = choose|i: int| 0 <= i < list@.len() && (#[trigger] list@[i]).cards@ == hand;
            assert(lists_last(list@, i, hand));
        }
        assert forall|hand: Seq<Card>| is_hand(hand) implies #[trigger] table@.contains_key(hand) by {
            assert(exists|i: int| lists(list@, i, hand));
        }
        table.lemma_size_is_number_of_hands();
    }
    table
}

} // verus!
