//! Picks the best five-card hand a player can form from hole cards and
//! community cards, and tells whether the hole cards take part in it.

use crate::card::{all_valid, strictly_sorted, Card};
use crate::hand::{ascending, common_count, copy_cards, excluding,
    find_common_cards_in_pack_no_ref, is_hand, join_cards,
    lemma_same_cards, lemma_sorted_distinct_is_strict, remove_cards, sort_cards,
    HAND_SIZE, HOLE_SIZE};
use crate::rank::{rank_of_score, score_rank, HandRank};
use crate::subsets::{combinations, k_subsets, lemma_k_subset_member, lemma_k_subsets_ends};
use crate::table::{CombinationTable, HandValue};
use vstd::prelude::*;

verus! {

/// The best hand of a player: its score, its place in the table, its five
/// cards in ascending order, and the category that is the player's own. That
/// is the category of the score where the hole cards take part in the hand,
/// and a high card where they do not: a pair that lies on the board is not
/// the player's pair. The category of the score itself is `rank_of_score` of
/// the score.
#[derive(Debug)]
pub struct BestHand {
    pub score: u32,
    pub position: u32,
    pub rank: HandRank,
    pub cards: Vec<Card>,
}

/// How many of the cards have the given rank.
pub open spec fn rank_count(cards: Seq<Card>, rank: u8) -> nat
    decreases cards.len(),
{
    if cards.len() == 0 {
        0
    } else {
        rank_count(cards.drop_last(), rank) + if cards.last().rank == rank {
            1nat
        } else {
            0nat
        }
    }
}

/// The number of pairs of one hole card and one other card that share a rank.
pub open spec fn rank_matches(hole: Seq<Card>, others: Seq<Card>) -> nat {
    rank_count(others, hole[0].rank) + rank_count(others, hole[1].rank)
}

/// Whether the hole cards take part in a made hand of category `rank`.
/// `combination` holds the cards of the made hand; the cards other than the
/// hole cards are the ones the hole cards are matched against.
///
/// A pair counts when the hole cards are a pair themselves or one of them
/// shares its rank with another card. Two pairs and three of a kind count
/// when exactly two rank matches exist between hole cards and other cards.
/// Every other category counts always.
pub open spec fn hole_cards_take_part(hole: Seq<Card>, rank: HandRank, combination: Seq<Card>) -> bool {
    let others = excluding(combination, hole);
    match rank {
        HandRank::Pair => hole[0].rank == hole[1].rank || rank_matches(hole, others) > 0,
        HandRank::TwoPairs | HandRank::ThreeOfAKind => rank_matches(hole, others) == 2,
        _ => true,
    }
}

/// Counts the cards of the given rank.
fn count_rank(cards: &Vec<Card>, rank: u8) -> (n: usize)
    ensures
        n == rank_count(cards@, rank),
        n <= cards.len(),
{
    let mut n: usize = 0;
    let mut i: usize = 0;
    while i < cards.len()
        invariant
            i <= cards.len(),
            n == rank_count(cards@.take(i as int), rank),
            n <= i,
        decreases cards.len() - i,
    {
        proof {
            assert(cards@.take(i + 1).drop_last() =~= cards@.take(i as int));
        }
        if cards[i].rank == rank {
            n += 1;
        }
        i += 1;
    }
    proof {
        assert(cards@.take(cards.len() as int) =~= cards@);
    }
    n
}

/// Tells whether the hole cards `hand` take part in a made hand of category
/// `hand_rank` whose cards are `combination`.
pub fn is_hand_part_of_made_up_hand(
    hand: &Vec<Card>,
    hand_rank: &HandRank,
    combination: &Vec<Card>,
) -> (b: bool)
    requires
        hand.len() == HOLE_SIZE,
    ensures
        b == hole_cards_take_part(hand@, *hand_rank, combination@),
{
    let others = remove_cards(combination, hand);
    match hand_rank {
        HandRank::Pair => {
            if hand[0].rank == hand[1].rank {
                true
            } else {
                count_rank(&others, hand[0].rank) > 0 || count_rank(&others, hand[1].rank) > 0
            }
        },
        HandRank::TwoPairs | HandRank::ThreeOfAKind => {
            let first = count_rank(&others, hand[0].rank);
            let second = count_rank(&others, hand[1].rank);
            first <= 2 && second <= 2 && first + second == 2
        },
        _ => true,
    }
}

/// The category that is the player's own: the category of the made hand
/// where the hole cards take part in it, else a high card.
pub open spec fn own_rank(hole: Seq<Card>, rank: HandRank, combination: Seq<Card>) -> HandRank {
    if hole_cards_take_part(hole, rank, combination) {
        rank
    } else {
        HandRank::HighCard
    }
}

/// Every card of `hand` occurs among `cards`.
pub open spec fn drawn_from(hand: Seq<Card>, cards: Seq<Card>) -> bool {
    forall|i: int| 0 <= i < hand.len() ==> cards.contains(#[trigger] hand[i])
}

/// The table holds every hand that can be formed from `cards`.
pub open spec fn covers(table: Map<Seq<Card>, HandValue>, cards: Seq<Card>) -> bool {
    forall|hand: Seq<Card>|
        is_hand(hand) && #[trigger] drawn_from(hand, cards) ==> table.contains_key(hand)
}

/// A table that covers some cards covers any selection of them.
pub proof fn lemma_covers_fewer(table: Map<Seq<Card>, HandValue>, cards: Seq<Card>, fewer: Seq<Card>)
    requires
        covers(table, cards),
        forall|i: int| 0 <= i < fewer.len() ==> cards.contains(#[trigger] fewer[i]),
    ensures
        covers(table, fewer),
{
    assert forall|hand: Seq<Card>| is_hand(hand) && #[trigger] drawn_from(hand, fewer) implies table.contains_key(
        hand,
    ) by {
        assert forall|k: int| 0 <= k < hand.len() implies cards.contains(#[trigger] hand[k]) by {
            assert(fewer.contains(hand[k]));
            let x = choose|x: int| 0 <= x < fewer.len() && fewer[x] == hand[k];
            assert(cards.contains(fewer[x]));
        }
        assert(drawn_from(hand, cards));
    }
}

/// A complete table holds every hand that can be formed from any cards.
pub proof fn lemma_complete_covers(table: &CombinationTable, cards: Seq<Card>)
    requires
        table.complete(),
    ensures
        covers(table@, cards),
{
}

/// The pick holds at least one of the hole cards.
pub open spec fn uses_hole(hole: Seq<Card>, pick: Seq<Card>) -> bool {
    common_count(hole, pick) > 0
}

/// The five-card picks of a player's cards, taken from the cards in
/// ascending order.
pub open spec fn candidates(hole: Seq<Card>, community: Seq<Card>) -> Seq<Seq<Card>> {
    k_subsets(ascending(hole + community), HAND_SIZE as nat)
}

/// The picks of a player's cards are the hands that the cards form.
pub proof fn lemma_candidates_are_the_hands(hole: Seq<Card>, community: Seq<Card>, hand: Seq<Card>)
    requires
        all_valid(hole + community),
        (hole + community).no_duplicates(),
    ensures
        candidates(hole, community).contains(hand) <==> is_hand(hand) && drawn_from(
            hand,
            hole + community,
        ),
{
    let cards = hole + community;
    let ordered = ascending(cards);
    let picks = candidates(hole, community);
    crate::hand::lemma_ascending_exists(cards);
    lemma_same_cards(ordered, cards);
    lemma_sorted_distinct_is_strict(ordered);
    if picks.contains(hand) {
        let i = choose|i: int| 0 <= i < picks.len() && picks[i] == hand;
        lemma_k_subset_member(ordered, HAND_SIZE as nat, i);
        assert forall|j: int| 0 <= j < hand.len() implies (#[trigger] hand[j]).valid()
            && cards.contains(hand[j]) by {
            assert(ordered.contains(hand[j]));
            let t = choose|t: int| 0 <= t < ordered.len() && ordered[t] == hand[j];
            assert(ordered[t].valid());
        }
    }
    if is_hand(hand) && drawn_from(hand, cards) {
        assert forall|j: int| 0 <= j < hand.len() implies ordered.contains(#[trigger] hand[j]) by {
            assert(cards.contains(hand[j]));
        }
        let i = crate::subsets::lemma_k_subsets_complete(ordered, HAND_SIZE as nat, hand);
        assert(picks[i] == hand);
    }
}

/// The pick at `best` holds a hole card, no pick with a hole card scores
/// higher, and every earlier pick with a hole card scores lower.
pub open spec fn is_best_candidate(
    table: Map<Seq<Card>, HandValue>,
    hole: Seq<Card>,
    picks: Seq<Seq<Card>>,
    best: int,
) -> bool {
    &&& 0 <= best < picks.len()
    &&& uses_hole(hole, picks[best])
    &&& forall|j: int|
        0 <= j < picks.len() && uses_hole(hole, #[trigger] picks[j]) ==> table[picks[j]].score
            <= table[picks[best]].score
    &&& forall|j: int|
        0 <= j < best && uses_hole(hole, #[trigger] picks[j]) ==> table[picks[j]].score
            < table[picks[best]].score
}

/// Only one pick is the best candidate.
pub proof fn lemma_best_candidate_unique(
    table: Map<Seq<Card>, HandValue>,
    hole: Seq<Card>,
    picks: Seq<Seq<Card>>,
    a: int,
    b: int,
)
    requires
        is_best_candidate(table, hole, picks, a),
        is_best_candidate(table, hole, picks, b),
    ensures
        a == b,
{
    if a < b {
        assert(uses_hole(hole, picks[a]));
    } else if b < a {
        assert(uses_hole(hole, picks[b]));
    }
}

/// The best hand of a player: among the five-card picks that hold a hole
/// card, the one with the highest score, and of several such the first.
pub open spec fn best_candidate(
    table: Map<Seq<Card>, HandValue>,
    hole: Seq<Card>,
    community: Seq<Card>,
) -> Seq<Card> {
    let picks = candidates(hole, community);
    picks[choose|best: int| is_best_candidate(table, hole, picks, best)]
}

/// No hand that the player's cards form with a hole card scores higher than
/// the best hand.
pub proof fn lemma_best_hand_is_highest(
    table: Map<Seq<Card>, HandValue>,
    hole: Seq<Card>,
    community: Seq<Card>,
    best: int,
    hand: Seq<Card>,
)
    requires
        all_valid(hole + community),
        (hole + community).no_duplicates(),
        is_best_candidate(table, hole, candidates(hole, community), best),
        is_hand(hand),
        drawn_from(hand, hole + community),
        uses_hole(hole, hand),
    ensures
        best_candidate(table, hole, community) == candidates(hole, community)[best],
        table[hand].score <= table[best_candidate(table, hole, community)].score,
{
    let picks = candidates(hole, community);
    lemma_candidates_are_the_hands(hole, community, hand);
    let i = choose|i: int| 0 <= i < picks.len() && picks[i] == hand;
    assert(uses_hole(hole, picks[i]));
    let chosen = choose|b: int| is_best_candidate(table, hole, picks, b);
    lemma_best_candidate_unique(table, hole, picks, chosen, best);
}

/// What the table says of a player's best hand on a board.
pub open spec fn showdown_value(
    table: Map<Seq<Card>, HandValue>,
    hole: Seq<Card>,
    board: Seq<Card>,
) -> HandValue {
    table[best_candidate(table, hole, board)]
}

/// The category of a player's best hand on a board that is the player's own.
pub open spec fn showdown_rank(
    table: Map<Seq<Card>, HandValue>,
    hole: Seq<Card>,
    board: Seq<Card>,
) -> HandRank {
    own_rank(
        hole,
        score_rank(showdown_value(table, hole, board).score as int),
        best_candidate(table, hole, board),
    )
}

/// A pick holds a hole card when one of the hole cards is among its cards.
pub proof fn lemma_uses_hole(hole: Seq<Card>, pick: Seq<Card>)
    requires
        hole.len() == HOLE_SIZE,
    ensures
        uses_hole(hole, pick) <==> pick.contains(hole[0]) || pick.contains(hole[1]),
{
    reveal_with_fuel(common_count, 3);
    assert(hole.drop_last().drop_last().len() == 0);
    assert(hole.drop_last().last() == hole[0]);
    assert(hole.last() == hole[1]);
}

/// Finds the best hand that the hole cards and the community cards form.
/// With five cards in all that is the five cards; with six or seven it is
/// the highest-scoring five-card pick that holds at least one hole card, and
/// of several with that score the first in the order of enumeration.
pub fn evaluate_best_hand(hole: &Vec<Card>, community: &Vec<Card>, table: &CombinationTable) -> (best:
    BestHand)
    requires
        table.wf(),
        hole.len() == HOLE_SIZE,
        3 <= community.len() <= 5,
        all_valid(hole@ + community@),
        (hole@ + community@).no_duplicates(),
        covers(table@, hole@ + community@),
    ensures
        best.cards@ == best_candidate(table@, hole@, community@),
        exists|index: int|
            is_best_candidate(table@, hole@, candidates(hole@, community@), index)
                && #[trigger] candidates(hole@, community@)[index] == best.cards@,
        table@.contains_key(best.cards@),
        best.score == table@[best.cards@].score,
        best.position == table@[best.cards@].position,
        best.rank == own_rank(hole@, score_rank(best.score as int), best.cards@),
        best.rank == showdown_rank(table@, hole@, community@),
{
    let all = join_cards(hole, community);
    let ordered = sort_cards(&all);
    let ghost picks = candidates(hole@, community@);
    proof {
        lemma_same_cards(ordered@, all@);
        lemma_sorted_distinct_is_strict(ordered@);
        table.lemma_wf_view();
        lemma_k_subsets_ends(ordered@, HAND_SIZE as nat);
        assert(picks == k_subsets(ordered@, HAND_SIZE as nat));
    }
    let found = combinations(&ordered, HAND_SIZE);
    let mut best_index: usize = 0;
    let mut best_value = HandValue { score: 0, position: 0 };
    let mut any: bool = false;
    let mut i: usize = 0;
    while i < found.len()
        invariant
            i <= found.len(),
            found@.len() == picks.len(),
            picks == k_subsets(ordered@, HAND_SIZE as nat),
            forall|k: int| 0 <= k < found@.len() ==> (#[trigger] found@[k])@ == picks[k],
            hole.len() == HOLE_SIZE,
            strictly_sorted(ordered@),
            all_valid(ordered@),
            forall|card: Card| ordered@.contains(card) <==> (hole@ + community@).contains(card),
            covers(table@, hole@ + community@),
            !any ==> forall|j: int| 0 <= j < i ==> !uses_hole(hole@, #[trigger] picks[j]),
            any ==> {
                &&& best_index < i
                &&& uses_hole(hole@, picks[best_index as int])
                &&& table@.contains_key(picks[best_index as int])
                &&& best_value == table@[picks[best_index as int]]
                &&& forall|j: int|
                    0 <= j < i && uses_hole(hole@, #[trigger] picks[j]) ==> table@[picks[j]].score
                        <= best_value.score
                &&& forall|j: int|
                    0 <= j < best_index && uses_hole(hole@, #[trigger] picks[j])
                        ==> table@[picks[j]].score < best_value.score
            },
        decreases found.len() - i,
    {
        let pick = &found[i];
        proof {
            lemma_k_subset_member(ordered@, HAND_SIZE as nat, i as int);
            let p = picks[i as int];
            assert(pick@ == p);
            assert(drawn_from(p, hole@ + community@));
            assert(table@.contains_key(p));
        }
        if find_common_cards_in_pack_no_ref(hole, pick) != 0 {
            let value = table.lookup(pick).unwrap();
            if !any || value.score > best_value.score {
                best_index = i;
                best_value = value;
                any = true;
            }
        }
        i += 1;
    }
    proof {
        // the first or the last pick holds a hole card
        let first = picks.first();
        let last = picks.last();
        lemma_uses_hole(hole@, first);
        lemma_uses_hole(hole@, last);
        assert((hole@ + community@)[0] == hole@[0]);
        assert((hole@ + community@).contains(hole@[0]));
        assert(ordered@.contains(hole@[0]));
        let t = choose|t: int| 0 <= t < ordered@.len() && ordered@[t] == hole@[0];
        if t < 5 {
            assert(first[t] == hole@[0]);
            assert(uses_hole(hole@, picks[0]));
        } else {
            assert(last[t - (ordered@.len() - 5)] == hole@[0]);
            assert(uses_hole(hole@, picks[picks.len() - 1]));
        }
        assert(any);
        assert(is_best_candidate(table@, hole@, picks, best_index as int));
        let chosen = choose|b: int| is_best_candidate(table@, hole@, picks, b);
        lemma_best_candidate_unique(table@, hole@, picks, chosen, best_index as int);
    }
    let cards = copy_cards(&found[best_index]);
    let band = rank_of_score(best_value.score);
    let rank = if is_hand_part_of_made_up_hand(hole, &band, &cards) {
        band
    } else {
        HandRank::HighCard
    };
    BestHand { score: best_value.score, position: best_value.position, rank, cards }
}

} // verus!
