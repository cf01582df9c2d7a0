//! Sums over the simulated counts: the rounds played and the rounds won by
//! all hole pairs together, and what a round adds to them.

use crate::card::Card;
use crate::hand::is_hole_pair;
use crate::simulator::{counts_of, leader, round_result, seat_of, SimulatedHand};
use crate::subsets::{k_subsets, lemma_k_subsets_complete, lemma_k_subsets_distinct};
use crate::table::HandValue;
use crate::universe::{lemma_ordered_deck, ordered_deck};
use vstd::prelude::*;

verus! {

/// Every hole pair, once.
pub open spec fn every_pair() -> Seq<Seq<Card>> {
    k_subsets(ordered_deck(), 2)
}

/// The rounds that the given pairs have played, summed.
pub open spec fn played_among(counts: Map<Seq<Card>, SimulatedHand>, pairs: Seq<Seq<Card>>) -> nat
    decreases pairs.len(),
{
    if pairs.len() == 0 {
        0
    } else {
        played_among(counts, pairs.drop_last()) + counts_of(counts, pairs.last()).games_played as nat
    }
}

/// The rounds that the given pairs have won, summed.
pub open spec fn won_among(counts: Map<Seq<Card>, SimulatedHand>, pairs: Seq<Seq<Card>>) -> nat
    decreases pairs.len(),
{
    if pairs.len() == 0 {
        0
    } else {
        won_among(counts, pairs.drop_last()) + counts_of(counts, pairs.last()).games_won as nat
    }
}

/// The rounds played by all hole pairs together: every round counts once
/// for each player dealt in.
pub open spec fn rounds_played(counts: Map<Seq<Card>, SimulatedHand>) -> nat {
    played_among(counts, every_pair())
}

/// The rounds won by all hole pairs together.
pub open spec fn rounds_won(counts: Map<Seq<Card>, SimulatedHand>) -> nat {
    won_among(counts, every_pair())
}

/// How many of the pairs are among `holes`.
pub open spec fn hits(pairs: Seq<Seq<Card>>, holes: Seq<Seq<Card>>) -> nat
    decreases pairs.len(),
{
    if pairs.len() == 0 {
        0
    } else {
        hits(pairs.drop_last(), holes) + if holes.contains(pairs.last()) {
            1nat
        } else {
            0nat
        }
    }
}

/// How often `hole` occurs among the pairs.
pub open spec fn occurrences(pairs: Seq<Seq<Card>>, hole: Seq<Card>) -> nat
    decreases pairs.len(),
{
    if pairs.len() == 0 {
        0
    } else {
        occurrences(pairs.drop_last(), hole) + if pairs.last() == hole {
            1nat
        } else {
            0nat
        }
    }
}

/// Every hole pair occurs among all hole pairs, and no pair occurs twice.
pub proof fn lemma_every_pair(hole: Seq<Card>)
    requires
        is_hole_pair(hole),
    ensures
        every_pair().contains(hole),
        every_pair().no_duplicates(),
{
    lemma_ordered_deck();
    assert forall|j: int| 0 <= j < hole.len() implies ordered_deck().contains(#[trigger] hole[j]) by {
        assert(hole[j].valid());
    }
    let i = lemma_k_subsets_complete(ordered_deck(), 2, hole);
    assert(every_pair()[i] == hole);
    assert forall|a: int, b: int|
        0 <= a < every_pair().len() && 0 <= b < every_pair().len() && a != b implies every_pair()[a]
        != every_pair()[b] by {
        if a < b {
            lemma_k_subsets_distinct(ordered_deck(), 2, a, b);
        } else {
            lemma_k_subsets_distinct(ordered_deck(), 2, b, a);
        }
    }
}

/// A pair that occurs among pairs without repeats occurs once, and a pair
/// that does not occur occurs no times.
proof fn lemma_occurs_once(pairs: Seq<Seq<Card>>, hole: Seq<Card>)
    requires
        pairs.no_duplicates(),
    ensures
        occurrences(pairs, hole) == if pairs.contains(hole) {
            1nat
        } else {
            0nat
        },
    decreases pairs.len(),
{
    if pairs.len() > 0 {
        let front = pairs.drop_last();
        lemma_occurs_once(front, hole);
        if pairs.last() == hole {
            if front.contains(hole) {
                let t = choose|t: int| 0 <= t < front.len() && front[t] == hole;
                assert(pairs[t] == pairs[pairs.len() - 1]);
            }
            assert(pairs[pairs.len() - 1] == hole);
        } else if pairs.contains(hole) {
            let t = choose|t: int| 0 <= t < pairs.len() && pairs[t] == hole;
            assert(front[t] == hole);
        } else if front.contains(hole) {
            let t = choose|t: int| 0 <= t < front.len() && front[t] == hole;
            assert(pairs[t] == hole);
        }
    }
}

/// One more hole adds its occurrences to the hits.
proof fn lemma_hits_with(pairs: Seq<Seq<Card>>, holes: Seq<Seq<Card>>, hole: Seq<Card>)
    requires
        !holes.contains(hole),
    ensures
        hits(pairs, holes.push(hole)) == hits(pairs, holes) + occurrences(pairs, hole),
    decreases pairs.len(),
{
    if pairs.len() > 0 {
        lemma_hits_with(pairs.drop_last(), holes, hole);
        let last = pairs.last();
        let more = holes.push(hole);
        if more.contains(last) {
            let t = choose|t: int| 0 <= t < more.len() && more[t] == last;
            if t < holes.len() {
                assert(holes[t] == last);
            }
        }
        if holes.contains(last) {
            let t = choose|t: int| 0 <= t < holes.len() && holes[t] == last;
            assert(more[t] == last);
        }
        if last == hole {
            assert(more[holes.len() as int] == last);
        }
    }
}

/// Distinct holes that all occur among pairs without repeats hit as many
/// pairs as there are holes.
proof fn lemma_hits_all(pairs: Seq<Seq<Card>>, holes: Seq<Seq<Card>>)
    requires
        pairs.no_duplicates(),
        holes.no_duplicates(),
        forall|i: int| 0 <= i < holes.len() ==> pairs.contains(#[trigger] holes[i]),
    ensures
        hits(pairs, holes) == holes.len(),
    decreases holes.len(),
{
    if holes.len() == 0 {
        lemma_no_hits(pairs, holes);
    } else {
        let front = holes.drop_last();
        let last = holes.last();
        assert forall|i: int| 0 <= i < front.len() implies pairs.contains(#[trigger] front[i]) by {
            assert(front[i] == holes[i]);
        }
        lemma_hits_all(pairs, front);
        if front.contains(last) {
            let t = choose|t: int| 0 <= t < front.len() && front[t] == last;
            assert(holes[t] == holes[holes.len() - 1]);
        }
        lemma_hits_with(pairs, front, last);
        assert(front.push(last) =~= holes);
        lemma_occurs_once(pairs, last);
        assert(pairs.contains(holes[holes.len() - 1]));
    }
}

/// Without holes nothing is hit.
proof fn lemma_no_hits(pairs: Seq<Seq<Card>>, holes: Seq<Seq<Card>>)
    requires
        holes.len() == 0,
    ensures
        hits(pairs, holes) == 0,
    decreases pairs.len(),
{
    if pairs.len() > 0 {
        lemma_no_hits(pairs.drop_last(), holes);
    }
}

/// What a round adds to the sums over some pairs: one round played for
/// every pair of the round among them, and one round won for the winner's.
proof fn lemma_round_among(
    before: Map<Seq<Card>, SimulatedHand>,
    table: Map<Seq<Card>, HandValue>,
    holes: Seq<Seq<Card>>,
    board: Seq<Card>,
    pairs: Seq<Seq<Card>>,
)
    requires
        holes.no_duplicates(),
        0 <= leader(table, holes, board) < holes.len(),
        forall|hole: Seq<Card>|
            (#[trigger] counts_of(before, hole)).games_won <= counts_of(before, hole).games_played
                < u64::MAX,
    ensures
        played_among(round_result(before, table, holes, board), pairs) == played_among(
            before,
            pairs,
        ) + hits(pairs, holes),
        won_among(round_result(before, table, holes, board), pairs) == won_among(before, pairs)
            + occurrences(pairs, holes[leader(table, holes, board)]),
    decreases pairs.len(),
{
    if pairs.len() > 0 {
        lemma_round_among(before, table, holes, board, pairs.drop_last());
        let after = round_result(before, table, holes, board);
        let pair = pairs.last();
        let winner = leader(table, holes, board);
        let old = counts_of(before, pair);
        assert(old.games_won <= old.games_played < u64::MAX);
        if holes.contains(pair) {
            let seat = seat_of(holes, pair);
            assert(0 <= seat < holes.len() && holes[seat] == pair);
            assert(after.contains_key(pair));
            assert(counts_of(after, pair).games_played == old.games_played + 1);
            if seat == winner {
                assert(pair == holes[winner]);
            } else if pair == holes[winner] {
                assert(holes[seat] == holes[winner]);
            }
        } else {
            assert(after.contains_key(pair) == before.contains_key(pair));
            assert(counts_of(after, pair) == old);
            if pair == holes[winner] {
                assert(holes.contains(holes[winner]));
            }
        }
    }
}

/// A round adds one round played for each of its players and one round
/// won to the sums over all hole pairs.
pub proof fn lemma_round_totals(
    before: Map<Seq<Card>, SimulatedHand>,
    table: Map<Seq<Card>, HandValue>,
    holes: Seq<Seq<Card>>,
    board: Seq<Card>,
)
    requires
        holes.no_duplicates(),
        forall|i: int| 0 <= i < holes.len() ==> is_hole_pair(#[trigger] holes[i]),
        0 <= leader(table, holes, board) < holes.len(),
        forall|hole: Seq<Card>|
            (#[trigger] counts_of(before, hole)).games_won <= counts_of(before, hole).games_played
                < u64::MAX,
    ensures
        rounds_played(round_result(before, table, holes, board)) == rounds_played(before)
            + holes.len(),
        rounds_won(round_result(before, table, holes, board)) == rounds_won(before) + 1,
{
    let pairs = every_pair();
    let winner = leader(table, holes, board);
    lemma_every_pair(holes[winner]);
    assert forall|i: int| 0 <= i < holes.len() implies pairs.contains(#[trigger] holes[i]) by {
        lemma_every_pair(holes[i]);
    }
    lemma_hits_all(pairs, holes);
    lemma_occurs_once(pairs, holes[winner]);
    lemma_round_among(before, table, holes, board, pairs);
}

/// Where nothing is counted, no rounds are played or won.
pub proof fn lemma_nothing_counted(pairs: Seq<Seq<Card>>)
    ensures
        played_among(Map::<Seq<Card>, SimulatedHand>::empty(), pairs) == 0,
        won_among(Map::<Seq<Card>, SimulatedHand>::empty(), pairs) == 0,
    decreases pairs.len(),
{
    if pairs.len() > 0 {
        lemma_nothing_counted(pairs.drop_last());
    }
}

} // verus!
