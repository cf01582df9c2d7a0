//! The k-card selections of a card sequence, in the order in which they are
//! enumerated.

use crate::card::{all_valid, strictly_sorted, Card};
use itertools::Itertools;
use vstd::prelude::*;

verus! {

/// All ways to pick `k` of the cards, each pick in the order of `cards`.
/// Picks that include the first card come first, so picks are ordered by the
/// positions they take, compared from the left.
pub open spec fn k_subsets(cards: Seq<Card>, k: nat) -> Seq<Seq<Card>>
    decreases cards.len(),
{
    if k == 0 {
        seq![Seq::<Card>::empty()]
    } else if cards.len() < k {
        Seq::<Seq<Card>>::empty()
    } else {
        k_subsets(cards.drop_first(), (k - 1) as nat).map_values(
            |rest: Seq<Card>| seq![cards[0]] + rest,
        ) + k_subsets(cards.drop_first(), k)
    }
}

/// Each pick has `k` cards, all of them from `cards`; it is strictly sorted
/// where `cards` is, and its cards are valid where those of `cards` are.
pub proof fn lemma_k_subset_member(cards: Seq<Card>, k: nat, i: int)
    requires
        0 <= i < k_subsets(cards, k).len(),
    ensures
        k_subsets(cards, k)[i].len() == k,
        forall|j: int|
            0 <= j < k ==> cards.contains(#[trigger] k_subsets(cards, k)[i][j]),
        strictly_sorted(cards) ==> strictly_sorted(k_subsets(cards, k)[i]),
        all_valid(cards) ==> all_valid(k_subsets(cards, k)[i]),
    decreases cards.len(),
{
    let pick = k_subsets(cards, k)[i];
    if k == 0 {
    } else if cards.len() < k {
    } else {
        let tail = cards.drop_first();
        let with_first = k_subsets(tail, (k - 1) as nat);
        if strictly_sorted(cards) {
            lemma_tail_sorted(cards);
        }
        if i < with_first.len() {
            lemma_k_subset_member(tail, (k - 1) as nat, i);
            let rest = with_first[i];
            assert(pick == seq![cards[0]] + rest);
            assert forall|j: int| 0 <= j < k implies cards.contains(#[trigger] pick[j]) by {
                if j == 0 {
                    assert(cards[0] == pick[0]);
                } else {
                    assert(pick[j] == rest[j - 1]);
                    assert(tail.contains(rest[j - 1]));
                    let t = choose|t: int| 0 <= t < tail.len() && tail[t] == rest[j - 1];
                    assert(cards[t + 1] == pick[j]);
                }
            }
            if strictly_sorted(cards) {
                assert forall|a: int, b: int| 0 <= a < b < pick.len() implies (
                #[trigger] pick[a]).precedes(#[trigger] pick[b]) by {
                    assert(pick[b] == rest[b - 1]);
                    if a == 0 {
                        assert(tail.contains(rest[b - 1]));
                    } else {
                        assert(pick[a] == rest[a - 1]);
                        assert(rest[a - 1].precedes(rest[b - 1]));
                    }
                }
            }
        } else {
            let shifted = i - with_first.len();
            lemma_k_subset_member(tail, k, shifted);
            let same = k_subsets(tail, k)[shifted];
            assert(pick == same);
            assert forall|j: int| 0 <= j < k implies cards.contains(#[trigger] pick[j]) by {
                assert(tail.contains(same[j]));
                let t = choose|t: int| 0 <= t < tail.len() && tail[t] == same[j];
                assert(cards[t + 1] == pick[j]);
            }
        }
    }
    if all_valid(cards) {
        assert forall|j: int| 0 <= j < pick.len() implies (#[trigger] pick[j]).valid() by {
            assert(cards.contains(pick[j]));
            let t = choose|t: int| 0 <= t < cards.len() && cards[t] == pick[j];
            assert(cards[t].valid());
        }
    }
}

/// Where there are at least `k` cards, the first pick is the first `k` cards
/// and the last pick is the last `k` cards.
pub proof fn lemma_k_subsets_ends(cards: Seq<Card>, k: nat)
    requires
        k <= cards.len(),
    ensures
        k_subsets(cards, k).len() > 0,
        k_subsets(cards, k).first() == cards.take(k as int),
        k_subsets(cards, k).last() == cards.skip(cards.len() - k),
    decreases cards.len(),
{
    if k == 0 {
        assert(cards.take(0) =~= Seq::<Card>::empty());
        assert(cards.skip(cards.len() as int) =~= Seq::<Card>::empty());
    } else {
        let tail = cards.drop_first();
        let with_first = k_subsets(tail, (k - 1) as nat);
        let without_first = k_subsets(tail, k);
        lemma_k_subsets_ends(tail, (k - 1) as nat);
        assert(k_subsets(cards, k).first() == seq![cards[0]] + with_first.first());
        assert(seq![cards[0]] + tail.take(k - 1) =~= cards.take(k as int));
        if cards.len() == k {
            assert(without_first.len() == 0);
            assert(k_subsets(cards, k).last() == seq![cards[0]] + with_first.last());
            assert(seq![cards[0]] + tail.skip(0) =~= cards.skip(0));
        } else {
            lemma_k_subsets_ends(tail, k);
            assert(k_subsets(cards, k).last() == without_first.last());
            assert(tail.skip(tail.len() - k) =~= cards.skip(cards.len() - k));
        }
    }
}

/// The tail of a strictly sorted sequence is strictly sorted, and its cards
/// come after the first card.
proof fn lemma_tail_sorted(cards: Seq<Card>)
    requires
        strictly_sorted(cards),
        cards.len() > 0,
    ensures
        strictly_sorted(cards.drop_first()),
        forall|card: Card| cards.drop_first().contains(card) ==> cards[0].precedes(card),
        forall|card: Card|
            cards.contains(card) && card != cards[0] ==> cards.drop_first().contains(card),
{
    let tail = cards.drop_first();
    assert forall|a: int, b: int| 0 <= a < b < tail.len() implies (#[trigger] tail[a]).precedes(
        #[trigger] tail[b],
    ) by {
        assert(cards[a + 1].precedes(cards[b + 1]));
    }
    assert forall|card: Card| tail.contains(card) implies cards[0].precedes(card) by {
        let t = choose|t: int| 0 <= t < tail.len() && tail[t] == card;
        assert(cards[0].precedes(cards[t + 1]));
    }
    assert forall|card: Card| cards.contains(card) && card != cards[0] implies tail.contains(
        card,
    ) by {
        let t = choose|t: int| 0 <= t < cards.len() && cards[t] == card;
        assert(tail[t - 1] == card);
    }
}

/// Every strictly sorted selection of `k` of the cards is one of the picks.
/// The lemma returns the pick's index.
pub proof fn lemma_k_subsets_complete(cards: Seq<Card>, k: nat, pick: Seq<Card>) -> (index: int)
    requires
        strictly_sorted(cards),
        strictly_sorted(pick),
        pick.len() == k,
        forall|j: int| 0 <= j < pick.len() ==> cards.contains(#[trigger] pick[j]),
    ensures
        0 <= index < k_subsets(cards, k).len(),
        k_subsets(cards, k)[index] == pick,
    decreases cards.len(),
{
    if k == 0 {
        assert(pick =~= Seq::<Card>::empty());
        0
    } else {
        assert(cards.contains(pick[0]));
        lemma_tail_sorted(cards);
        let tail = cards.drop_first();
        let with_first = k_subsets(tail, (k - 1) as nat);
        if pick[0] == cards[0] {
            let rest = pick.drop_first();
            assert forall|j: int| 0 <= j < rest.len() implies tail.contains(#[trigger] rest[j]) by {
                assert(rest[j] == pick[j + 1]);
                assert(pick[0].precedes(pick[j + 1]));
                assert(cards.contains(pick[j + 1]));
            }
            assert(strictly_sorted(rest)) by {
                assert forall|a: int, b: int| 0 <= a < b < rest.len() implies (
                #[trigger] rest[a]).precedes(#[trigger] rest[b]) by {
                    assert(pick[a + 1].precedes(pick[b + 1]));
                }
            }
            let i = lemma_k_subsets_complete(tail, (k - 1) as nat, rest);
            assert(seq![cards[0]] + rest =~= pick);
            assert(tail.len() + 1 == cards.len());
            i
        } else {
            assert forall|j: int| 0 <= j < pick.len() implies tail.contains(#[trigger] pick[j]) by {
                assert(cards.contains(pick[j]));
                assert(tail.contains(pick[0]));
                if j > 0 {
                    assert(pick[0].precedes(pick[j]));
                }
            }
            let i = lemma_k_subsets_complete(tail, k, pick);
            assert(tail.len() >= k) by {
                if tail.len() < k {
                    assert(k_subsets(tail, k).len() == 0);
                }
            }
            with_first.len() + i
        }
    }
}

/// The picks of a strictly sorted sequence differ from one another.
pub proof fn lemma_k_subsets_distinct(cards: Seq<Card>, k: nat, i: int, j: int)
    requires
        strictly_sorted(cards),
        0 <= i < j < k_subsets(cards, k).len(),
    ensures
        k_subsets(cards, k)[i] != k_subsets(cards, k)[j],
    decreases cards.len(),
{
    if k == 0 {
    } else if cards.len() < k {
    } else {
        lemma_tail_sorted(cards);
        let tail = cards.drop_first();
        let with_first = k_subsets(tail, (k - 1) as nat);
        let a = k_subsets(cards, k)[i];
        let b = k_subsets(cards, k)[j];
        if j < with_first.len() {
            lemma_k_subsets_distinct(tail, (k - 1) as nat, i, j);
            assert(a == seq![cards[0]] + with_first[i]);
            assert(b == seq![cards[0]] + with_first[j]);
            if a == b {
                assert(a.drop_first() =~= with_first[i]);
                assert(b.drop_first() =~= with_first[j]);
            }
        } else if i >= with_first.len() {
            lemma_k_subsets_distinct(tail, k, i - with_first.len(), j - with_first.len());
        } else {
            assert(a == seq![cards[0]] + with_first[i]);
            assert(a[0] == cards[0]);
            lemma_k_subset_member(tail, k, j - with_first.len());
            assert(tail.contains(b[0]));
            assert(cards[0].precedes(b[0]));
        }
    }
}

/// The number of ways to pick `k` of `n` things.
pub open spec fn choose_count(n: nat, k: nat) -> nat
    decreases n,
{
    if k == 0 {
        1
    } else if n < k {
        0
    } else {
        choose_count((n - 1) as nat, (k - 1) as nat) + choose_count((n - 1) as nat, k)
    }
}

/// There are as many picks as there are ways to pick.
pub proof fn lemma_k_subsets_len(cards: Seq<Card>, k: nat)
    ensures
        k_subsets(cards, k).len() == choose_count(cards.len(), k),
    decreases cards.len(),
{
    if k == 0 {
    } else if cards.len() < k {
    } else {
        lemma_k_subsets_len(cards.drop_first(), (k - 1) as nat);
        lemma_k_subsets_len(cards.drop_first(), k);
    }
}

/// The ways to pick one of `n`.
proof fn lemma_choose_one(n: nat)
    ensures
        choose_count(n, 1) == n,
    decreases n,
{
    if n >= 1 {
        lemma_choose_one((n - 1) as nat);
        assert(choose_count((n - 1) as nat, 0) == 1);
    }
}

/// The ways to pick two of `n`.
pub proof fn lemma_choose_two(n: nat)
    ensures
        choose_count(n, 2) * 2 == n * (n - 1),
    decreases n,
{
    if n >= 2 {
        lemma_choose_one((n - 1) as nat);
        lemma_choose_two((n - 1) as nat);
        let a = choose_count((n - 1) as nat, 2);
        assert(a * 2 == (n - 1) * (n - 2));
        assert((a + (n - 1)) * 2 == n * (n - 1)) by (nonlinear_arith)
            requires
                a * 2 == (n - 1) * (n - 2),
        ;
    } else {
        assert(n * (n - 1) == 0) by (nonlinear_arith)
            requires
                n == 0 || n == 1,
        ;
    }
}

/// The ways to pick three of `n`.
pub proof fn lemma_choose_three(n: nat)
    ensures
        choose_count(n, 3) * 6 == n * (n - 1) * (n - 2),
    decreases n,
{
    if n >= 3 {
        lemma_choose_two((n - 1) as nat);
        lemma_choose_three((n - 1) as nat);
        let a = choose_count((n - 1) as nat, 3);
        let b = choose_count((n - 1) as nat, 2);
        assert((a + b) * 6 == n * (n - 1) * (n - 2)) by (nonlinear_arith)
            requires
                a * 6 == (n - 1) * (n - 2) * (n - 3),
                b * 2 == (n - 1) * (n - 2),
        ;
    } else {
        assert(n * (n - 1) * (n - 2) == 0) by (nonlinear_arith)
            requires
                n == 0 || n == 1 || n == 2,
        ;
    }
}

/// The ways to pick four of `n`.
proof fn lemma_choose_four(n: nat)
    ensures
        choose_count(n, 4) * 24 == n * (n - 1) * (n - 2) * (n - 3),
    decreases n,
{
    if n >= 4 {
        lemma_choose_three((n - 1) as nat);
        lemma_choose_four((n - 1) as nat);
        let a = choose_count((n - 1) as nat, 4);
        let b = choose_count((n - 1) as nat, 3);
        assert((a + b) * 24 == n * (n - 1) * (n - 2) * (n - 3)) by (nonlinear_arith)
            requires
                a * 24 == (n - 1) * (n - 2) * (n - 3) * (n - 4),
                b * 6 == (n - 1) * (n - 2) * (n - 3),
        ;
    } else {
        assert(n * (n - 1) * (n - 2) * (n - 3) == 0) by (nonlinear_arith)
            requires
                n == 0 || n == 1 || n == 2 || n == 3,
        ;
    }
}

/// The ways to pick five of `n`.
pub proof fn lemma_choose_five(n: nat)
    ensures
        choose_count(n, 5) * 120 == n * (n - 1) * (n - 2) * (n - 3) * (n - 4),
    decreases n,
{
    if n >= 5 {
        lemma_choose_four((n - 1) as nat);
        lemma_choose_five((n - 1) as nat);
        let a = choose_count((n - 1) as nat, 5);
        let b = choose_count((n - 1) as nat, 4);
        assert((a + b) * 120 == n * (n - 1) * (n - 2) * (n - 3) * (n - 4)) by (nonlinear_arith)
            requires
                a * 120 == (n - 1) * (n - 2) * (n - 3) * (n - 4) * (n - 5),
                b * 24 == (n - 1) * (n - 2) * (n - 3) * (n - 4),
        ;
    } else {
        assert(n * (n - 1) * (n - 2) * (n - 3) * (n - 4) == 0) by (nonlinear_arith)
            requires
                n == 0 || n == 1 || n == 2 || n == 3 || n == 4,
        ;
    }
}

/// The `k`-card picks of `cards`, each in the order of `cards`.
///
/// Calls `Itertools::combinations` of the itertools crate. The contract
/// states what that adaptor yields: one vector per choice of `k` positions,
/// the positions advancing from the right, so that picks come in the order
/// of `k_subsets`; nothing when there are fewer than `k` cards, and the one
/// empty pick when `k` is 0.
#[verifier::external_body]
pub(crate) fn combinations(cards: &Vec<Card>, k: usize) -> (out: Vec<Vec<Card>>)
    ensures
        out@.len() == k_subsets(cards@, k as nat).len(),
        forall|i: int|
            0 <= i < out@.len() ==> (#[trigger] out@[i])@ == k_subsets(cards@, k as nat)[i],
{
    cards.iter().copied().combinations(k).collect()
}

} // verus!
