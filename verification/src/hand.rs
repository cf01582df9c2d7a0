//! Card sequences: sorting, counting shared cards, and the integer keys under
//! which sorted hands are stored.

use crate::card::{all_valid, lemma_sort_key_injective, sorted, strictly_sorted, Card};
use vstd::prelude::*;
use vstd::seq_lib::{to_multiset_build, to_multiset_insert};

verus! {

/// Number of cards in a hand.
pub const HAND_SIZE: usize = 5;

/// Number of hole cards a player holds.
pub const HOLE_SIZE: usize = 2;

/// A hand is five valid cards in strictly ascending order.
pub open spec fn is_hand(cards: Seq<Card>) -> bool {
    cards.len() == HAND_SIZE && all_valid(cards) && strictly_sorted(cards)
}

/// A hole pair is two valid cards in strictly ascending order.
pub open spec fn is_hole_pair(cards: Seq<Card>) -> bool {
    cards.len() == HOLE_SIZE && all_valid(cards) && strictly_sorted(cards)
}

/// The key of a five-card sequence: its card positions as base-64 digits.
pub open spec fn hand_key(cards: Seq<Card>) -> int {
    (((cards[0].ordinal() * 64 + cards[1].ordinal()) * 64 + cards[2].ordinal()) * 64
        + cards[3].ordinal()) * 64 + cards[4].ordinal()
}

/// The key of a two-card sequence: its card positions as base-64 digits.
pub open spec fn pair_key(cards: Seq<Card>) -> int {
    cards[0].ordinal() * 64 + cards[1].ordinal()
}

/// Distinct five-card sequences of valid cards have distinct keys.
pub proof fn lemma_hand_key_injective(a: Seq<Card>, b: Seq<Card>)
    requires
        a.len() == HAND_SIZE,
        b.len() == HAND_SIZE,
        all_valid(a),
        all_valid(b),
        hand_key(a) == hand_key(b),
    ensures
        a == b,
{
    let a3 = ((a[0].ordinal() * 64 + a[1].ordinal()) * 64 + a[2].ordinal()) * 64 + a[3].ordinal();
    let b3 = ((b[0].ordinal() * 64 + b[1].ordinal()) * 64 + b[2].ordinal()) * 64 + b[3].ordinal();
    assert(a[4].valid() && b[4].valid() && a[3].valid() && b[3].valid());
    assert(a[2].valid() && b[2].valid() && a[1].valid() && b[1].valid());
    assert(a[0].valid() && b[0].valid());
    assert(a3 == b3 && a[4].ordinal() == b[4].ordinal());
    let a2 = (a[0].ordinal() * 64 + a[1].ordinal()) * 64 + a[2].ordinal();
    let b2 = (b[0].ordinal() * 64 + b[1].ordinal()) * 64 + b[2].ordinal();
    assert(a2 == b2 && a[3].ordinal() == b[3].ordinal());
    let a1 = a[0].ordinal() * 64 + a[1].ordinal();
    let b1 = b[0].ordinal() * 64 + b[1].ordinal();
    assert(a1 == b1 && a[2].ordinal() == b[2].ordinal());
    assert(a[0].ordinal() == b[0].ordinal() && a[1].ordinal() == b[1].ordinal());
    assert forall|i: int| 0 <= i < 5 implies a[i] == b[i] by {
        lemma_sort_key_injective(a[i], b[i]);
    }
    assert(a =~= b);
}

/// Distinct two-card sequences of valid cards have distinct keys.
pub proof fn lemma_pair_key_injective(a: Seq<Card>, b: Seq<Card>)
    requires
        a.len() == HOLE_SIZE,
        b.len() == HOLE_SIZE,
        all_valid(a),
        all_valid(b),
        pair_key(a) == pair_key(b),
    ensures
        a == b,
{
    assert(a[0].valid() && b[0].valid() && a[1].valid() && b[1].valid());
    assert(a[0].ordinal() == b[0].ordinal() && a[1].ordinal() == b[1].ordinal());
    assert forall|i: int| 0 <= i < 2 implies a[i] == b[i] by {
        lemma_sort_key_injective(a[i], b[i]);
    }
    assert(a =~= b);
}

/// Computes the key of a five-card sequence of valid cards.
pub fn key_of_hand(cards: &Vec<Card>) -> (key: u64)
    requires
        cards.len() == HAND_SIZE,
        all_valid(cards@),
    ensures
        key == hand_key(cards@),
{
    let c0: u64 = cards[0].index() as u64;
    let c1: u64 = cards[1].index() as u64;
    let c2: u64 = cards[2].index() as u64;
    let c3: u64 = cards[3].index() as u64;
    let c4: u64 = cards[4].index() as u64;
    (((c0 * 64 + c1) * 64 + c2) * 64 + c3) * 64 + c4
}

/// Computes the key of a two-card sequence of valid cards.
pub fn key_of_pair(cards: &Vec<Card>) -> (key: u64)
    requires
        cards.len() == HOLE_SIZE,
        all_valid(cards@),
    ensures
        key == pair_key(cards@),
{
    let c0: u64 = cards[0].index() as u64;
    let c1: u64 = cards[1].index() as u64;
    c0 * 64 + c1
}

/// The card sequences behind a sequence of vectors.
pub open spec fn views(list: Seq<Vec<Card>>) -> Seq<Seq<Card>> {
    list.map_values(|cards: Vec<Card>| cards@)
}

/// The cards in ascending card order.
pub open spec fn ascending(cards: Seq<Card>) -> Seq<Card> {
    choose|s: Seq<Card>| sorted(s) && s.to_multiset() == cards.to_multiset()
}

/// Copies a card sequence.
pub fn copy_cards(cards: &Vec<Card>) -> (out: Vec<Card>)
    ensures
        out@ == cards@,
{
    let mut out: Vec<Card> = Vec::new();
    let mut i: usize = 0;
    while i < cards.len()
        invariant
            i <= cards.len(),
            out@ == cards@.take(i as int),
        decreases cards.len() - i,
    {
        out.push(cards[i]);
        proof {
            assert(cards@.take(i as int).push(cards[i as int]) =~= cards@.take(i + 1));
        }
        i += 1;
    }
    proof {
        assert(cards@.take(cards.len() as int) =~= cards@);
    }
    out
}

/// Copies the first `count` cards.
pub fn first_cards(cards: &Vec<Card>, count: usize) -> (out: Vec<Card>)
    requires
        count <= cards.len(),
    ensures
        out@ == cards@.take(count as int),
{
    let mut out: Vec<Card> = Vec::new();
    let mut i: usize = 0;
    while i < count
        invariant
            i <= count <= cards.len(),
            out@ == cards@.take(i as int),
        decreases count - i,
    {
        out.push(cards[i]);
        proof {
            assert(cards@.take(i as int).push(cards[i as int]) =~= cards@.take(i + 1));
        }
        i += 1;
    }
    out
}

/// Copies the cards of `first`, followed by those of `second`.
pub fn join_cards(first: &Vec<Card>, second: &Vec<Card>) -> (out: Vec<Card>)
    ensures
        out@ == first@ + second@,
{
    let mut out = copy_cards(first);
    let mut i: usize = 0;
    proof {
        assert(first@ + second@.take(0) =~= first@);
    }
    while i < second.len()
        invariant
            i <= second.len(),
            out@ == first@ + second@.take(i as int),
        decreases second.len() - i,
    {
        out.push(second[i]);
        proof {
            assert(first@ + second@.take(i + 1) =~= (first@ + second@.take(i as int)).push(
                second[i as int],
            ));
        }
        i += 1;
    }
    proof {
        assert(second@.take(second.len() as int) =~= second@);
    }
    out
}

/// Returns the cards in ascending card order.
pub fn sort_cards(cards: &Vec<Card>) -> (out: Vec<Card>)
    ensures
        sorted(out@),
        out@.to_multiset() == cards@.to_multiset(),
        out@ == ascending(cards@),
{
    let mut out: Vec<Card> = Vec::new();
    let mut i: usize = 0;
    proof {
        assert(cards@.take(0) =~= out@);
    }
    while i < cards.len()
        invariant
            i <= cards.len(),
            sorted(out@),
            out@.to_multiset() == cards@.take(i as int).to_multiset(),
        decreases cards.len() - i,
    {
        let card = cards[i];
        let mut pos: usize = 0;
        while pos < out.len() && !card.lt(&out[pos])
            invariant
                pos <= out.len(),
                forall|k: int| 0 <= k < pos ==> (#[trigger] out[k]).sort_key() <= card.sort_key(),
            decreases out.len() - pos,
        {
            pos += 1;
        }
        proof {
            to_multiset_insert(out@, pos as int, card);
            to_multiset_build(cards@.take(i as int), card);
            assert(cards@.take(i as int).push(card) =~= cards@.take(i + 1));
        }
        out.insert(pos, card);
        i += 1;
    }
    proof {
        assert(cards@.take(cards.len() as int) =~= cards@);
        lemma_ascending(cards@, out@);
    }
    out
}

/// Every card sequence has an ascending order: a sorted sequence with the
/// same cards.
pub proof fn lemma_ascending_exists(cards: Seq<Card>)
    ensures
        sorted(ascending(cards)),
        ascending(cards).to_multiset() == cards.to_multiset(),
    decreases cards.len(),
{
    if cards.len() == 0 {
        assert(sorted(cards) && cards.to_multiset() == cards.to_multiset());
    } else {
        let front = cards.drop_last();
        let last = cards.last();
        lemma_ascending_exists(front);
        let base = ascending(front);
        let place = first_after(base, last);
        let out = base.insert(place, last);
        lemma_first_after(base, last);
        to_multiset_insert(base, place, last);
        to_multiset_build(front, last);
        assert(front.push(last) =~= cards);
        assert(sorted(out)) by {
            assert forall|i: int, j: int| 0 <= i < j < out.len() implies (#[trigger] out[i]).sort_key()
                <= (#[trigger] out[j]).sort_key() by {
                let a = if i < place { i } else { i - 1 };
                let b = if j < place { j } else { j - 1 };
                if i != place && j != place {
                    assert(out[i] == base[a] && out[j] == base[b]);
                } else if i == place {
                    assert(out[j] == base[b]);
                } else {
                    assert(out[i] == base[a]);
                }
            }
        }
        assert(sorted(out) && out.to_multiset() == cards.to_multiset());
    }
}

/// The first place of a sorted sequence whose card comes after `card`, or
/// the length of the sequence if there is none.
pub open spec fn first_after(cards: Seq<Card>, card: Card) -> int
    decreases cards.len(),
{
    if cards.len() == 0 {
        0
    } else if cards.last().sort_key() <= card.sort_key() {
        cards.len() as int
    } else {
        first_after(cards.drop_last(), card)
    }
}

/// In a sorted sequence, the cards before the first place after `card` do
/// not come after `card`, and the cards from that place on do.
pub proof fn lemma_first_after(cards: Seq<Card>, card: Card)
    requires
        sorted(cards),
    ensures
        0 <= first_after(cards, card) <= cards.len(),
        forall|i: int|
            0 <= i < first_after(cards, card) ==> (#[trigger] cards[i]).sort_key() <= card.sort_key(),
        forall|i: int|
            first_after(cards, card) <= i < cards.len() ==> (#[trigger] cards[i]).sort_key()
                > card.sort_key(),
    decreases cards.len(),
{
    if cards.len() > 0 {
        let front = cards.drop_last();
        assert(sorted(front));
        lemma_first_after(front, card);
        if cards.last().sort_key() <= card.sort_key() {
            assert forall|i: int| 0 <= i < cards.len() implies (#[trigger] cards[i]).sort_key()
                <= card.sort_key() by {
                if i < cards.len() - 1 {
                    assert(cards[i].sort_key() <= cards[cards.len() - 1].sort_key());
                }
            }
        } else {
            assert forall|i: int| 0 <= i < first_after(cards, card) implies (
            #[trigger] cards[i]).sort_key() <= card.sort_key() by {
                assert(cards[i] == front[i]);
            }
            assert forall|i: int| first_after(cards, card) <= i < cards.len() implies (
            #[trigger] cards[i]).sort_key() > card.sort_key() by {
                if i < cards.len() - 1 {
                    assert(cards[i] == front[i]);
                }
            }
        }
    }
}

/// The ascending order of a card sequence is the one sorted sequence with
/// the same cards.
pub proof fn lemma_ascending(cards: Seq<Card>, arranged: Seq<Card>)
    requires
        sorted(arranged),
        arranged.to_multiset() == cards.to_multiset(),
    ensures
        ascending(cards) == arranged,
{
    lemma_sorted_form_unique(ascending(cards), arranged);
}

/// What a rearrangement keeps: length, membership, validity and the absence
/// of repeated cards.
pub proof fn lemma_same_cards(a: Seq<Card>, b: Seq<Card>)
    requires
        a.to_multiset() == b.to_multiset(),
    ensures
        a.len() == b.len(),
        forall|c: Card| a.contains(c) <==> b.contains(c),
        all_valid(a) <==> all_valid(b),
        a.no_duplicates() <==> b.no_duplicates(),
{
    broadcast use vstd::seq_lib::to_multiset_len, vstd::seq_lib::to_multiset_contains;

    assert(a.len() == b.len()) by {
        assert(a.to_multiset().len() == a.len());
        assert(b.to_multiset().len() == b.len());
    }
    assert forall|c: Card| a.contains(c) <==> b.contains(c) by {
        assert(a.contains(c) <==> a.to_multiset().count(c) > 0);
        assert(b.contains(c) <==> b.to_multiset().count(c) > 0);
    }
    if all_valid(a) {
        assert forall|i: int| 0 <= i < b.len() implies (#[trigger] b[i]).valid() by {
            assert(b.contains(b[i]));
            let k = choose|k: int| 0 <= k < a.len() && a[k] == b[i];
            assert(a[k].valid());
        }
    }
    if all_valid(b) {
        assert forall|i: int| 0 <= i < a.len() implies (#[trigger] a[i]).valid() by {
            assert(a.contains(a[i]));
            let k = choose|k: int| 0 <= k < b.len() && b[k] == a[i];
            assert(b[k].valid());
        }
    }
    if a.no_duplicates() {
        a.lemma_multiset_has_no_duplicates();
        b.lemma_multiset_has_no_duplicates_conv();
    }
    if b.no_duplicates() {
        b.lemma_multiset_has_no_duplicates();
        a.lemma_multiset_has_no_duplicates_conv();
    }
}

/// Two sequences without repeats that hold the same cards are
/// rearrangements of each other.
pub proof fn lemma_same_members(a: Seq<Card>, b: Seq<Card>)
    requires
        a.no_duplicates(),
        b.no_duplicates(),
        forall|card: Card| a.contains(card) <==> b.contains(card),
    ensures
        a.to_multiset() == b.to_multiset(),
{
    broadcast use vstd::seq_lib::to_multiset_contains;

    a.lemma_multiset_has_no_duplicates();
    b.lemma_multiset_has_no_duplicates();
    assert forall|card: Card| a.to_multiset().count(card) == b.to_multiset().count(card) by {
        assert(a.contains(card) <==> a.to_multiset().count(card) > 0);
        assert(b.contains(card) <==> b.to_multiset().count(card) > 0);
    }
    assert(a.to_multiset() =~= b.to_multiset());
}

/// A sorted sequence without repeated cards is strictly sorted.
pub proof fn lemma_sorted_distinct_is_strict(cards: Seq<Card>)
    requires
        sorted(cards),
        cards.no_duplicates(),
    ensures
        strictly_sorted(cards),
{
    assert forall|i: int, j: int| 0 <= i < j < cards.len() implies (#[trigger] cards[i]).precedes(
        #[trigger] cards[j],
    ) by {
        if cards[i].sort_key() == cards[j].sort_key() {
            lemma_sort_key_injective(cards[i], cards[j]);
        }
    }
}

/// The order cards are sorted by, as a relation.
pub open spec fn card_leq() -> spec_fn(Card, Card) -> bool {
    |a: Card, b: Card| a.sort_key() <= b.sort_key()
}

/// Two sorted sequences with the same cards are the same sequence.
pub proof fn lemma_sorted_form_unique(a: Seq<Card>, b: Seq<Card>)
    requires
        sorted(a),
        sorted(b),
        a.to_multiset() == b.to_multiset(),
    ensures
        a == b,
{
    let leq = card_leq();
    assert(vstd::relations::sorted_by(a, leq));
    assert(vstd::relations::sorted_by(b, leq));
    assert(vstd::relations::antisymmetric(leq)) by {
        assert forall|x: Card, y: Card| #[trigger] leq(x, y) && #[trigger] leq(y, x) implies x == y by {
            lemma_sort_key_injective(x, y);
        }
    }
    assert(vstd::relations::total_ordering(leq));
    vstd::seq_lib::lemma_sorted_unique(a, b, leq);
}

/// A strictly sorted sequence holds no card twice.
pub proof fn lemma_strict_is_distinct(cards: Seq<Card>)
    requires
        strictly_sorted(cards),
    ensures
        cards.no_duplicates(),
        sorted(cards),
{
    assert forall|i: int, j: int| 0 <= i < cards.len() && 0 <= j < cards.len() && i != j implies cards[i]
        != cards[j] by {
        if i < j {
            assert(cards[i].precedes(cards[j]));
        } else {
            assert(cards[j].precedes(cards[i]));
        }
    }
}

/// Whether the cards are valid and in strictly ascending order.
pub fn is_strictly_sorted_valid(cards: &Vec<Card>) -> (b: bool)
    ensures
        b == (all_valid(cards@) && strictly_sorted(cards@)),
{
    let mut i: usize = 0;
    while i < cards.len()
        invariant
            i <= cards.len(),
            forall|k: int| 0 <= k < i ==> (#[trigger] cards[k]).valid(),
            forall|a: int, b: int| 0 <= a < b < i ==> (#[trigger] cards[a]).precedes(#[trigger] cards[b]),
        decreases cards.len() - i,
    {
        if !cards[i].is_valid() {
            return false;
        }
        if i > 0 && !cards[i - 1].lt(&cards[i]) {
            proof {
                assert(!cards[i - 1].precedes(cards[i as int]));
            }
            return false;
        }
        i += 1;
    }
    true
}

/// Whether the cards are a hand: five valid cards in strictly ascending order.
pub fn is_sorted_hand(cards: &Vec<Card>) -> (b: bool)
    ensures
        b == is_hand(cards@),
{
    cards.len() == HAND_SIZE && is_strictly_sorted_valid(cards)
}

/// Whether the cards are five valid cards, none of them twice.
pub open spec fn can_form_hand(cards: Seq<Card>) -> bool {
    cards.len() == HAND_SIZE && all_valid(cards) && cards.no_duplicates()
}

/// Whether every card is valid.
pub fn all_cards_valid(cards: &Vec<Card>) -> (b: bool)
    ensures
        b == all_valid(cards@),
{
    let mut i: usize = 0;
    while i < cards.len()
        invariant
            i <= cards.len(),
            forall|k: int| 0 <= k < i ==> (#[trigger] cards[k]).valid(),
        decreases cards.len() - i,
    {
        if !cards[i].is_valid() {
            return false;
        }
        i += 1;
    }
    true
}

/// Brings five cards into ascending order. The result is `None` exactly when
/// the cards are not five valid cards without a repeat.
pub fn normalize_hand(cards: &Vec<Card>) -> (out: Option<Vec<Card>>)
    ensures
        out is Some <==> can_form_hand(cards@),
        out matches Some(hand) ==> is_hand(hand@) && hand@.to_multiset() == cards@.to_multiset(),
{
    if cards.len() != HAND_SIZE || has_duplicate_cards(cards) || !all_cards_valid(cards) {
        return None;
    }
    let hand = sort_cards(cards);
    proof {
        lemma_same_cards(hand@, cards@);
        lemma_sorted_distinct_is_strict(hand@);
    }
    Some(hand)
}

/// Whether `card` occurs in `pack`.
pub fn contains_card(pack: &Vec<Card>, card: &Card) -> (found: bool)
    ensures
        found == pack@.contains(*card),
{
    let mut j: usize = 0;
    while j < pack.len()
        invariant
            j <= pack.len(),
            forall|k: int| 0 <= k < j ==> pack[k] != *card,
        decreases pack.len() - j,
    {
        if pack[j] == *card {
            return true;
        }
        j += 1;
    }
    false
}

/// The card at `first` occurs again at `second`, and no card before `first`
/// occurs again later.
pub open spec fn is_first_repeat(cards: Seq<Card>, first: int, second: int) -> bool {
    &&& 0 <= first < second < cards.len()
    &&& cards[first] == cards[second]
    &&& forall|a: int, b: int| 0 <= a < first && a < b < cards.len() ==> cards[a] != cards[b]
}

/// The card at `first` is the first that occurs again later.
pub open spec fn repeats_first_at(cards: Seq<Card>, first: int) -> bool {
    exists|second: int| is_first_repeat(cards, first, second)
}

/// The first card of the sequence that occurs again later in it.
pub open spec fn first_repeated(cards: Seq<Card>) -> Card {
    cards[choose|first: int| repeats_first_at(cards, first)]
}

/// The first repeat of a sequence starts at one place only.
pub proof fn lemma_first_repeat(cards: Seq<Card>, first: int, second: int)
    requires
        is_first_repeat(cards, first, second),
    ensures
        first_repeated(cards) == cards[first],
        !cards.no_duplicates(),
{
    assert(repeats_first_at(cards, first));
    let chosen = choose|f: int| repeats_first_at(cards, f);
    let other = choose|s: int| is_first_repeat(cards, chosen, s);
    assert(is_first_repeat(cards, chosen, other));
    if chosen < first {
        assert(cards[chosen] != cards[other]);
    } else if first < chosen {
        assert(cards[first] != cards[second]);
    }
}

/// Finds the first card that occurs again later in the sequence. The result
/// is `None` exactly when no card repeats.
pub fn find_duplicate_card(cards: &Vec<Card>) -> (out: Option<Card>)
    ensures
        out is None <==> cards@.no_duplicates(),
        out matches Some(card) ==> card == first_repeated(cards@),
{
    let mut i: usize = 0;
    while i < cards.len()
        invariant
            i <= cards.len(),
            forall|a: int, b: int| 0 <= a < i && a < b < cards.len() ==> cards[a] != cards[b],
        decreases cards.len() - i,
    {
        let mut j: usize = i + 1;
        while j < cards.len()
            invariant
                i < j <= cards.len(),
                forall|a: int, b: int| 0 <= a < i && a < b < cards.len() ==> cards[a] != cards[b],
                forall|b: int| i < b < j ==> cards[i as int] != cards[b],
            decreases cards.len() - j,
        {
            if cards[i] == cards[j] {
                proof {
                    lemma_first_repeat(cards@, i as int, j as int);
                }
                return Some(cards[i]);
            }
            j += 1;
        }
        i += 1;
    }
    proof {
        assert forall|a: int, b: int| 0 <= a < cards.len() && 0 <= b < cards.len() && a != b implies cards[a]
            != cards[b] by {
            if a < b {
                assert(cards[a] != cards[b]);
            } else {
                assert(cards[b] != cards[a]);
            }
        }
    }
    None
}

/// Whether the sequence holds some card twice.
pub fn has_duplicate_cards(cards: &Vec<Card>) -> (dup: bool)
    ensures
        dup == !cards@.no_duplicates(),
{
    let mut i: usize = 0;
    while i < cards.len()
        invariant
            i <= cards.len(),
            forall|a: int, b: int| 0 <= a < i && a < b < cards.len() ==> cards[a] != cards[b],
        decreases cards.len() - i,
    {
        let mut j: usize = i + 1;
        while j < cards.len()
            invariant
                i < j <= cards.len(),
                forall|b: int| i < b < j ==> cards[i as int] != cards[b],
            decreases cards.len() - j,
        {
            if cards[i] == cards[j] {
                return true;
            }
            j += 1;
        }
        i += 1;
    }
    proof {
        assert forall|a: int, b: int| 0 <= a < cards.len() && 0 <= b < cards.len() && a != b implies cards[a]
            != cards[b] by {
            if a < b {
                assert(cards[a] != cards[b]);
            } else {
                assert(cards[b] != cards[a]);
            }
        }
    }
    false
}

/// The cards that are not among `known`, in their order.
pub open spec fn excluding(cards: Seq<Card>, known: Seq<Card>) -> Seq<Card>
    decreases cards.len(),
{
    if cards.len() == 0 {
        Seq::<Card>::empty()
    } else if known.contains(cards.last()) {
        excluding(cards.drop_last(), known)
    } else {
        excluding(cards.drop_last(), known).push(cards.last())
    }
}

/// What is left after removing cards: exactly the cards that were not
/// removed, no more of them than before, valid, free of repeats and strictly
/// sorted where the cards were.
pub proof fn lemma_excluding(cards: Seq<Card>, known: Seq<Card>)
    ensures
        excluding(cards, known).len() <= cards.len(),
        forall|card: Card| #[trigger]
            excluding(cards, known).contains(card) <==> cards.contains(card) && !known.contains(card),
        all_valid(cards) ==> all_valid(excluding(cards, known)),
        strictly_sorted(cards) ==> strictly_sorted(excluding(cards, known)),
        cards.no_duplicates() ==> excluding(cards, known).no_duplicates(),
    decreases cards.len(),
{
    let out = excluding(cards, known);
    if cards.len() > 0 {
        let front = cards.drop_last();
        let rest = excluding(front, known);
        lemma_excluding(front, known);
        assert forall|card: Card| #[trigger] out.contains(card) <==> cards.contains(card)
            && !known.contains(card) by {
            if out.contains(card) {
                let t = choose|t: int| 0 <= t < out.len() && out[t] == card;
                if t < rest.len() {
                    assert(rest[t] == card);
                    assert(rest.contains(card));
                    let u = choose|u: int| 0 <= u < front.len() && front[u] == card;
                    assert(cards[u] == card);
                } else {
                    assert(card == cards.last());
                    assert(cards[cards.len() - 1] == card);
                }
            }
            if cards.contains(card) && !known.contains(card) {
                let t = choose|t: int| 0 <= t < cards.len() && cards[t] == card;
                if t < front.len() {
                    assert(front[t] == card);
                    assert(front.contains(card));
                    assert(rest.contains(card));
                    let u = choose|u: int| 0 <= u < rest.len() && rest[u] == card;
                    assert(out[u] == card);
                } else {
                    assert(out[out.len() - 1] == card);
                }
            }
        }
        if all_valid(cards) {
            assert(all_valid(front));
            assert forall|i: int| 0 <= i < out.len() implies (#[trigger] out[i]).valid() by {
                if i < rest.len() {
                    assert(out[i] == rest[i]);
                } else {
                    assert(out[i] == cards[cards.len() - 1]);
                }
            }
        }
        if strictly_sorted(cards) {
            assert(strictly_sorted(front));
            assert forall|i: int, j: int| 0 <= i < j < out.len() implies (#[trigger] out[i]).precedes(
                #[trigger] out[j],
            ) by {
                if j < rest.len() {
                    assert(out[i] == rest[i] && out[j] == rest[j]);
                } else {
                    assert(out[i] == rest[i]);
                    assert(rest.contains(rest[i]));
                    let u = choose|u: int| 0 <= u < front.len() && front[u] == rest[i];
                    assert(cards[u].precedes(cards[cards.len() - 1]));
                }
            }
        }
        if cards.no_duplicates() {
            assert(front.no_duplicates());
            assert forall|i: int, j: int| 0 <= i < out.len() && 0 <= j < out.len() && i != j implies out[i]
                != out[j] by {
                if i < rest.len() && j < rest.len() {
                    assert(out[i] == rest[i] && out[j] == rest[j]);
                } else {
                    let low = if i < j { i } else { j };
                    assert(out[low] == rest[low]);
                    assert(rest.contains(rest[low]));
                    let u = choose|u: int| 0 <= u < front.len() && front[u] == rest[low];
                    assert(cards[u] != cards[cards.len() - 1]);
                }
            }
        }
    }
}

/// Copies the cards that are not among `known`, keeping their order.
pub fn remove_cards(cards: &Vec<Card>, known: &Vec<Card>) -> (out: Vec<Card>)
    ensures
        out@ == excluding(cards@, known@),
{
    let mut out: Vec<Card> = Vec::new();
    let mut i: usize = 0;
    while i < cards.len()
        invariant
            i <= cards.len(),
            out@ == excluding(cards@.take(i as int), known@),
        decreases cards.len() - i,
    {
        proof {
            assert(cards@.take(i + 1).drop_last() =~= cards@.take(i as int));
        }
        if !contains_card(known, &cards[i]) {
            out.push(cards[i]);
        }
        i += 1;
    }
    proof {
        assert(cards@.take(cards.len() as int) =~= cards@);
    }
    out
}

/// How many entries of `cards` occur in `pack`. An entry that repeats in
/// `cards` is counted each time.
pub open spec fn common_count(cards: Seq<Card>, pack: Seq<Card>) -> nat
    decreases cards.len(),
{
    if cards.len() == 0 {
        0
    } else {
        common_count(cards.drop_last(), pack) + if pack.contains(cards.last()) {
            1nat
        } else {
            0nat
        }
    }
}

/// Counts the entries of `cards` that occur in `pack`.
pub fn find_common_cards_in_pack_no_ref(cards: &Vec<Card>, pack: &Vec<Card>) -> (common: usize)
    ensures
        common == common_count(cards@, pack@),
{
    let mut common: usize = 0;
    let mut i: usize = 0;
    while i < cards.len()
        invariant
            i <= cards.len(),
            common == common_count(cards@.take(i as int), pack@),
            common <= i,
        decreases cards.len() - i,
    {
        proof {
            assert(cards@.take(i + 1).drop_last() =~= cards@.take(i as int));
        }
        if contains_card(pack, &cards[i]) {
            common = common + 1;
        }
        i += 1;
    }
    proof {
        assert(cards@.take(cards.len() as int) =~= cards@);
    }
    common
}

/// The cards behind a sequence of references.
pub open spec fn referenced(cards: Seq<&Card>) -> Seq<Card> {
    cards.map_values(|c: &Card| *c)
}

/// Counts the referenced cards that occur in `pack`.
pub fn find_common_cards_in_pack(cards: &Vec<&Card>, pack: &Vec<Card>) -> (common: usize)
    ensures
        common == common_count(referenced(cards@), pack@),
{
    let mut common: usize = 0;
    let mut i: usize = 0;
    while i < cards.len()
        invariant
            i <= cards.len(),
            common == common_count(referenced(cards@).take(i as int), pack@),
            common <= i,
        decreases cards.len() - i,
    {
        proof {
            assert(referenced(cards@).take(i + 1).drop_last() =~= referenced(cards@).take(i as int));
        }
        if contains_card(pack, cards[i]) {
            common = common + 1;
        }
        i += 1;
    }
    proof {
        assert(referenced(cards@).take(cards.len() as int) =~= referenced(cards@));
    }
    common
}

} // verus!
