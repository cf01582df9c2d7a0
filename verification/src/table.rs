//! The combination table: every known five-card hand with its score and its
//! place among all hands ordered by score.

use crate::card::{all_valid, Card};
use crate::evaluator::HandData;
use crate::hand::{can_form_hand, hand_key, is_hand, is_sorted_hand, key_of_hand,
    lemma_hand_key_injective, lemma_sorted_form_unique, lemma_strict_is_distinct, normalize_hand,
    HAND_SIZE};
use crate::rank::SCORE_LIMIT;
use std::collections::HashMap;
use vstd::prelude::*;

verus! {

/// What the table knows of a hand: its score, and its place among the listed
/// hands in ascending order of score. The place divided by the number of
/// listed hands is the hand's equity.
#[derive(Clone, Copy, Debug, PartialEq, Eq, Structural)]
pub struct HandValue {
    pub score: u32,
    pub position: u32,
}

/// Why a list of hand values was refused.
#[derive(Clone, Copy, Debug, PartialEq, Eq, Structural)]
pub enum TableError {
    /// The list is too long for places to be numbered.
    TooManyHands,
    /// The entry at `index` is not five valid cards without a repeat.
    InvalidHand { index: usize },
    /// The entry at `index` has a score of 1000 points or more.
    ScoreOutOfRange { index: usize },
    /// The entry at `index` has a lower score than the entry before it.
    OutOfOrder { index: usize },
}

/// Mapping from sorted hands to their score and place.
pub struct CombinationTable {
    pub(crate) entries: HashMap<u64, HandValue>,
    pub(crate) total: u32,
}

impl TableError {
    /// The index of the entry at fault; -1 where the fault is the list's length.
    pub open spec fn index(self) -> int {
        match self {
            TableError::TooManyHands => -1,
            TableError::InvalidHand { index } => index as int,
            TableError::ScoreOutOfRange { index } => index as int,
            TableError::OutOfOrder { index } => index as int,
        }
    }
}

/// The fault of the entry at `index` of a list of hand values, if it has one.
pub open spec fn fault_at(base: Seq<HandData>, index: int) -> Option<TableError> {
    if !can_form_hand(base[index].cards@) {
        Some(TableError::InvalidHand { index: index as usize })
    } else if base[index].value >= SCORE_LIMIT {
        Some(TableError::ScoreOutOfRange { index: index as usize })
    } else if index > 0 && base[index - 1].value > base[index].value {
        Some(TableError::OutOfOrder { index: index as usize })
    } else {
        None
    }
}

/// No entry before `end` has a fault.
pub open spec fn faultless_before(base: Seq<HandData>, end: int) -> bool {
    forall|i: int| 0 <= i < end ==> #[trigger] fault_at(base, i) is None
}

/// The entry at `index` lists the hand `hand`, in whatever order of cards.
pub open spec fn lists(base: Seq<HandData>, index: int, hand: Seq<Card>) -> bool {
    0 <= index < base.len() && base[index].cards@.to_multiset() == hand.to_multiset()
}

/// The entry at `index` is the last one that lists `hand`.
pub open spec fn lists_last(base: Seq<HandData>, index: int, hand: Seq<Card>) -> bool {
    lists(base, index, hand) && forall|j: int| index < j < base.len() ==> !lists(base, j, hand)
}

/// No two entries list the same hand.
pub open spec fn lists_each_once(base: Seq<HandData>) -> bool {
    forall|i: int, j: int|
        0 <= i < j < base.len() ==> (#[trigger] base[i]).cards@.to_multiset() != (
        #[trigger] base[j]).cards@.to_multiset()
}

impl View for CombinationTable {
    type V = Map<Seq<Card>, HandValue>;

    /// The table as a map from hands to their values.
    open(crate) spec fn view(&self) -> Map<Seq<Card>, HandValue> {
        Map::new(
            |hand: Seq<Card>| is_hand(hand) && self.entries@.contains_key(hand_key(hand) as u64),
            |hand: Seq<Card>| self.entries@[hand_key(hand) as u64],
        )
    }
}

impl CombinationTable {
    /// The number of hands that were listed when the table was built: the
    /// denominator of every equity.
    pub open(crate) spec fn listed(&self) -> nat {
        self.total as nat
    }

    /// The number of hands the table holds.
    pub open(crate) spec fn size(&self) -> nat {
        self.entries@.len()
    }

    /// The table's invariant: it holds hands only, scores lie below 1000
    /// points, places lie below the number of listed hands, and a hand with a
    /// higher score has a higher place.
    pub open(crate) spec fn wf(&self) -> bool {
        &&& forall|k: u64| #[trigger]
            self.entries@.contains_key(k) ==> exists|hand: Seq<Card>|
                is_hand(hand) && #[trigger] hand_key(hand) == k
        &&& forall|k: u64| #[trigger]
            self.entries@.contains_key(k) ==> self.entries@[k].score < SCORE_LIMIT
                && self.entries@[k].position < self.total
        &&& forall|a: u64, b: u64|
            self.entries@.contains_key(a) && self.entries@.contains_key(b) && (
            #[trigger] self.entries@[a]).score < (#[trigger] self.entries@[b]).score
                ==> self.entries@[a].position < self.entries@[b].position
    }

    /// Every hand is in the table.
    pub open spec fn complete(&self) -> bool {
        forall|hand: Seq<Card>| is_hand(hand) ==> #[trigger] self@.contains_key(hand)
    }

    /// The invariant as it reads on the table's view.
    pub proof fn lemma_wf_view(&self)
        requires
            self.wf(),
        ensures
            forall|hand: Seq<Card>| #[trigger]
                self@.contains_key(hand) ==> is_hand(hand) && self@[hand].score < SCORE_LIMIT
                    && self@[hand].position < self.listed(),
            forall|a: Seq<Card>, b: Seq<Card>|
                self@.contains_key(a) && self@.contains_key(b) && (#[trigger] self@[a]).score < (
                #[trigger] self@[b]).score ==> self@[a].position < self@[b].position,
    {
    }

    /// The table holds as many hands as its view has keys.
    pub proof fn lemma_size_is_number_of_hands(&self)
        requires
            self.wf(),
        ensures
            self@.dom().finite(),
            self.size() == self@.dom().len(),
    {
        broadcast use vstd::std_specs::hash::group_hash_axioms;

        let keys = self.entries@.dom();
        let hands = self@.dom();
        let hand_of = |k: u64| choose|hand: Seq<Card>| is_hand(hand) && hand_key(hand) == k;
        assert forall|k: u64| keys.contains(k) implies is_hand(hand_of(k)) && hand_key(hand_of(k))
            == k by {
            assert(self.entries@.contains_key(k));
        }
        assert(vstd::relations::injective_on(hand_of, keys));
        assert forall|hand: Seq<Card>| keys.map(hand_of).contains(hand) <==> hands.contains(hand) by {
            if keys.map(hand_of).contains(hand) {
                let k = choose|k: u64| keys.contains(k) && hand == hand_of(k);
                assert(is_hand(hand) && hand_key(hand) == k);
            }
            if hands.contains(hand) {
                lemma_hand_key_range(hand);
                let k = hand_key(hand) as u64;
                assert(keys.contains(k));
                lemma_hand_key_injective(hand_of(k), hand);
            }
        }
        assert(keys.map(hand_of) =~= hands);
        vstd::set_lib::lemma_map_size(keys, hands, hand_of);
    }

    /// The number of hands that were listed when the table was built.
    pub fn listed_hands(&self) -> (n: u32)
        ensures
            n == self.listed(),
    {
        self.total
    }

    /// The number of hands the table holds.
    pub fn len(&self) -> (n: usize)
        ensures
            n == self.size(),
    {
        self.entries.len()
    }

    /// Looks a hand up. The cards must be given in ascending order; anything
    /// that is not a sorted hand is not in the table.
    pub fn lookup(&self, hand: &Vec<Card>) -> (out: Option<HandValue>)
        ensures
            out == if self@.contains_key(hand@) {
                Some(self@[hand@])
            } else {
                None
            },
    {
        broadcast use vstd::std_specs::hash::group_hash_axioms;

        if !is_sorted_hand(hand) {
            return None;
        }
        proof {
            lemma_hand_key_range(hand@);
        }
        let key = key_of_hand(hand);
        match self.entries.get(&key) {
            Some(value) => Some(*value),
            None => None,
        }
    }
}

/// Two hands listed by one entry are the same hand.
pub proof fn lemma_lists_one_hand(base: Seq<HandData>, index: int, a: Seq<Card>, b: Seq<Card>)
    requires
        is_hand(a),
        is_hand(b),
        lists(base, index, a),
        lists(base, index, b),
    ensures
        a == b,
{
    lemma_strict_is_distinct(a);
    lemma_strict_is_distinct(b);
    lemma_sorted_form_unique(a, b);
}

/// Builds the table from a list of hands with their scores, in ascending
/// order of score. A hand's place is its index in the list; where a hand is
/// listed more than once, its last entry counts. The list is refused at its
/// first faulty entry.
pub fn build_combination_table(base: &Vec<HandData>) -> (out: Result<CombinationTable, TableError>)
    ensures
        out is Ok <==> base.len() <= u32::MAX && faultless_before(base@, base.len() as int),
        out matches Err(e) ==> if base.len() > u32::MAX {
            e == TableError::TooManyHands
        } else {
            &&& 0 <= e.index() < base.len()
            &&& faultless_before(base@, e.index())
            &&& fault_at(base@, e.index()) == Some(e)
        },
        out matches Ok(table) ==> {
            &&& table.wf()
            &&& table.listed() == base.len()
            &&& forall|hand: Seq<Card>| #[trigger]
                table@.contains_key(hand) <==> is_hand(hand) && exists|i: int|
                    lists(base@, i, hand)
            &&& forall|hand: Seq<Card>, i: int|
                is_hand(hand) && #[trigger] lists_last(base@, i, hand) ==> table@[hand]
                    == (HandValue { score: base[i].value, position: i as u32 })
            &&& lists_each_once(base@) ==> table.size() == base.len()
        },
{
    broadcast use vstd::std_specs::hash::group_hash_axioms;

    if base.len() > u32::MAX as usize {
        return Err(TableError::TooManyHands);
    }
    let mut entries: HashMap<u64, HandValue> = HashMap::new();
    let mut previous: u32 = 0;
    let mut i: usize = 0;
    while i < base.len()
        invariant
            i <= base.len() <= u32::MAX,
            faultless_before(base@, i as int),
            entries@.dom().finite(),
            forall|k: u64| #[trigger]
                entries@.contains_key(k) ==> exists|hand: Seq<Card>|
                    is_hand(hand) && #[trigger] hand_key(hand) == k,
            forall|k: u64| #[trigger]
                entries@.contains_key(k) ==> entries@[k].score < SCORE_LIMIT && entries@[k].position
                    < i && entries@[k].score <= previous,
            forall|a: u64, b: u64|
                entries@.contains_key(a) && entries@.contains_key(b) && (#[trigger] entries@[a]).score
                    < (#[trigger] entries@[b]).score ==> entries@[a].position
                    < entries@[b].position,
            i > 0 ==> previous == base[i - 1].value,
            forall|hand: Seq<Card>|
                is_hand(hand) ==> (entries@.contains_key(#[trigger] hand_key(hand) as u64)
                    <==> exists|j: int| j < i && lists(base@, j, hand)),
            forall|hand: Seq<Card>, j: int|
                is_hand(hand) && j < i && #[trigger] lists(base@, j, hand) && (forall|l: int|
                    j < l < i ==> !lists(base@, l, hand)) ==> entries@[hand_key(hand) as u64]
                    == (HandValue { score: base[j].value, position: j as u32 }),
            lists_each_once(base@) ==> entries@.len() == i,
        decreases base.len() - i,
    {
        let entry = &base[i];
        let hand = match normalize_hand(&entry.cards) {
            Some(hand) => hand,
            None => {
                return Err(TableError::InvalidHand { index: i });
            },
        };
        if entry.value >= SCORE_LIMIT {
            return Err(TableError::ScoreOutOfRange { index: i });
        }
        if i > 0 && previous > entry.value {
            return Err(TableError::OutOfOrder { index: i });
        }
        proof {
            lemma_hand_key_range(hand@);
        }
        let key = key_of_hand(&hand);
        let value = HandValue { score: entry.value, position: i as u32 };
        let ghost before = entries@;
        entries.insert(key, value);
        proof {
            let after = entries@;
            assert(after == before.insert(key, value));
            assert(fault_at(base@, i as int) is None);
            assert(lists(base@, i as int, hand@));
            // a hand is listed at `i` exactly when it is the sorted form of the entry
            assert forall|other: Seq<Card>| is_hand(other) implies (lists(base@, i as int, other)
                <==> other == hand@) && (hand_key(other) as u64 == key <==> other == hand@) by {
                lemma_hand_key_range(other);
                if lists(base@, i as int, other) {
                    lemma_lists_one_hand(base@, i as int, other, hand@);
                }
                if hand_key(other) as u64 == key {
                    lemma_hand_key_injective(other, hand@);
                }
            }
            assert forall|other: Seq<Card>| is_hand(other) implies (after.contains_key(
                #[trigger] hand_key(other) as u64,
            ) <==> exists|j: int| j < i + 1 && lists(base@, j, other)) by {
                if other == hand@ {
                    assert(lists(base@, i as int, other));
                } else {
                    assert(!lists(base@, i as int, other));
                    assert(hand_key(other) as u64 != key);
                    assert(after.contains_key(hand_key(other) as u64) == before.contains_key(
                        hand_key(other) as u64,
                    ));
                    if exists|j: int| j < i + 1 && lists(base@, j, other) {
                        let j = choose|j: int| j < i + 1 && lists(base@, j, other);
                        assert(j < i && lists(base@, j, other));
                    }
                }
            }
            assert forall|other: Seq<Card>, j: int|
                is_hand(other) && j < i + 1 && #[trigger] lists(base@, j, other) && (forall|l: int|
                    j < l < i + 1 ==> !lists(base@, l, other)) implies after[hand_key(other) as u64]
                == (HandValue { score: base[j].value, position: j as u32 }) by {
                if j == i {
                    assert(other == hand@);
                } else {
                    assert(!lists(base@, i as int, other));
                    assert(other != hand@);
                    assert(hand_key(other) as u64 != key);
                    assert(forall|l: int| j < l < i ==> !lists(base@, l, other));
                }
            }
            if lists_each_once(base@) {
                if before.contains_key(key) {
                    let j = choose|j: int| j < i && lists(base@, j, hand@);
                    assert(base[j].cards@.to_multiset() == base[i as int].cards@.to_multiset());
                    assert(false);
                }
                assert(after.dom() =~= before.dom().insert(key));
            }
            assert forall|k: u64| #[trigger] after.contains_key(k) implies exists|h: Seq<Card>|
                is_hand(h) && #[trigger] hand_key(h) == k by {
                if k == key {
                    assert(is_hand(hand@) && hand_key(hand@) == k);
                } else {
                    assert(before.contains_key(k));
                }
            }
        }
        previous = entry.value;
        i += 1;
    }
    let table = CombinationTable { entries, total: base.len() as u32 };
    proof {
        assert forall|hand: Seq<Card>| #[trigger] table@.contains_key(hand) <==> is_hand(hand)
            && exists|i: int| lists(base@, i, hand) by {
            if is_hand(hand) {
                assert(table.entries@.contains_key(hand_key(hand) as u64) <==> exists|j: int|
                    j < base.len() && lists(base@, j, hand));
            }
        }
        assert forall|hand: Seq<Card>, i: int|
            is_hand(hand) && #[trigger] lists_last(base@, i, hand) implies table@[hand] == (HandValue {
                score: base[i].value,
                position: i as u32,
            }) by {
            assert(lists(base@, i, hand));
            assert(forall|l: int| i < l < base.len() ==> !lists(base@, l, hand));
        }
    }
    Ok(table)
}

/// The key of a five-card sequence of valid cards fits in 30 bits.
pub proof fn lemma_hand_key_range(cards: Seq<Card>)
    requires
        cards.len() == HAND_SIZE,
        all_valid(cards),
    ensures
        0 <= hand_key(cards) < 0x4000_0000,
{
    assert(cards[0].valid() && cards[1].valid() && cards[2].valid() && cards[3].valid()
        && cards[4].valid());
}

} // verus!
