//! The player's standing against an opponent's range of hole cards: outs,
//! the range's make-up, equity relative to the range, and expected value.

use crate::card::{all_valid, strictly_sorted, Card};
use crate::hand::{all_cards_valid, ascending, excluding, find_duplicate_card, first_repeated,
    is_hole_pair, join_cards,
    lemma_excluding, lemma_same_cards, lemma_sorted_distinct_is_strict, lemma_strict_is_distinct,
    remove_cards, sort_cards, HOLE_SIZE};
use crate::rank::{HandRank, RankHistogram};
use crate::selector::{covers, drawn_from, evaluate_best_hand, lemma_covers_fewer,
    showdown_rank, showdown_value};
use crate::starting::{StartingEquity, StartingHandTable};
use crate::subsets::{combinations, k_subsets, lemma_choose_two, lemma_k_subset_member,
    lemma_k_subsets_len};
use crate::table::{CombinationTable, HandValue};
use vstd::prelude::*;

verus! {

/// A fraction of two whole numbers.
#[derive(Clone, Copy, Debug, PartialEq, Eq, Structural)]
pub struct Ratio {
    pub num: u32,
    pub den: u32,
}

impl Ratio {
    /// The fraction lies between 0 and 1.
    pub open spec fn is_share(self) -> bool {
        self.den > 0 && self.num <= self.den
    }
}

/// The equity of a hand with the given value: its place over the number of
/// hands that the table lists.
pub fn equity_of(value: &HandValue, table: &CombinationTable) -> (equity: Ratio)
    ensures
        equity.num == value.position,
        equity.den == table.listed(),
{
    Ratio { num: value.position, den: table.listed_hands() }
}

/// A signed amount of money as a fraction of cents.
#[derive(Clone, Copy, Debug, PartialEq, Eq, Structural)]
pub struct Amount {
    pub numerator: i128,
    pub denominator: u64,
}

/// The expected value of putting `bet` cents into a pot of `pot` cents that
/// is won with the given chance: the pot times the chance, less the bet. A
/// lost bet costs the bet in full, whatever the chance.
pub fn expected_value(pot: u64, bet: u64, win_chance: Ratio) -> (ev: Amount)
    ensures
        ev.numerator == pot * win_chance.num - bet * win_chance.den,
        ev.denominator == win_chance.den,
{
    proof {
        assert(0 <= pot * win_chance.num <= 0xffff_ffff_ffff_ffff * 0xffff_ffff) by (nonlinear_arith)
            requires
                0 <= pot <= 0xffff_ffff_ffff_ffff,
                0 <= win_chance.num <= 0xffff_ffff,
        ;
        assert(0 <= bet * win_chance.den <= 0xffff_ffff_ffff_ffff * 0xffff_ffff) by (nonlinear_arith)
            requires
                0 <= bet <= 0xffff_ffff_ffff_ffff,
                0 <= win_chance.den <= 0xffff_ffff,
        ;
    }
    let gain: i128 = (pot as i128) * (win_chance.num as i128);
    let cost: i128 = (bet as i128) * (win_chance.den as i128);
    Amount { numerator: gain - cost, denominator: win_chance.den as u64 }
}

/// The expected value of putting half the pot into a pot of `pot` cents that
/// is won with the given chance. The amount is stated over twice the
/// chance's denominator, so that half a cent can be told.
pub fn half_pot_value(pot: u64, win_chance: Ratio) -> (ev: Amount)
    ensures
        ev.numerator == 2 * pot * win_chance.num - pot * win_chance.den,
        ev.denominator == 2 * win_chance.den,
{
    proof {
        assert(0 <= pot * win_chance.num <= 0xffff_ffff_ffff_ffff * 0xffff_ffff) by (nonlinear_arith)
            requires
                0 <= pot <= 0xffff_ffff_ffff_ffff,
                0 <= win_chance.num <= 0xffff_ffff,
        ;
        assert(0 <= pot * win_chance.den <= 0xffff_ffff_ffff_ffff * 0xffff_ffff) by (nonlinear_arith)
            requires
                0 <= pot <= 0xffff_ffff_ffff_ffff,
                0 <= win_chance.den <= 0xffff_ffff,
        ;
        assert(2 * pot * win_chance.num == 2 * (pot * win_chance.num)) by (nonlinear_arith);
    }
    let gain: i128 = 2 * ((pot as i128) * (win_chance.num as i128));
    let cost: i128 = (pot as i128) * (win_chance.den as i128);
    Amount { numerator: gain - cost, denominator: 2 * (win_chance.den as u64) }
}

/// Where a place stands within a span of places, as a share: 0 at or below
/// the low end, 1 at or above the high end. Without a span, that is without
/// any place to compare with or with both ends equal, the share is 0.
pub open spec fn relative_share(place: int, low: int, high: int, any: bool) -> Ratio {
    if !any || high <= low {
        Ratio { num: 0, den: 1 }
    } else if place <= low {
        Ratio { num: 0, den: (high - low) as u32 }
    } else if place >= high {
        Ratio { num: (high - low) as u32, den: (high - low) as u32 }
    } else {
        Ratio { num: (place - low) as u32, den: (high - low) as u32 }
    }
}

/// Wherever the place lies, even below the low end, the share lies between
/// 0 and 1.
pub proof fn lemma_relative_share_bounds(place: int, low: int, high: int, any: bool)
    requires
        0 <= low <= u32::MAX,
        0 <= high <= u32::MAX,
    ensures
        relative_share(place, low, high, any).is_share(),
{
}

/// Computes where a place stands within a span of places.
pub fn relative_equity(place: u32, low: u32, high: u32, any: bool) -> (share: Ratio)
    ensures
        share == relative_share(place as int, low as int, high as int, any),
        share.is_share(),
{
    if !any || high <= low {
        Ratio { num: 0, den: 1 }
    } else if place <= low {
        Ratio { num: 0, den: high - low }
    } else if place >= high {
        Ratio { num: high - low, den: high - low }
    } else {
        Ratio { num: place - low, den: high - low }
    }
}

/// The mean equity of a starting hand is at least the threshold.
pub open spec fn mean_reaches(entry: StartingEquity, listed: nat, threshold: Ratio) -> bool {
    entry.position_sum * threshold.den >= threshold.num * entry.hands * listed
}

/// An opponent may hold the pair: the threshold is 0, or the starting-hand
/// table holds the pair and its mean starting equity reaches the threshold.
pub open spec fn plausible(
    starting: Map<Seq<Card>, StartingEquity>,
    listed: nat,
    threshold: Ratio,
    pair: Seq<Card>,
) -> bool {
    threshold.num == 0 || (starting.contains_key(pair) && mean_reaches(
        starting[pair],
        listed,
        threshold,
    ))
}

/// The better category that the player reaches if `card` comes next, if the
/// card is an out: the player's own category with the card is better than
/// the current one.
pub open spec fn out_for(
    table: Map<Seq<Card>, HandValue>,
    hole: Seq<Card>,
    community: Seq<Card>,
    current: HandRank,
    card: Card,
) -> Option<HandRank> {
    let rank = showdown_rank(table, hole, community.push(card));
    if rank.level() > current.level() {
        Some(rank)
    } else {
        None
    }
}

/// The outs among `cards`, counted by the category they lead to.
pub open spec fn outs_tally(
    table: Map<Seq<Card>, HandValue>,
    hole: Seq<Card>,
    community: Seq<Card>,
    current: HandRank,
    cards: Seq<Card>,
) -> RankHistogram
    decreases cards.len(),
{
    if cards.len() == 0 {
        RankHistogram::empty()
    } else {
        let before = outs_tally(table, hole, community, current, cards.drop_last());
        match out_for(table, hole, community, current, cards.last()) {
            Some(rank) => before.with_one_more(rank),
            None => before,
        }
    }
}

/// No more outs are counted than there are cards.
pub proof fn lemma_outs_total(
    table: Map<Seq<Card>, HandValue>,
    hole: Seq<Card>,
    community: Seq<Card>,
    current: HandRank,
    cards: Seq<Card>,
)
    ensures
        outs_tally(table, hole, community, current, cards).total() <= cards.len(),
    decreases cards.len(),
{
    if cards.len() > 0 {
        lemma_outs_total(table, hole, community, current, cards.drop_last());
    }
}

/// What is known of an opponent's range: how many pairs it holds, the
/// lowest and highest place among their best hands, the same among the pairs
/// whose best hand has the player's category, and the categories reached.
/// Every category is the own category of the pair that reaches it.
pub struct RangeTally {
    pub count: nat,
    pub low: nat,
    pub high: nat,
    pub same_count: nat,
    pub same_low: nat,
    pub same_high: nat,
    pub histogram: RankHistogram,
}

/// The lower of a running minimum and a new value; the new value if nothing
/// was counted before.
pub open spec fn lower(count: nat, low: nat, value: nat) -> nat {
    if count == 0 || value < low {
        value
    } else {
        low
    }
}

/// The higher of a running maximum and a new value; the new value if nothing
/// was counted before.
pub open spec fn higher(count: nat, high: nat, value: nat) -> nat {
    if count == 0 || value > high {
        value
    } else {
        high
    }
}

/// The range that the plausible pairs among `pairs` make up on the board.
pub open spec fn range_tally(
    table: Map<Seq<Card>, HandValue>,
    starting: Map<Seq<Card>, StartingEquity>,
    listed: nat,
    threshold: Ratio,
    community: Seq<Card>,
    current: HandRank,
    pairs: Seq<Seq<Card>>,
) -> RangeTally
    decreases pairs.len(),
{
    if pairs.len() == 0 {
        RangeTally {
            count: 0,
            low: 0,
            high: 0,
            same_count: 0,
            same_low: 0,
            same_high: 0,
            histogram: RankHistogram::empty(),
        }
    } else {
        let before = range_tally(
            table,
            starting,
            listed,
            threshold,
            community,
            current,
            pairs.drop_last(),
        );
        let pair = pairs.last();
        if !plausible(starting, listed, threshold, pair) {
            before
        } else {
            let value = showdown_value(table, pair, community);
            let place = value.position as nat;
            let rank = showdown_rank(table, pair, community);
            let same = rank == current;
            RangeTally {
                count: before.count + 1,
                low: lower(before.count, before.low, place),
                high: higher(before.count, before.high, place),
                same_count: if same {
                    before.same_count + 1
                } else {
                    before.same_count
                },
                same_low: if same {
                    lower(before.same_count, before.same_low, place)
                } else {
                    before.same_low
                },
                same_high: if same {
                    higher(before.same_count, before.same_high, place)
                } else {
                    before.same_high
                },
                histogram: before.histogram.with_one_more(rank),
            }
        }
    }
}

/// The cards that the player has not seen, in ascending order.
pub open spec fn unseen(deck: Seq<Card>, hole: Seq<Card>, community: Seq<Card>) -> Seq<Card> {
    ascending(excluding(deck, hole + community))
}

/// The player's standing.
#[derive(Clone, Copy, Debug, PartialEq, Eq, Structural)]
pub struct Estimate {
    /// The category of the player's best hand that is the player's own.
    pub rank: HandRank,
    /// The place of the player's best hand in the combination table.
    pub position: u32,
    /// Where the player's best hand stands within the opponent's range.
    pub relative_equity: Ratio,
    /// Where it stands among the hands of the range that share its category.
    pub same_rank_equity: Ratio,
    /// The outs, counted by the category they lead to; none on the river.
    pub outs: RankHistogram,
    /// The categories that the pairs of the opponent's range reach, each the
    /// pair's own.
    pub range: RankHistogram,
    /// The number of pairs in the opponent's range.
    pub range_size: u32,
}

/// The standing that follows from the player's best hand, the outs and the
/// opponent's range.
pub open spec fn estimate_of(
    value: HandValue,
    rank: HandRank,
    outs: RankHistogram,
    range: RangeTally,
) -> Estimate {
    Estimate {
        rank,
        position: value.position,
        relative_equity: relative_share(
            value.position as int,
            range.low as int,
            range.high as int,
            range.count > 0,
        ),
        same_rank_equity: relative_share(
            value.position as int,
            range.same_low as int,
            range.same_high as int,
            range.same_count > 0,
        ),
        outs,
        range: range.histogram,
        range_size: range.count as u32,
    }
}

/// The player's standing on the board, as a function of the tables.
pub open spec fn standing(
    table: Map<Seq<Card>, HandValue>,
    starting: Map<Seq<Card>, StartingEquity>,
    listed: nat,
    threshold: Ratio,
    deck: Seq<Card>,
    hole: Seq<Card>,
    community: Seq<Card>,
) -> Estimate {
    let value = showdown_value(table, hole, community);
    let current = showdown_rank(table, hole, community);
    let cards = unseen(deck, hole, community);
    let outs = if community.len() == 3 || community.len() == 4 {
        outs_tally(table, hole, community, current, cards)
    } else {
        RankHistogram::empty()
    };
    let range = range_tally(table, starting, listed, threshold, community, current, k_subsets(cards, 2));
    estimate_of(value, current, outs, range)
}

/// Whether the pair's mean starting equity reaches the threshold.
fn is_plausible(starting: &StartingHandTable, threshold: Ratio, pair: &Vec<Card>) -> (b: bool)
    ensures
        b == plausible(starting@, starting.listed(), threshold, pair@),
{
    if threshold.num == 0 {
        return true;
    }
    match starting.lookup(pair) {
        None => false,
        Some(entry) => {
            let listed: u128 = starting.listed_hands() as u128;
            let hands: u128 = entry.hands as u128;
            let num: u128 = threshold.num as u128;
            proof {
                assert(entry.position_sum * threshold.den <= 0xffff_ffff_ffff_ffff * 0xffff_ffff)
                    by (nonlinear_arith)
                    requires
                        0 <= entry.position_sum <= 0xffff_ffff_ffff_ffff,
                        0 <= threshold.den <= 0xffff_ffff,
                ;
                assert(num * hands <= 0xffff_ffff * 0xffff_ffff) by (nonlinear_arith)
                    requires
                        0 <= num <= 0xffff_ffff,
                        0 <= hands <= 0xffff_ffff,
                ;
                assert(num * hands * listed <= 0xffff_ffff * 0xffff_ffff * 0xffff_ffff)
                    by (nonlinear_arith)
                    requires
                        0 <= num * hands <= 0xffff_ffff * 0xffff_ffff,
                        0 <= listed <= 0xffff_ffff,
                ;
            }
            let have: u128 = (entry.position_sum as u128) * (threshold.den as u128);
            let need: u128 = num * hands * listed;
            have >= need
        },
    }
}

/// What the estimator asks of its inputs: two hole cards, three to five
/// community cards, no invalid and no repeated card among them or in the
/// deck, and a deck of at most 52 cards.
pub open spec fn sound_query(deck: Seq<Card>, hole: Seq<Card>, community: Seq<Card>) -> bool {
    &&& hole.len() == HOLE_SIZE
    &&& 3 <= community.len() <= 5
    &&& all_valid(hole + community)
    &&& (hole + community).no_duplicates()
    &&& all_valid(deck)
    &&& deck.no_duplicates()
    &&& deck.len() <= 52
}

/// The unseen cards are valid cards of the deck in strictly ascending
/// order, and none of them is a hole card or a community card.
pub proof fn lemma_unseen(deck: Seq<Card>, hole: Seq<Card>, community: Seq<Card>)
    requires
        all_valid(deck),
        deck.no_duplicates(),
    ensures
        strictly_sorted(unseen(deck, hole, community)),
        all_valid(unseen(deck, hole, community)),
        unseen(deck, hole, community).len() <= deck.len(),
        forall|card: Card| #[trigger]
            unseen(deck, hole, community).contains(card) ==> deck.contains(card) && !(hole
                + community).contains(card),
{
    let left = excluding(deck, hole + community);
    let cards = unseen(deck, hole, community);
    lemma_excluding(deck, hole + community);
    crate::hand::lemma_ascending_exists(left);
    lemma_same_cards(cards, left);
    lemma_sorted_distinct_is_strict(cards);
}

/// An opponent's pair of unseen cards can be judged on the board.
proof fn lemma_opponent_cards(
    table: Map<Seq<Card>, HandValue>,
    deck: Seq<Card>,
    hole: Seq<Card>,
    community: Seq<Card>,
    pair: Seq<Card>,
)
    requires
        sound_query(deck, hole, community),
        covers(table, deck + hole + community),
        pair.len() == 2,
        strictly_sorted(pair),
        forall|j: int| 0 <= j < 2 ==> unseen(deck, hole, community).contains(#[trigger] pair[j]),
    ensures
        is_hole_pair(pair),
        all_valid(pair + community),
        (pair + community).no_duplicates(),
        covers(table, pair + community),
        drawn_from(pair, deck),
{
    lemma_unseen(deck, hole, community);
    let known = hole + community;
    let all = pair + community;
    let cards = unseen(deck, hole, community);
    assert forall|j: int| 0 <= j < 2 implies (#[trigger] pair[j]).valid() && deck.contains(pair[j])
        && !known.contains(pair[j]) by {
        assert(cards.contains(pair[j]));
        let t = choose|t: int| 0 <= t < cards.len() && cards[t] == pair[j];
        assert(cards[t].valid());
    }
    assert(pair[0].valid() && pair[1].valid());
    assert forall|x: int| 0 <= x < all.len() implies (#[trigger] all[x]).valid() by {
        if x >= 2 {
            assert(all[x] == known[x]);
        }
    }
    lemma_strict_is_distinct(pair);
    assert forall|x: int, y: int| 0 <= x < all.len() && 0 <= y < all.len() && x != y implies all[x]
        != all[y] by {
        if x >= 2 && y >= 2 {
            assert(all[x] == known[x] && all[y] == known[y]);
        } else if x >= 2 {
            assert(all[x] == known[x]);
            assert(known.contains(known[x]));
        } else if y >= 2 {
            assert(all[y] == known[y]);
            assert(known.contains(known[y]));
        }
    }
    let big = deck + hole + community;
    assert forall|x: int| 0 <= x < all.len() implies big.contains(#[trigger] all[x]) by {
        if x >= 2 {
            assert(big[deck.len() + 2 + (x - 2)] == all[x]);
        } else {
            let t = choose|t: int| 0 <= t < deck.len() && deck[t] == pair[x];
            assert(big[t] == all[x]);
        }
    }
    lemma_covers_fewer(table, big, all);
}

/// The player's cards can be judged on the board with one more unseen card.
proof fn lemma_next_card(
    table: Map<Seq<Card>, HandValue>,
    deck: Seq<Card>,
    hole: Seq<Card>,
    community: Seq<Card>,
    card: Card,
)
    requires
        sound_query(deck, hole, community),
        covers(table, deck + hole + community),
        unseen(deck, hole, community).contains(card),
    ensures
        all_valid(hole + community.push(card)),
        (hole + community.push(card)).no_duplicates(),
        covers(table, hole + community.push(card)),
{
    lemma_unseen(deck, hole, community);
    let known = hole + community;
    let all = hole + community.push(card);
    let cards = unseen(deck, hole, community);
    let t = choose|t: int| 0 <= t < cards.len() && cards[t] == card;
    assert(cards[t].valid());
    assert(all =~= known.push(card));
    assert forall|x: int| 0 <= x < all.len() implies (#[trigger] all[x]).valid() by {
        if x < known.len() {
            assert(all[x] == known[x]);
        }
    }
    assert forall|x: int, y: int| 0 <= x < all.len() && 0 <= y < all.len() && x != y implies all[x]
        != all[y] by {
        if x < known.len() && y < known.len() {
            assert(all[x] == known[x] && all[y] == known[y]);
        } else if x < known.len() {
            assert(known.contains(known[x]));
        } else {
            assert(known.contains(known[y]));
        }
    }
    let big = deck + hole + community;
    assert forall|x: int| 0 <= x < all.len() implies big.contains(#[trigger] all[x]) by {
        if x < known.len() {
            assert(big[deck.len() + x] == all[x]);
        } else {
            let d = choose|d: int| 0 <= d < deck.len() && deck[d] == card;
            assert(big[d] == all[x]);
        }
    }
    lemma_covers_fewer(table, big, all);
}

/// Counts the outs: the unseen cards that lift the player to a better
/// category in which the hole cards take part.
fn count_outs(
    hole: &Vec<Card>,
    community: &Vec<Card>,
    table: &CombinationTable,
    current: HandRank,
    cards: &Vec<Card>,
    Ghost(deck): Ghost<Seq<Card>>,
) -> (outs: RankHistogram)
    requires
        table.wf(),
        sound_query(deck, hole@, community@),
        community.len() <= 4,
        covers(table@, deck + hole@ + community@),
        cards@ == unseen(deck, hole@, community@),
    ensures
        outs == outs_tally(table@, hole@, community@, current, cards@),
        outs.total() <= cards.len(),
{
    let mut outs = RankHistogram {
        high_card: 0,
        pair: 0,
        two_pairs: 0,
        three_of_a_kind: 0,
        straight: 0,
        flush: 0,
        full_house: 0,
        four_of_a_kind: 0,
        straight_flush: 0,
        royal_flush: 0,
    };
    let mut i: usize = 0;
    while i < cards.len()
        invariant
            i <= cards.len(),
            table.wf(),
            sound_query(deck, hole@, community@),
            community.len() <= 4,
            covers(table@, deck + hole@ + community@),
            cards@ == unseen(deck, hole@, community@),
            outs == outs_tally(table@, hole@, community@, current, cards@.take(i as int)),
            outs.total() <= i,
        decreases cards.len() - i,
    {
        let card = cards[i];
        let mut board = crate::hand::copy_cards(community);
        board.push(card);
        proof {
            assert(cards@.take(i + 1).drop_last() =~= cards@.take(i as int));
            assert(cards@.take(i + 1).last() == card);
            assert(cards@.contains(card));
            lemma_next_card(table@, deck, hole@, community@, card);
            assert(board@ == community@.push(card));
        }
        let best = evaluate_best_hand(hole, &board, table);
        if best.rank.outranks(current) {
            outs = outs.bump(best.rank);
        }
        i += 1;
    }
    proof {
        assert(cards@.take(cards.len() as int) =~= cards@);
    }
    outs
}

/// What the range loop has counted so far.
struct RangeCount {
    count: u32,
    low: u32,
    high: u32,
    same_count: u32,
    same_low: u32,
    same_high: u32,
    histogram: RankHistogram,
}

impl RangeCount {
    /// The counts are those of the tally.
    spec fn matches(self, tally: RangeTally) -> bool {
        &&& self.count == tally.count
        &&& self.low == tally.low
        &&& self.high == tally.high
        &&& self.same_count == tally.same_count
        &&& self.same_low == tally.same_low
        &&& self.same_high == tally.same_high
        &&& self.histogram == tally.histogram
    }
}

/// Walks the pairs of unseen cards and tallies the opponent's range.
fn tally_range(
    community: &Vec<Card>,
    table: &CombinationTable,
    starting: &StartingHandTable,
    threshold: Ratio,
    current: HandRank,
    cards: &Vec<Card>,
    Ghost(deck): Ghost<Seq<Card>>,
    Ghost(hole): Ghost<Seq<Card>>,
) -> (out: RangeCount)
    requires
        table.wf(),
        sound_query(deck, hole, community@),
        covers(table@, deck + hole + community@),
        cards@ == unseen(deck, hole, community@),
    ensures
        out.matches(
            range_tally(
                table@,
                starting@,
                starting.listed(),
                threshold,
                community@,
                current,
                k_subsets(cards@, 2),
            ),
        ),
{
    let pairs = combinations(cards, 2);
    let ghost picks = k_subsets(cards@, 2);
    proof {
        lemma_unseen(deck, hole, community@);
        lemma_k_subsets_len(cards@, 2);
        lemma_choose_two(cards@.len());
        let n = cards@.len() as int;
        assert(n * (n - 1) <= 52 * 51) by (nonlinear_arith)
            requires
                0 <= n <= 52,
        ;
    }
    let mut out = RangeCount {
        count: 0,
        low: 0,
        high: 0,
        same_count: 0,
        same_low: 0,
        same_high: 0,
        histogram: RankHistogram {
            high_card: 0,
            pair: 0,
            two_pairs: 0,
            three_of_a_kind: 0,
            straight: 0,
            flush: 0,
            full_house: 0,
            four_of_a_kind: 0,
            straight_flush: 0,
            royal_flush: 0,
        },
    };
    let mut i: usize = 0;
    while i < pairs.len()
        invariant
            i <= pairs.len() <= 1326,
            table.wf(),
            sound_query(deck, hole, community@),
            covers(table@, deck + hole + community@),
            cards@ == unseen(deck, hole, community@),
            strictly_sorted(cards@),
            picks == k_subsets(cards@, 2),
            pairs@.len() == picks.len(),
            forall|k: int| 0 <= k < pairs@.len() ==> (#[trigger] pairs@[k])@ == picks[k],
            out.matches(
                range_tally(
                    table@,
                    starting@,
                    starting.listed(),
                    threshold,
                    community@,
                    current,
                    picks.take(i as int),
                ),
            ),
            out.count <= i,
            out.same_count <= out.count,
            out.histogram.total() == out.count,
        decreases pairs.len() - i,
    {
        let pair = &pairs[i];
        proof {
            assert(picks.take(i + 1).drop_last() =~= picks.take(i as int));
            assert(picks.take(i + 1).last() == pair@);
            lemma_k_subset_member(cards@, 2, i as int);
            lemma_opponent_cards(table@, deck, hole, community@, pair@);
            table.lemma_wf_view();
        }
        if is_plausible(starting, threshold, pair) {
            let best = evaluate_best_hand(pair, community, table);
            let place = best.position;
            let same = best.rank == current;
            if out.count == 0 || place < out.low {
                out.low = place;
            }
            if out.count == 0 || place > out.high {
                out.high = place;
            }
            if same {
                if out.same_count == 0 || place < out.same_low {
                    out.same_low = place;
                }
                if out.same_count == 0 || place > out.same_high {
                    out.same_high = place;
                }
                out.same_count = out.same_count + 1;
            }
            out.count = out.count + 1;
            out.histogram = out.histogram.bump(best.rank);
        }
        i += 1;
    }
    proof {
        assert(picks.take(pairs.len() as int) =~= picks);
    }
    out
}

/// Estimates the player's standing: the category and place of the player's
/// best hand, the outs on flop and turn, the make-up of the opponent's
/// range, and where the player's hand stands within that range.
///
/// The opponent's range holds every pair of unseen cards whose mean
/// starting equity reaches `threshold`; a threshold of 0 admits every pair.
pub fn get_hand_equity_and_opponent_range(
    hand: &Vec<Card>,
    community: &Vec<Card>,
    combinations: &CombinationTable,
    starting_hands: &StartingHandTable,
    card_deck: &Vec<Card>,
    threshold: Ratio,
) -> (estimate: Estimate)
    requires
        combinations.wf(),
        sound_query(card_deck@, hand@, community@),
        covers(combinations@, card_deck@ + hand@ + community@),
    ensures
        estimate == standing(
            combinations@,
            starting_hands@,
            starting_hands.listed(),
            threshold,
            card_deck@,
            hand@,
            community@,
        ),
        estimate.relative_equity.is_share(),
        estimate.same_rank_equity.is_share(),
{
    proof {
        let big = card_deck@ + hand@ + community@;
        let mine = hand@ + community@;
        assert forall|x: int| 0 <= x < mine.len() implies big.contains(#[trigger] mine[x]) by {
            assert(big[card_deck@.len() + x] == mine[x]);
        }
        lemma_covers_fewer(combinations@, big, mine);
    }
    let me = evaluate_best_hand(hand, community, combinations);
    let known = join_cards(hand, community);
    let left = remove_cards(card_deck, &known);
    let cards = sort_cards(&left);
    let outs = if community.len() == 3 || community.len() == 4 {
        count_outs(hand, community, combinations, me.rank, &cards, Ghost(card_deck@))
    } else {
        RankHistogram {
            high_card: 0,
            pair: 0,
            two_pairs: 0,
            three_of_a_kind: 0,
            straight: 0,
            flush: 0,
            full_house: 0,
            four_of_a_kind: 0,
            straight_flush: 0,
            royal_flush: 0,
        }
    };
    let range = tally_range(
        community,
        combinations,
        starting_hands,
        threshold,
        me.rank,
        &cards,
        Ghost(card_deck@),
        Ghost(hand@),
    );
    Estimate {
        rank: me.rank,
        position: me.position,
        relative_equity: relative_equity(me.position, range.low, range.high, range.count > 0),
        same_rank_equity: relative_equity(
            me.position,
            range.same_low,
            range.same_high,
            range.same_count > 0,
        ),
        outs,
        range: range.histogram,
        range_size: range.count,
    }
}

/// Why a query cannot be answered.
#[derive(Clone, Copy, Debug, PartialEq, Eq, Structural)]
pub enum QueryError {
    /// Fewer than two hole cards or fewer than three community cards.
    InsufficientCards,
    /// More than two hole cards or more than five community cards.
    TooManyCards,
    /// A card with a rank outside 2 to 14.
    InvalidCard,
    /// The same card twice; `card` is the first card that occurs again.
    DuplicateCards { card: Card },
}

/// What is wrong with the cards of a query, if anything. Of several faults
/// the first in this order is named: too few cards, too many cards, an
/// invalid card, a repeated card.
pub open spec fn query_fault(hole: Seq<Card>, community: Seq<Card>) -> Option<QueryError> {
    if hole.len() < HOLE_SIZE || community.len() < 3 {
        Some(QueryError::InsufficientCards)
    } else if hole.len() > HOLE_SIZE || community.len() > 5 {
        Some(QueryError::TooManyCards)
    } else if !all_valid(hole + community) {
        Some(QueryError::InvalidCard)
    } else if !(hole + community).no_duplicates() {
        Some(QueryError::DuplicateCards { card: first_repeated(hole + community) })
    } else {
        None
    }
}

/// Checks the cards of a query.
pub fn check_query(hole: &Vec<Card>, community: &Vec<Card>) -> (out: Option<QueryError>)
    ensures
        out == query_fault(hole@, community@),
{
    if hole.len() < HOLE_SIZE || community.len() < 3 {
        return Some(QueryError::InsufficientCards);
    }
    if hole.len() > HOLE_SIZE || community.len() > 5 {
        return Some(QueryError::TooManyCards);
    }
    let known = join_cards(hole, community);
    if !all_cards_valid(&known) {
        return Some(QueryError::InvalidCard);
    }
    match find_duplicate_card(&known) {
        Some(card) => Some(QueryError::DuplicateCards { card }),
        None => None,
    }
}

/// Answers a query: checks the cards and, where nothing is wrong with them,
/// estimates the player's standing.
pub fn estimate_opponent_range_and_equity(
    hole: &Vec<Card>,
    community: &Vec<Card>,
    combination_table: &CombinationTable,
    starting_hand_table: &StartingHandTable,
    deck: &Vec<Card>,
    threshold: Ratio,
) -> (out: Result<Estimate, QueryError>)
    requires
        combination_table.wf(),
        combination_table.complete(),
        all_valid(deck@),
        deck@.no_duplicates(),
        deck.len() <= 52,
    ensures
        out == match query_fault(hole@, community@) {
            Some(fault) => Err::<Estimate, QueryError>(fault),
            None => Ok(
                standing(
                    combination_table@,
                    starting_hand_table@,
                    starting_hand_table.listed(),
                    threshold,
                    deck@,
                    hole@,
                    community@,
                ),
            ),
        },
        out matches Ok(estimate) ==> estimate.relative_equity.is_share()
            && estimate.same_rank_equity.is_share(),
{
    match check_query(hole, community) {
        Some(fault) => Err(fault),
        None => {
            proof {
                crate::selector::lemma_complete_covers(
                    combination_table,
                    deck@ + hole@ + community@,
                );
            }
            Ok(
                get_hand_equity_and_opponent_range(
                    hole,
                    community,
                    combination_table,
                    starting_hand_table,
                    deck,
                    threshold,
                ),
            )
        },
    }
}

} // verus!
