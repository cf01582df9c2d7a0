//! Monte Carlo simulation of full rounds: shuffling, dealing, finding the
//! winner and the street on which the winner took the lead, and keeping
//! count per hole pair.

use crate::card::{all_valid, Card};
use crate::hand::{first_cards, is_hole_pair, key_of_pair, views, lemma_pair_key_injective, lemma_same_cards,
    lemma_sorted_distinct_is_strict, pair_key, sort_cards, HOLE_SIZE};
use crate::rank::{score_rank, HandRank, RankHistogram};
use crate::selector::{covers, drawn_from, evaluate_best_hand, showdown_value};
use crate::starting::lemma_pair_key_range;
use crate::table::{CombinationTable, HandValue};
use crate::totals::{rounds_played, rounds_won};
use rand::{RngCore, SeedableRng};
use rand_chacha::ChaCha20Rng;
use std::collections::HashMap;
use vstd::prelude::*;

verus! {

/// The ChaCha generator with 20 rounds of the rand_chacha crate. Its state
/// is not modelled.
#[verifier::external_type_specification]
#[verifier::external_body]
pub struct ExChaCha20Rng(ChaCha20Rng);

/// A generator whose stream is fixed by `seed`.
///
/// Calls `SeedableRng::seed_from_u64` of the rand crate for the ChaCha
/// generator. Nothing is claimed of the generator.
#[verifier::external_body]
pub(crate) fn seeded_generator(seed: u64) -> (rng: ChaCha20Rng) {
    ChaCha20Rng::seed_from_u64(seed)
}

/// The next 32 bits of the generator's stream.
///
/// Calls `RngCore::next_u32` of the rand crate. Nothing is claimed of the
/// number: callers are proved for every value of it.
#[verifier::external_body]
pub(crate) fn next_random(rng: &mut ChaCha20Rng) -> (number: u32) {
    rng.next_u32()
}

/// Exchanges the cards at two places of the deck.
pub fn swap_cards(deck: &mut Vec<Card>, a: usize, b: usize)
    requires
        a < old(deck).len(),
        b < old(deck).len(),
    ensures
        final(deck)@ == old(deck)@.update(a as int, old(deck)@[b as int]).update(
            b as int,
            old(deck)@[a as int],
        ),
        final(deck)@.to_multiset() == old(deck)@.to_multiset(),
{
    let first = deck[a];
    let second = deck[b];
    let ghost start = deck@;
    deck.set(a, second);
    let ghost middle = deck@;
    deck.set(b, first);
    proof {
        broadcast use vstd::seq_lib::to_multiset_update;

        assert(middle == start.update(a as int, second));
        assert(deck@ == middle.update(b as int, first));
        assert(middle.to_multiset() =~= start.to_multiset().insert(second).remove(first));
        assert(middle[b as int] == second);
        assert(deck@.to_multiset() =~= middle.to_multiset().insert(first).remove(second));
        assert(start.to_multiset().count(first) > 0) by {
            broadcast use vstd::seq_lib::to_multiset_contains;

            assert(start.contains(start[a as int]));
        }
        assert(start.to_multiset().count(second) > 0) by {
            broadcast use vstd::seq_lib::to_multiset_contains;

            assert(start.contains(start[b as int]));
        }
        assert(deck@.to_multiset() =~= start.to_multiset());
    }
}

/// Shuffles the deck: every place in turn, from the first to the last, is
/// exchanged with a place drawn from the generator, the drawn number taken
/// modulo the size of the deck. Whatever is drawn, the deck is the one that
/// these exchanges make of it for some sequence of drawn numbers, and it
/// keeps its cards.
pub fn shuffle_deck(deck: &mut Vec<Card>, rng: &mut ChaCha20Rng)
    requires
        0 < old(deck).len() <= u32::MAX,
    ensures
        exists|draws: Seq<u32>|
            draws.len() == old(deck).len() && final(deck)@ == #[trigger] exchanged(
                old(deck)@,
                draws,
                old(deck).len() as int,
            ),
        final(deck)@.to_multiset() == old(deck)@.to_multiset(),
        final(deck).len() == old(deck).len(),
{
    let ghost start = deck@;
    let ghost mut draws: Seq<u32> = Seq::empty();
    let size = deck.len();
    let modulus: u32 = size as u32;
    let mut place: usize = 0;
    while place < size
        invariant
            place <= size,
            deck.len() == size,
            start.len() == size,
            0 < size <= u32::MAX,
            modulus == size,
            draws.len() == place,
            deck@ == exchanged(start, draws, place as int),
            deck@.to_multiset() == start.to_multiset(),
        decreases size - place,
    {
        let number = next_random(rng);
        let drawn = (number % modulus) as usize;
        proof {
            lemma_exchanged_prefix(start, draws, draws.push(number), place as int);
            draws = draws.push(number);
        }
        swap_cards(deck, drawn, place);
        place += 1;
    }
    proof {
        assert(draws.len() == size && deck@ == exchanged(start, draws, size as int));
    }
}

/// The deck after each of its first `done` places, in turn, was exchanged
/// with the place that the drawn number for it names: the number modulo the
/// size of the deck.
pub open spec fn exchanged(deck: Seq<Card>, draws: Seq<u32>, done: int) -> Seq<Card>
    decreases done,
{
    if done <= 0 {
        deck
    } else {
        let before = exchanged(deck, draws, done - 1);
        let place = done - 1;
        let drawn = draws[place] as int % deck.len() as int;
        before.update(drawn, before[place]).update(place, before[drawn])
    }
}

/// The exchanges of the first places depend on the first drawn numbers only,
/// and keep the length of the deck.
pub proof fn lemma_exchanged_prefix(deck: Seq<Card>, draws: Seq<u32>, more: Seq<u32>, done: int)
    requires
        0 <= done <= draws.len() <= more.len(),
        done <= deck.len(),
        forall|i: int| 0 <= i < draws.len() ==> draws[i] == more[i],
    ensures
        exchanged(deck, draws, done) == exchanged(deck, more, done),
        exchanged(deck, draws, done).len() == deck.len(),
    decreases done,
{
    if done > 0 {
        lemma_exchanged_prefix(deck, draws, more, done - 1);
        let drawn = draws[done - 1] as int % deck.len() as int;
        assert(0 <= drawn < deck.len());
    }
}

/// The cards dealt in one round: two hole cards per player, in ascending
/// order, and five community cards in the order they were turned.
#[derive(Debug)]
pub struct Deal {
    pub players: Vec<Vec<Card>>,
    pub community: Vec<Card>,
}

/// Number of community cards in a full round.
pub const BOARD_SIZE: usize = 5;

impl Deal {
    /// A deal is well formed when it has at least one player, every player
    /// holds a hole pair, there are five community cards, no player's cards
    /// repeat among the player's own and the community cards, and no two
    /// players hold the same pair.
    pub open spec fn wf(&self) -> bool {
        &&& self.players@.len() > 0
        &&& self.community@.len() == BOARD_SIZE
        &&& forall|i: int|
            0 <= i < self.players@.len() ==> {
                &&& is_hole_pair((#[trigger] self.players@[i])@)
                &&& all_valid(self.players@[i]@ + self.community@)
                &&& (self.players@[i]@ + self.community@).no_duplicates()
            }
        &&& forall|i: int, j: int|
            0 <= i < j < self.players@.len() ==> (#[trigger] self.players@[i])@ != (
            #[trigger] self.players@[j])@
    }

    /// Some player holds the hole pair.
    pub open spec fn seats(&self, hole: Seq<Card>) -> bool {
        exists|i: int| 0 <= i < self.players@.len() && (#[trigger] self.players@[i])@ == hole
    }

    /// Every card of the deal is one of `cards`.
    pub open spec fn drawn_from(&self, cards: Seq<Card>) -> bool {
        &&& forall|k: int| 0 <= k < self.community@.len() ==> cards.contains(#[trigger] self.community@[k])
        &&& forall|i: int, k: int|
            0 <= i < self.players@.len() && 0 <= k < self.players@[i]@.len() ==> cards.contains(
                #[trigger] self.players@[i]@[k],
            )
    }
}

/// The unordered hole cards that player `seat` of `players` gets from a
/// deck dealt from its end: one card each in a first pass, a second card
/// each in a second pass.
pub open spec fn dealt_hole(deck: Seq<Card>, players: int, seat: int) -> Seq<Card> {
    seq![deck[deck.len() - 1 - seat], deck[deck.len() - 1 - players - seat]]
}

/// The community cards that follow the hole cards of `players` players.
pub open spec fn dealt_board(deck: Seq<Card>, players: int) -> Seq<Card> {
    Seq::new(BOARD_SIZE as nat, |k: int| deck[deck.len() - 1 - 2 * players - k])
}

/// Deals a round from the end of the deck: one card to every player, a
/// second card to every player, then five community cards. Each player's
/// hole cards are put in ascending order.
pub fn deal_round(deck: &Vec<Card>, num_players: usize) -> (deal: Deal)
    requires
        num_players >= 1,
        2 * num_players + BOARD_SIZE <= deck.len(),
        all_valid(deck@),
        deck@.no_duplicates(),
    ensures
        deal.wf(),
        deal.drawn_from(deck@),
        deal.players@.len() == num_players,
        deal.community@ == dealt_board(deck@, num_players as int),
        forall|i: int|
            0 <= i < num_players ==> (#[trigger] deal.players@[i])@ == crate::hand::ascending(
                dealt_hole(deck@, num_players as int, i),
            ),
{
    let size = deck.len();
    let mut players: Vec<Vec<Card>> = Vec::new();
    let mut seat: usize = 0;
    while seat < num_players
        invariant
            seat <= num_players,
            size == deck.len(),
            2 * num_players + BOARD_SIZE <= size,
            all_valid(deck@),
            deck@.no_duplicates(),
            players@.len() == seat,
            forall|i: int|
                0 <= i < seat ==> (#[trigger] players@[i])@ == crate::hand::ascending(
                    dealt_hole(deck@, num_players as int, i),
                ) && is_hole_pair(players@[i]@),
        decreases num_players - seat,
    {
        let mut two: Vec<Card> = Vec::new();
        two.push(deck[size - 1 - seat]);
        two.push(deck[size - 1 - num_players - seat]);
        let hole = sort_cards(&two);
        proof {
            assert(two@ =~= dealt_hole(deck@, num_players as int, seat as int));
            assert(two@.no_duplicates());
            assert(all_valid(two@));
            lemma_same_cards(hole@, two@);
            lemma_sorted_distinct_is_strict(hole@);
        }
        players.push(hole);
        seat += 1;
    }
    let mut community: Vec<Card> = Vec::new();
    let mut k: usize = 0;
    while k < BOARD_SIZE
        invariant
            k <= BOARD_SIZE,
            size == deck.len(),
            2 * num_players + BOARD_SIZE <= size,
            community@.len() == k,
            forall|m: int| 0 <= m < k ==> #[trigger] community@[m] == deck@[size - 1 - 2 * num_players - m],
        decreases BOARD_SIZE - k,
    {
        community.push(deck[size - 1 - 2 * num_players - k]);
        k += 1;
    }
    let deal = Deal { players, community };
    proof {
        assert(deal.community@ =~= dealt_board(deck@, num_players as int));
        lemma_dealt_cards(deck@, num_players as int, deal);
    }
    deal
}

/// Cards dealt from a deck without repeats form a well-formed deal.
proof fn lemma_dealt_cards(deck: Seq<Card>, players: int, deal: Deal)
    requires
        players >= 1,
        2 * players + BOARD_SIZE <= deck.len(),
        all_valid(deck),
        deck.no_duplicates(),
        deal.players@.len() == players,
        deal.community@ == dealt_board(deck, players),
        forall|i: int|
            0 <= i < players ==> (#[trigger] deal.players@[i])@ == crate::hand::ascending(
                dealt_hole(deck, players, i),
            ) && is_hole_pair(deal.players@[i]@),
    ensures
        deal.wf(),
        deal.drawn_from(deck),
{
    let size = deck.len() as int;
    let board = deal.community@;
    assert forall|i: int| 0 <= i < players implies {
        let hole = (#[trigger] deal.players@[i])@;
        &&& hole.to_multiset() == dealt_hole(deck, players, i).to_multiset()
        &&& (hole[0] == deck[size - 1 - i] && hole[1] == deck[size - 1 - players - i]) || (hole[1]
            == deck[size - 1 - i] && hole[0] == deck[size - 1 - players - i])
    } by {
        let two = dealt_hole(deck, players, i);
        let hole = deal.players@[i]@;
        lemma_two_in_order(two);
        lemma_same_cards(hole, two);
        assert(two.contains(two[0]) && two.contains(two[1]));
        assert(hole.contains(two[0]) && hole.contains(two[1]));
        assert(two[0] != two[1]);
    }
    assert forall|i: int| 0 <= i < players implies all_valid(
        (#[trigger] deal.players@[i])@ + board,
    ) && (deal.players@[i]@ + board).no_duplicates() by {
        let hole = deal.players@[i]@;
        let all = hole + board;
        assert forall|x: int| 0 <= x < all.len() implies (#[trigger] all[x]).valid() by {
            if x >= 2 {
                assert(all[x] == deck[size - 1 - 2 * players - (x - 2)]);
            }
        }
        assert forall|x: int, y: int| 0 <= x < all.len() && 0 <= y < all.len() && x != y implies all[x]
            != all[y] by {
            if x >= 2 {
                assert(all[x] == deck[size - 1 - 2 * players - (x - 2)]);
            }
            if y >= 2 {
                assert(all[y] == deck[size - 1 - 2 * players - (y - 2)]);
            }
        }
    }
    assert forall|i: int, j: int| 0 <= i < j < players implies (#[trigger] deal.players@[i])@ != (
    #[trigger] deal.players@[j])@ by {
        let a = deal.players@[i]@;
        let b = deal.players@[j]@;
        assert(a[0] != b[0] || a[1] != b[1]);
    }
    assert forall|i: int, k: int|
        0 <= i < deal.players@.len() && 0 <= k < deal.players@[i]@.len() implies deck.contains(
        #[trigger] deal.players@[i]@[k],
    ) by {
        let hole = deal.players@[i]@;
        assert(deck.contains(deck[size - 1 - i]));
        assert(deck.contains(deck[size - 1 - players - i]));
    }
    assert forall|k: int| 0 <= k < board.len() implies deck.contains(#[trigger] board[k]) by {
        assert(board[k] == deck[size - 1 - 2 * players - k]);
    }
}

/// The ascending order of two cards holds the same two cards.
proof fn lemma_two_in_order(two: Seq<Card>)
    requires
        two.len() == 2,
    ensures
        crate::hand::ascending(two).to_multiset() == two.to_multiset(),
        crate::card::sorted(crate::hand::ascending(two)),
{
    let low = if two[0].sort_key() <= two[1].sort_key() {
        seq![two[0], two[1]]
    } else {
        seq![two[1], two[0]]
    };
    assert(crate::card::sorted(low));
    assert(low.to_multiset() =~= two.to_multiset()) by {
        broadcast use vstd::seq_lib::group_to_multiset_ensures;

        assert(two =~= seq![two[0]].push(two[1]));
        assert(low =~= seq![low[0]].push(low[1]));
        assert(seq![two[0]] =~= Seq::<Card>::empty().push(two[0]));
        assert(seq![two[1]] =~= Seq::<Card>::empty().push(two[1]));
    }
}

/// The three streets on which community cards are turned.
#[derive(Clone, Copy, Debug, PartialEq, Eq, Hash, Structural)]
pub enum Street {
    Flop,
    Turn,
    River,
}

/// Result `a` ranks above result `b`: by the higher place, and between equal
/// places by the stronger category.
pub open spec fn outdoes(a: HandValue, b: HandValue) -> bool {
    a.position > b.position || (a.position == b.position && score_rank(a.score as int).level()
        > score_rank(b.score as int).level())
}

/// The player on seat `seat` leads on the board: no player's result ranks
/// above this player's, and the result of every player on a lower seat ranks
/// below it. Players with equal results do not split: the lowest seat leads.
/// `players` holds the hole cards of every seat.
pub open spec fn is_leader(
    table: Map<Seq<Card>, HandValue>,
    players: Seq<Seq<Card>>,
    board: Seq<Card>,
    seat: int,
) -> bool {
    &&& 0 <= seat < players.len()
    &&& forall|j: int|
        0 <= j < players.len() ==> !outdoes(
            showdown_value(table, #[trigger] players[j], board),
            showdown_value(table, players[seat], board),
        )
    &&& forall|j: int|
        0 <= j < seat ==> outdoes(
            showdown_value(table, players[seat], board),
            showdown_value(table, #[trigger] players[j], board),
        )
}

/// Only one seat leads.
pub proof fn lemma_leader_unique(
    table: Map<Seq<Card>, HandValue>,
    players: Seq<Seq<Card>>,
    board: Seq<Card>,
    a: int,
    b: int,
)
    requires
        is_leader(table, players, board, a),
        is_leader(table, players, board, b),
    ensures
        a == b,
{
    if a < b {
        assert(outdoes(
            showdown_value(table, players[b], board),
            showdown_value(table, players[a], board),
        ));
        assert(!outdoes(
            showdown_value(table, players[b], board),
            showdown_value(table, players[a], board),
        ));
    } else if b < a {
        assert(outdoes(
            showdown_value(table, players[a], board),
            showdown_value(table, players[b], board),
        ));
        assert(!outdoes(
            showdown_value(table, players[a], board),
            showdown_value(table, players[b], board),
        ));
    }
}

/// The seat that leads on the board.
pub open spec fn leader(
    table: Map<Seq<Card>, HandValue>,
    players: Seq<Seq<Card>>,
    board: Seq<Card>,
) -> int {
    choose|seat: int| is_leader(table, players, board, seat)
}

/// The street on which the winner took the lead for good: the flop if the
/// winner led there, else the turn if the winner led there, else the river.
pub open spec fn lock_street(flop_leader: int, turn_leader: int, winner: int) -> Street {
    if flop_leader == winner {
        Street::Flop
    } else if turn_leader == winner {
        Street::Turn
    } else {
        Street::River
    }
}

/// How a round ended: the winner's seat, every player's category at the
/// showdown, and the street on which the winner took the lead.
#[derive(Debug)]
pub struct RoundOutcome {
    pub winner: usize,
    pub ranks: Vec<HandRank>,
    pub locked: Street,
}

/// Every player's cards can be judged on the board: the cards are valid and
/// without repeats, and the table holds every hand they form.
pub open spec fn judgeable(table: Map<Seq<Card>, HandValue>, players: Seq<Vec<Card>>, board: Seq<Card>) -> bool {
    forall|i: int|
        0 <= i < players.len() ==> {
            &&& (#[trigger] players[i])@.len() == HOLE_SIZE
            &&& all_valid(players[i]@ + board)
            &&& (players[i]@ + board).no_duplicates()
            &&& covers(table, players[i]@ + board)
        }
}

/// What can be judged on a board can be judged on the board's first cards.
pub proof fn lemma_judgeable_prefix(
    table: Map<Seq<Card>, HandValue>,
    players: Seq<Vec<Card>>,
    board: Seq<Card>,
    shown: int,
)
    requires
        judgeable(table, players, board),
        0 <= shown <= board.len(),
    ensures
        judgeable(table, players, board.take(shown)),
{
    let early = board.take(shown);
    assert forall|i: int| 0 <= i < players.len() implies {
        &&& (#[trigger] players[i])@.len() == HOLE_SIZE
        &&& all_valid(players[i]@ + early)
        &&& (players[i]@ + early).no_duplicates()
        &&& covers(table, players[i]@ + early)
    } by {
        let full = players[i]@ + board;
        let part = players[i]@ + early;
        assert forall|x: int| 0 <= x < part.len() implies part[x] == full[x] by {}
        assert forall|x: int| 0 <= x < part.len() implies (#[trigger] part[x]).valid() by {
            assert(full[x].valid());
        }
        assert forall|hand: Seq<Card>|
            crate::hand::is_hand(hand) && #[trigger] drawn_from(hand, part) implies table.contains_key(
            hand,
        ) by {
            assert forall|k: int| 0 <= k < hand.len() implies full.contains(#[trigger] hand[k]) by {
                assert(part.contains(hand[k]));
                let x = choose|x: int| 0 <= x < part.len() && part[x] == hand[k];
                assert(full[x] == hand[k]);
            }
            assert(drawn_from(hand, full));
        }
    }
}

/// Who leads on a board, and what every player holds there.
#[derive(Debug)]
pub struct Lead {
    /// The seat that leads.
    pub seat: usize,
    /// Every player's category, by seat.
    pub ranks: Vec<HandRank>,
}

/// Finds the seat that leads on the board, and every player's category.
pub fn find_leader(players: &Vec<Vec<Card>>, board: &Vec<Card>, table: &CombinationTable) -> (out:
    Lead)
    requires
        table.wf(),
        players.len() > 0,
        3 <= board.len() <= 5,
        judgeable(table@, players@, board@),
    ensures
        is_leader(table@, views(players@), board@, out.seat as int),
        out.seat == leader(table@, views(players@), board@),
        out.ranks.len() == players.len(),
        forall|i: int|
            0 <= i < players.len() ==> #[trigger] out.ranks[i] == score_rank(
                showdown_value(table@, players@[i]@, board@).score as int,
            ),
{
    let mut ranks: Vec<HandRank> = Vec::new();
    let mut lead: usize = 0;
    let mut lead_value = HandValue { score: 0, position: 0 };
    let mut i: usize = 0;
    while i < players.len()
        invariant
            i <= players.len(),
            players.len() > 0,
            table.wf(),
            3 <= board.len() <= 5,
            judgeable(table@, players@, board@),
            ranks.len() == i,
            lead_value.score < crate::rank::SCORE_LIMIT,
            forall|k: int|
                0 <= k < i ==> #[trigger] ranks[k] == score_rank(
                    showdown_value(table@, players@[k]@, board@).score as int,
                ),
            i > 0 ==> {
                &&& lead < i
                &&& lead_value == showdown_value(table@, players@[lead as int]@, board@)
                &&& forall|j: int|
                    0 <= j < i ==> !outdoes(
                        showdown_value(table@, (#[trigger] players@[j])@, board@),
                        lead_value,
                    )
                &&& forall|j: int|
                    0 <= j < lead ==> outdoes(
                        lead_value,
                        showdown_value(table@, (#[trigger] players@[j])@, board@),
                    )
            },
        decreases players.len() - i,
    {
        let best = evaluate_best_hand(&players[i], board, table);
        let value = HandValue { score: best.score, position: best.position };
        let band = crate::rank::rank_of_score(best.score);
        proof {
            assert(value == showdown_value(table@, players@[i as int]@, board@));
            table.lemma_wf_view();
        }
        let ahead = i == 0 || value.position > lead_value.position || (value.position
            == lead_value.position && band.outranks(crate::rank::rank_of_score(lead_value.score)));
        proof {
            table.lemma_wf_view();
            if i > 0 {
                assert(ahead == outdoes(value, lead_value));
            }
        }
        if ahead {
            lead = i;
            lead_value = value;
        }
        ranks.push(band);
        i += 1;
    }
    proof {
        let holes = views(players@);
        assert forall|j: int| 0 <= j < holes.len() implies !outdoes(
            showdown_value(table@, #[trigger] holes[j], board@),
            showdown_value(table@, holes[lead as int], board@),
        ) by {
            assert(holes[j] == players@[j]@);
        }
        assert forall|j: int| 0 <= j < lead implies outdoes(
            showdown_value(table@, holes[lead as int], board@),
            showdown_value(table@, #[trigger] holes[j], board@),
        ) by {
            assert(holes[j] == players@[j]@);
        }
        let chosen = leader(table@, holes, board@);
        assert(is_leader(table@, holes, board@, lead as int));
        lemma_leader_unique(table@, holes, board@, chosen, lead as int);
    }
    Lead { seat: lead, ranks }
}

/// Judges a round: the winner is the seat that leads on the full board, and
/// the winner's lead is dated to the earliest of flop and turn on which the
/// winner led, else to the river.
pub fn resolve_round(deal: &Deal, table: &CombinationTable) -> (out: RoundOutcome)
    requires
        deal.wf(),
        table.wf(),
        judgeable(table@, deal.players@, deal.community@),
    ensures
        is_leader(table@, views(deal.players@), deal.community@, out.winner as int),
        out.winner == leader(table@, views(deal.players@), deal.community@),
        out.ranks.len() == deal.players.len(),
        forall|i: int|
            0 <= i < deal.players.len() ==> #[trigger] out.ranks[i] == score_rank(
                showdown_value(table@, deal.players@[i]@, deal.community@).score as int,
            ),
        out.locked == lock_street(
            leader(table@, views(deal.players@), deal.community@.take(3)),
            leader(table@, views(deal.players@), deal.community@.take(4)),
            out.winner as int,
        ),
{
    let river = find_leader(&deal.players, &deal.community, table);
    let flop = first_cards(&deal.community, 3);
    let turn = first_cards(&deal.community, 4);
    proof {
        lemma_judgeable_prefix(table@, deal.players@, deal.community@, 3);
        lemma_judgeable_prefix(table@, deal.players@, deal.community@, 4);
    }
    let flop_leader = find_leader(&deal.players, &flop, table).seat;
    let turn_leader = find_leader(&deal.players, &turn, table).seat;
    let locked = if flop_leader == river.seat {
        Street::Flop
    } else if turn_leader == river.seat {
        Street::Turn
    } else {
        Street::River
    };
    RoundOutcome { winner: river.seat, ranks: river.ranks, locked }
}

/// What the simulation counted for one hole pair.
#[derive(Clone, Copy, Debug, PartialEq, Eq, Structural)]
pub struct SimulatedHand {
    /// Rounds that the pair won.
    pub games_won: u64,
    /// Rounds in which the pair was dealt.
    pub games_played: u64,
    /// How often the pair reached each category at the showdown.
    pub rank_counts: RankHistogram,
    /// Wins in which the pair led from the flop on.
    pub locked_flop: u64,
    /// Wins in which the pair led from the turn on.
    pub locked_turn: u64,
    /// Wins in which the pair took the lead on the river.
    pub locked_river: u64,
}

impl SimulatedHand {
    /// The counts agree: no more wins than rounds, every win dated to one
    /// street, and one category counted per round.
    pub open spec fn wf(self) -> bool {
        &&& self.games_won <= self.games_played
        &&& self.locked_flop + self.locked_turn + self.locked_river == self.games_won
        &&& self.rank_counts.total() == self.games_played
    }

    /// The counts of a pair that was never dealt.
    pub open spec fn blank_counts() -> SimulatedHand {
        SimulatedHand {
            games_won: 0,
            games_played: 0,
            rank_counts: RankHistogram::empty(),
            locked_flop: 0,
            locked_turn: 0,
            locked_river: 0,
        }
    }

    /// The counts with one more round: a round that the pair won or lost, in
    /// which it reached `rank`, and which, if won, was decided on `street`.
    pub open spec fn with_game(self, won: bool, rank: HandRank, street: Street) -> SimulatedHand {
        SimulatedHand {
            games_won: if won {
                (self.games_won + 1) as u64
            } else {
                self.games_won
            },
            games_played: (self.games_played + 1) as u64,
            rank_counts: self.rank_counts.with_one_more(rank),
            locked_flop: if won && street == Street::Flop {
                (self.locked_flop + 1) as u64
            } else {
                self.locked_flop
            },
            locked_turn: if won && street == Street::Turn {
                (self.locked_turn + 1) as u64
            } else {
                self.locked_turn
            },
            locked_river: if won && street == Street::River {
                (self.locked_river + 1) as u64
            } else {
                self.locked_river
            },
        }
    }

    /// No count is lower than in `before`.
    pub open spec fn no_less_than(self, before: SimulatedHand) -> bool {
        &&& self.games_won >= before.games_won
        &&& self.games_played >= before.games_played
        &&& self.locked_flop >= before.locked_flop
        &&& self.locked_turn >= before.locked_turn
        &&& self.locked_river >= before.locked_river
        &&& self.rank_counts.high_card >= before.rank_counts.high_card
        &&& self.rank_counts.pair >= before.rank_counts.pair
        &&& self.rank_counts.two_pairs >= before.rank_counts.two_pairs
        &&& self.rank_counts.three_of_a_kind >= before.rank_counts.three_of_a_kind
        &&& self.rank_counts.straight >= before.rank_counts.straight
        &&& self.rank_counts.flush >= before.rank_counts.flush
        &&& self.rank_counts.full_house >= before.rank_counts.full_house
        &&& self.rank_counts.four_of_a_kind >= before.rank_counts.four_of_a_kind
        &&& self.rank_counts.straight_flush >= before.rank_counts.straight_flush
        &&& self.rank_counts.royal_flush >= before.rank_counts.royal_flush
    }

    /// The counts of a pair that was never dealt.
    pub fn blank() -> (out: SimulatedHand)
        ensures
            out == SimulatedHand::blank_counts(),
            out.wf(),
    {
        SimulatedHand {
            games_won: 0,
            games_played: 0,
            rank_counts: RankHistogram {
                high_card: 0,
                pair: 0,
                two_pairs: 0,
                three_of_a_kind: 0,
                straight: 0,
                flush: 0,
                full_house: 0,
                four_of_a_kind: 0,
                straight_flush: 0,
                royal_flush: 0,
            },
            locked_flop: 0,
            locked_turn: 0,
            locked_river: 0,
        }
    }

    /// Counts one more round.
    pub fn record_game(self, won: bool, rank: HandRank, street: Street) -> (after: SimulatedHand)
        requires
            self.wf(),
            self.games_played < u64::MAX,
        ensures
            after == self.with_game(won, rank, street),
            after.wf(),
            after.games_played == self.games_played + 1,
    {
        let mut after = self;
        after.rank_counts = self.rank_counts.bump(rank);
        after.games_played = after.games_played + 1;
        if won {
            after.games_won = after.games_won + 1;
            match street {
                Street::Flop => {
                    after.locked_flop = after.locked_flop + 1;
                },
                Street::Turn => {
                    after.locked_turn = after.locked_turn + 1;
                },
                Street::River => {
                    after.locked_river = after.locked_river + 1;
                },
            }
        }
        after
    }
}

/// Mapping from hole pairs to what the simulation counted for them.
pub struct SimulatedHandTable {
    pub(crate) entries: HashMap<u64, SimulatedHand>,
    pub(crate) records: u64,
}

impl View for SimulatedHandTable {
    type V = Map<Seq<Card>, SimulatedHand>;

    /// The table as a map from hole pairs to their counts.
    open(crate) spec fn view(&self) -> Map<Seq<Card>, SimulatedHand> {
        Map::new(
            |hole: Seq<Card>| is_hole_pair(hole) && self.entries@.contains_key(pair_key(hole) as u64),
            |hole: Seq<Card>| self.entries@[pair_key(hole) as u64],
        )
    }
}

impl SimulatedHandTable {
    /// The number of player rounds counted so far: each round counts once
    /// for every player dealt in.
    pub open(crate) spec fn recorded(&self) -> nat {
        self.records as nat
    }

    /// The table's invariant: it holds hole pairs only, the counts of every
    /// pair agree, and no pair played more rounds than were counted.
    pub open(crate) spec fn wf(&self) -> bool {
        &&& forall|k: u64| #[trigger]
            self.entries@.contains_key(k) ==> exists|hole: Seq<Card>|
                is_hole_pair(hole) && #[trigger] pair_key(hole) == k
        &&& forall|k: u64| #[trigger]
            self.entries@.contains_key(k) ==> self.entries@[k].wf() && self.entries@[k].games_played
                <= self.records
    }

    /// Of every pair in the table: it won no more rounds than it played, the
    /// wins dated to flop, turn and river are no more than its wins, and it
    /// reached one category in every round it played.
    pub proof fn lemma_counts_agree(&self, hole: Seq<Card>)
        requires
            self.wf(),
            self@.contains_key(hole),
        ensures
            self@[hole].games_won <= self@[hole].games_played <= self.recorded(),
            self@[hole].locked_flop + self@[hole].locked_turn + self@[hole].locked_river
                <= self@[hole].games_won,
            self@[hole].rank_counts.total() == self@[hole].games_played,
    {
    }

    /// A table in which nothing is counted yet.
    pub fn new() -> (out: SimulatedHandTable)
        ensures
            out.wf(),
            out.recorded() == 0,
            out@ == Map::<Seq<Card>, SimulatedHand>::empty(),
    {
        let out = SimulatedHandTable { entries: HashMap::new(), records: 0 };
        proof {
            assert(out@ =~= Map::<Seq<Card>, SimulatedHand>::empty());
        }
        out
    }

    /// A table without entries in which `records` player rounds count as
    /// recorded.
    pub fn with_records(records: u64) -> (out: SimulatedHandTable)
        ensures
            out.wf(),
            out.recorded() == records,
            out@ == Map::<Seq<Card>, SimulatedHand>::empty(),
    {
        let out = SimulatedHandTable { entries: HashMap::new(), records };
        proof {
            assert(out@ =~= Map::<Seq<Card>, SimulatedHand>::empty());
        }
        out
    }

    /// Whether counts may be stored for the cards: the cards are a sorted
    /// hole pair, and the counts agree and do not exceed the recorded rounds.
    pub open spec fn admits(&self, hole: Seq<Card>, counts: SimulatedHand) -> bool {
        is_hole_pair(hole) && counts.wf() && counts.games_played <= self.recorded()
    }

    /// Stores the counts of a hole pair, in place of earlier ones. What the
    /// table does not admit is not stored, and `false` is returned.
    pub fn restore(&mut self, hole: &Vec<Card>, counts: SimulatedHand) -> (stored: bool)
        requires
            old(self).wf(),
        ensures
            final(self).wf(),
            final(self).recorded() == old(self).recorded(),
            stored == old(self).admits(hole@, counts),
            final(self)@ == if stored {
                old(self)@.insert(hole@, counts)
            } else {
                old(self)@
            },
    {
        broadcast use vstd::std_specs::hash::group_hash_axioms;

        if hole.len() != HOLE_SIZE || !crate::hand::is_strictly_sorted_valid(hole) {
            return false;
        }
        let h = counts.rank_counts;
        let total: u128 = h.high_card as u128 + h.pair as u128 + h.two_pairs as u128
            + h.three_of_a_kind as u128 + h.straight as u128 + h.flush as u128 + h.full_house as u128
            + h.four_of_a_kind as u128 + h.straight_flush as u128 + h.royal_flush as u128;
        let locked: u128 = counts.locked_flop as u128 + counts.locked_turn as u128
            + counts.locked_river as u128;
        if !(counts.games_won <= counts.games_played && locked == counts.games_won as u128 && total
            == counts.games_played as u128 && counts.games_played <= self.records) {
            return false;
        }
        proof {
            lemma_pair_key_range(hole@);
        }
        let key = key_of_pair(hole);
        let ghost before = *self;
        self.entries.insert(key, counts);
        proof {
            assert forall|k: u64| #[trigger] self.entries@.contains_key(k) implies exists|
                p: Seq<Card>,
            |
                is_hole_pair(p) && #[trigger] pair_key(p) == k by {
                if k == key {
                    assert(is_hole_pair(hole@) && pair_key(hole@) == k);
                } else {
                    assert(before.entries@.contains_key(k));
                }
            }
            assert forall|other: Seq<Card>| #[trigger]
                self@.contains_key(other) == before@.insert(hole@, counts).contains_key(other) && (
                self@.contains_key(other) ==> self@[other] == before@.insert(hole@, counts)[other]) by {
                if is_hole_pair(other) {
                    lemma_pair_key_range(other);
                    if pair_key(other) as u64 == key {
                        lemma_pair_key_injective(other, hole@);
                    }
                }
            }
            assert(self@ =~= before@.insert(hole@, counts));
        }
        true
    }

    /// The number of player rounds counted so far.
    pub fn recorded_games(&self) -> (n: u64)
        ensures
            n == self.recorded(),
    {
        self.records
    }

    /// Looks a hole pair up. The cards must be given in ascending order;
    /// anything that is not a sorted hole pair is not in the table.
    pub fn lookup(&self, hole: &Vec<Card>) -> (out: Option<SimulatedHand>)
        ensures
            out == if self@.contains_key(hole@) {
                Some(self@[hole@])
            } else {
                None
            },
    {
        broadcast use vstd::std_specs::hash::group_hash_axioms;

        if hole.len() != HOLE_SIZE || !crate::hand::is_strictly_sorted_valid(hole) {
            return None;
        }
        proof {
            lemma_pair_key_range(hole@);
        }
        let key = key_of_pair(hole);
        match self.entries.get(&key) {
            Some(entry) => Some(*entry),
            None => None,
        }
    }
}

/// The counts of a hole pair: those in the table, or blank counts for a
/// pair that was never dealt.
pub open spec fn counts_of(sim: Map<Seq<Card>, SimulatedHand>, hole: Seq<Card>) -> SimulatedHand {
    if sim.contains_key(hole) {
        sim[hole]
    } else {
        SimulatedHand::blank_counts()
    }
}

/// The key of the hole pair on a seat.
pub open spec fn seat_key(deal: &Deal, seat: int) -> u64 {
    pair_key(deal.players@[seat]@) as u64
}

/// Some seat below `end` holds the pair with key `key`.
pub open spec fn seated_before(deal: &Deal, end: int, key: u64) -> bool {
    exists|s: int| 0 <= s < end && #[trigger] seat_key(deal, s) == key
}

/// The counts stored under a key, or blank counts.
pub open spec fn stored_counts(entries: Map<u64, SimulatedHand>, key: u64) -> SimulatedHand {
    if entries.contains_key(key) {
        entries[key]
    } else {
        SimulatedHand::blank_counts()
    }
}

/// The hole pairs of a well-formed deal have keys of their own.
proof fn lemma_seat_keys(deal: &Deal, a: int, b: int)
    requires
        deal.wf(),
        0 <= a < deal.players@.len(),
        0 <= b < deal.players@.len(),
        a != b,
    ensures
        seat_key(deal, a) != seat_key(deal, b),
        0 <= pair_key(deal.players@[a]@) < 4096,
{
    lemma_pair_key_range(deal.players@[a]@);
    lemma_pair_key_range(deal.players@[b]@);
    if seat_key(deal, a) == seat_key(deal, b) {
        lemma_pair_key_injective(deal.players@[a]@, deal.players@[b]@);
        if a < b {
            assert(deal.players@[a]@ != deal.players@[b]@);
        } else {
            assert(deal.players@[b]@ != deal.players@[a]@);
        }
    }
}

/// Counts a round for every player dealt in: one more round played, for the
/// winner one more round won and dated to the street of the outcome, and for
/// every player the category reached. The counts of all other pairs stay.
pub fn record_round(simulated: &mut SimulatedHandTable, deal: &Deal, outcome: &RoundOutcome)
    requires
        old(simulated).wf(),
        deal.wf(),
        outcome.winner < deal.players.len(),
        outcome.ranks.len() == deal.players.len(),
        old(simulated).recorded() + deal.players.len() <= u64::MAX,
    ensures
        final(simulated).wf(),
        final(simulated).recorded() == old(simulated).recorded() + deal.players.len(),
        forall|i: int|
            0 <= i < deal.players.len() ==> final(simulated)@.contains_key(
                (#[trigger] deal.players@[i])@,
            ) && final(simulated)@[deal.players@[i]@] == counts_of(
                old(simulated)@,
                deal.players@[i]@,
            ).with_game(i == outcome.winner, outcome.ranks@[i], outcome.locked),
        forall|hole: Seq<Card>|
            is_hole_pair(hole) && !(#[trigger] deal.seats(hole)) ==> final(simulated)@.contains_key(
                hole,
            ) == old(simulated)@.contains_key(hole) && counts_of(final(simulated)@, hole)
                == counts_of(old(simulated)@, hole),
{
    broadcast use vstd::std_specs::hash::group_hash_axioms;

    let ghost start = simulated.entries@;
    let ghost start_records = simulated.records;
    let mut i: usize = 0;
    while i < deal.players.len()
        invariant
            i <= deal.players.len(),
            deal.wf(),
            outcome.winner < deal.players.len(),
            outcome.ranks.len() == deal.players.len(),
            start_records + deal.players.len() <= u64::MAX,
            simulated.records == start_records + i,
            forall|k: u64| #[trigger]
                simulated.entries@.contains_key(k) ==> exists|hole: Seq<Card>|
                    is_hole_pair(hole) && #[trigger] pair_key(hole) == k,
            forall|k: u64| #[trigger]
                simulated.entries@.contains_key(k) ==> simulated.entries@[k].wf()
                    && simulated.entries@[k].games_played <= simulated.records,
            forall|k: u64| #[trigger]
                start.contains_key(k) ==> start[k].wf() && start[k].games_played <= start_records,
            forall|s: int|
                0 <= s < i ==> simulated.entries@.contains_key(#[trigger] seat_key(deal, s))
                    && simulated.entries@[seat_key(deal, s)] == stored_counts(
                    start,
                    seat_key(deal, s),
                ).with_game(s == outcome.winner, outcome.ranks@[s], outcome.locked),
            forall|k: u64|
                !seated_before(deal, i as int, k) ==> (#[trigger] simulated.entries@.contains_key(k))
                    == start.contains_key(k) && stored_counts(simulated.entries@, k)
                    == stored_counts(start, k),
        decreases deal.players.len() - i,
    {
        let hole = &deal.players[i];
        proof {
            lemma_pair_key_range(hole@);
        }
        let key = key_of_pair(hole);
        proof {
            assert(key == seat_key(deal, i as int));
            if seated_before(deal, i as int, key) {
                let s = choose|s: int| 0 <= s < i && #[trigger] seat_key(deal, s) == key;
                lemma_seat_keys(deal, s, i as int);
            }
            assert(simulated.entries@.contains_key(key) == start.contains_key(key));
            assert(stored_counts(simulated.entries@, key) == stored_counts(start, key));
        }
        let before = match simulated.entries.get(&key) {
            Some(entry) => *entry,
            None => SimulatedHand::blank(),
        };
        proof {
            assert(before == stored_counts(start, key));
        }
        let after = before.record_game(i == outcome.winner, outcome.ranks[i], outcome.locked);
        let ghost earlier = simulated.entries@;
        simulated.entries.insert(key, after);
        simulated.records = simulated.records + 1;
        proof {
            assert forall|s: int| 0 <= s < i + 1 implies simulated.entries@.contains_key(
                #[trigger] seat_key(deal, s),
            ) && simulated.entries@[seat_key(deal, s)] == stored_counts(
                start,
                seat_key(deal, s),
            ).with_game(s == outcome.winner, outcome.ranks@[s], outcome.locked) by {
                if s < i {
                    lemma_seat_keys(deal, s, i as int);
                    assert(earlier.contains_key(seat_key(deal, s)));
                }
            }
            assert forall|k: u64| !seated_before(deal, i + 1, k) implies (
            #[trigger] simulated.entries@.contains_key(k)) == start.contains_key(k)
                && stored_counts(simulated.entries@, k) == stored_counts(start, k) by {
                assert(seat_key(deal, i as int) != k);
                if seated_before(deal, i as int, k) {
                    let s = choose|s: int| 0 <= s < i && #[trigger] seat_key(deal, s) == k;
                    assert(0 <= s < i + 1 && seat_key(deal, s) == k);
                }
            }
            assert forall|k: u64| #[trigger] simulated.entries@.contains_key(k) implies exists|
                h: Seq<Card>,
            |
                is_hole_pair(h) && #[trigger] pair_key(h) == k by {
                if k == key {
                    assert(is_hole_pair(hole@) && pair_key(hole@) == k);
                } else {
                    assert(earlier.contains_key(k));
                }
            }
        }
        i += 1;
    }
    proof {
        assert forall|s: int| 0 <= s < deal.players.len() implies simulated@.contains_key(
            (#[trigger] deal.players@[s])@,
        ) && simulated@[deal.players@[s]@] == counts_of(old(simulated)@, deal.players@[s]@).with_game(
            s == outcome.winner,
            outcome.ranks@[s],
            outcome.locked,
        ) by {
            lemma_pair_key_range(deal.players@[s]@);
            assert(simulated.entries@.contains_key(seat_key(deal, s)));
        }
        assert forall|hole: Seq<Card>|
            is_hole_pair(hole) && !(#[trigger] deal.seats(hole)) implies simulated@.contains_key(hole)
            == old(simulated)@.contains_key(hole) && counts_of(simulated@, hole) == counts_of(
            old(simulated)@,
            hole,
        ) by {
            lemma_pair_key_range(hole);
            let k = pair_key(hole) as u64;
            if seated_before(deal, deal.players.len() as int, k) {
                let s = choose|s: int|
                    0 <= s < deal.players.len() && #[trigger] seat_key(deal, s) == k;
                lemma_pair_key_range(deal.players@[s]@);
                lemma_pair_key_injective(deal.players@[s]@, hole);
                assert(deal.seats(hole));
            }
            assert(stored_counts(simulated.entries@, k) == stored_counts(start, k));
        }
    }
}

/// The hole cards that the players get from a deck dealt from its end, each
/// pair in ascending order, by seat.
pub open spec fn dealt_holes(deck: Seq<Card>, players: int) -> Seq<Seq<Card>> {
    Seq::new(players as nat, |seat: int| crate::hand::ascending(dealt_hole(deck, players, seat)))
}

/// The seat on which the hole pair is held.
pub open spec fn seat_of(holes: Seq<Seq<Card>>, hole: Seq<Card>) -> int {
    choose|seat: int| 0 <= seat < holes.len() && holes[seat] == hole
}

/// The counts of the pair on `seat` after a round on the board: one more
/// round played, for the seat that leads on the full board one more round
/// won, dated to the earliest of flop and turn on which that seat led, else
/// to the river, and one more count for the category of the pair's score.
pub open spec fn round_counts(
    before: Map<Seq<Card>, SimulatedHand>,
    table: Map<Seq<Card>, HandValue>,
    holes: Seq<Seq<Card>>,
    board: Seq<Card>,
    seat: int,
) -> SimulatedHand {
    let winner = leader(table, holes, board);
    counts_of(before, holes[seat]).with_game(
        seat == winner,
        score_rank(showdown_value(table, holes[seat], board).score as int),
        lock_street(leader(table, holes, board.take(3)), leader(table, holes, board.take(4)), winner),
    )
}

/// The counts after a round: the pairs of the round have their counts of
/// the round, and every other pair keeps its counts.
pub open spec fn round_result(
    before: Map<Seq<Card>, SimulatedHand>,
    table: Map<Seq<Card>, HandValue>,
    holes: Seq<Seq<Card>>,
    board: Seq<Card>,
) -> Map<Seq<Card>, SimulatedHand> {
    Map::new(
        |hole: Seq<Card>| before.contains_key(hole) || holes.contains(hole),
        |hole: Seq<Card>|
            if holes.contains(hole) {
                round_counts(before, table, holes, board, seat_of(holes, hole))
            } else {
                before[hole]
            },
    )
}

/// The counts after a round dealt to `players` players from the end of the
/// deck.
pub open spec fn after_round(
    before: Map<Seq<Card>, SimulatedHand>,
    table: Map<Seq<Card>, HandValue>,
    deck: Seq<Card>,
    players: int,
) -> Map<Seq<Card>, SimulatedHand> {
    round_result(before, table, dealt_holes(deck, players), dealt_board(deck, players))
}

/// The counts after one round from each of the decks, in turn.
pub open spec fn played(
    before: Map<Seq<Card>, SimulatedHand>,
    table: Map<Seq<Card>, HandValue>,
    decks: Seq<Seq<Card>>,
    players: int,
) -> Map<Seq<Card>, SimulatedHand>
    decreases decks.len(),
{
    if decks.len() == 0 {
        before
    } else {
        after_round(played(before, table, decks.drop_last(), players), table, decks.last(), players)
    }
}

/// The deck is a shuffle of `deck`: it holds the same cards, and it is what
/// the exchanges of a shuffle make of `deck` for some drawn numbers.
pub open spec fn is_shuffle_of(shuffled: Seq<Card>, deck: Seq<Card>) -> bool {
    &&& shuffled.to_multiset() == deck.to_multiset()
    &&& exists|draws: Seq<u32>|
        draws.len() == deck.len() && shuffled == #[trigger] exchanged(
            deck,
            draws,
            deck.len() as int,
        )
}

/// The counts are those after one round from each of `rounds` shuffles of
/// the deck, in turn.
pub open spec fn simulated_from(
    after: Map<Seq<Card>, SimulatedHand>,
    before: Map<Seq<Card>, SimulatedHand>,
    table: Map<Seq<Card>, HandValue>,
    deck: Seq<Card>,
    rounds: int,
    players: int,
) -> bool {
    exists|decks: Seq<Seq<Card>>|
        decks.len() == rounds && (forall|k: int|
            0 <= k < decks.len() ==> is_shuffle_of(#[trigger] decks[k], deck)) && after
            == #[trigger] played(before, table, decks, players)
}

/// Every pair that is new has played at least one round.
pub open spec fn new_pairs_have_played(
    after: Map<Seq<Card>, SimulatedHand>,
    before: Map<Seq<Card>, SimulatedHand>,
) -> bool {
    forall|hole: Seq<Card>| #[trigger]
        after.contains_key(hole) && !before.contains_key(hole) ==> after[hole].games_played >= 1
}

/// What a recorded round makes of the counts is the result of the round.
proof fn lemma_round_recorded(
    after: &SimulatedHandTable,
    before: &SimulatedHandTable,
    table: Map<Seq<Card>, HandValue>,
    deal: &Deal,
    outcome: &RoundOutcome,
    deck: Seq<Card>,
)
    requires
        before.wf(),
        deal.wf(),
        deal.community@ == dealt_board(deck, deal.players@.len() as int),
        forall|i: int|
            0 <= i < deal.players@.len() ==> (#[trigger] deal.players@[i])@
                == crate::hand::ascending(dealt_hole(deck, deal.players@.len() as int, i)),
        outcome.winner == leader(table, views(deal.players@), deal.community@),
        outcome.ranks.len() == deal.players.len(),
        forall|i: int|
            0 <= i < deal.players.len() ==> #[trigger] outcome.ranks[i] == score_rank(
                showdown_value(table, deal.players@[i]@, deal.community@).score as int,
            ),
        outcome.locked == lock_street(
            leader(table, views(deal.players@), deal.community@.take(3)),
            leader(table, views(deal.players@), deal.community@.take(4)),
            outcome.winner as int,
        ),
        forall|i: int|
            0 <= i < deal.players.len() ==> after@.contains_key((#[trigger] deal.players@[i])@)
                && after@[deal.players@[i]@] == counts_of(before@, deal.players@[i]@).with_game(
                i == outcome.winner,
                outcome.ranks@[i],
                outcome.locked,
            ),
        forall|hole: Seq<Card>|
            is_hole_pair(hole) && !(#[trigger] deal.seats(hole)) ==> after@.contains_key(hole)
                == before@.contains_key(hole) && counts_of(after@, hole) == counts_of(
                before@,
                hole,
            ),
    ensures
        after@ == after_round(before@, table, deck, deal.players@.len() as int),
{
    let count = deal.players@.len() as int;
    let holes = dealt_holes(deck, count);
    let board = dealt_board(deck, count);
    let result = after_round(before@, table, deck, count);
    assert(views(deal.players@) =~= holes);
    assert forall|hole: Seq<Card>| holes.contains(hole) <==> deal.seats(hole) by {
        if holes.contains(hole) {
            let i = choose|i: int| 0 <= i < holes.len() && holes[i] == hole;
            assert(deal.players@[i]@ == hole);
        }
        if deal.seats(hole) {
            let i = choose|i: int|
                0 <= i < deal.players@.len() && (#[trigger] deal.players@[i])@ == hole;
            assert(holes[i] == hole);
        }
    }
    assert forall|hole: Seq<Card>| #[trigger] after@.contains_key(hole) <==> result.contains_key(hole) by {
        if holes.contains(hole) {
            let i = choose|i: int| 0 <= i < holes.len() && holes[i] == hole;
            assert(after@.contains_key(deal.players@[i]@));
        } else if is_hole_pair(hole) {
            assert(!deal.seats(hole));
        }
    }
    assert forall|hole: Seq<Card>| after@.contains_key(hole) implies #[trigger] after@[hole]
        == result[hole] by {
        if holes.contains(hole) {
            let i = seat_of(holes, hole);
            assert(0 <= i < holes.len() && holes[i] == hole);
            assert(deal.players@[i]@ == hole);
            assert(after@.contains_key(deal.players@[i]@));
            assert(outcome.ranks@[i] == outcome.ranks[i]);
        } else {
            assert(!deal.seats(hole));
            assert(counts_of(after@, hole) == counts_of(before@, hole));
        }
    }
    assert(after@ =~= result);
}

/// The counts have only grown: every pair that was counted still is, no
/// count of any pair is lower than before, and the pairs that are new are
/// pairs of cards of the deck.
pub open spec fn grown_from(
    after: Map<Seq<Card>, SimulatedHand>,
    before: Map<Seq<Card>, SimulatedHand>,
    deck: Seq<Card>,
) -> bool {
    forall|hole: Seq<Card>| #[trigger]
        grown_at(after, before, deck, hole)
}

/// The counts of one pair have only grown.
pub open spec fn grown_at(
    after: Map<Seq<Card>, SimulatedHand>,
    before: Map<Seq<Card>, SimulatedHand>,
    deck: Seq<Card>,
    hole: Seq<Card>,
) -> bool {
    &&& before.contains_key(hole) ==> after.contains_key(hole)
    &&& counts_of(after, hole).no_less_than(counts_of(before, hole))
    &&& after.contains_key(hole) && !before.contains_key(hole) ==> drawn_from(hole, deck)
}

/// Counts that have grown twice have grown, where the two decks hold the
/// same cards.
pub proof fn lemma_grown_twice(
    last: Map<Seq<Card>, SimulatedHand>,
    middle: Map<Seq<Card>, SimulatedHand>,
    first: Map<Seq<Card>, SimulatedHand>,
    deck: Seq<Card>,
    other_deck: Seq<Card>,
)
    requires
        grown_from(middle, first, deck),
        grown_from(last, middle, other_deck),
        forall|card: Card| other_deck.contains(card) ==> deck.contains(card),
    ensures
        grown_from(last, first, deck),
{
    assert forall|hole: Seq<Card>| #[trigger] grown_at(last, first, deck, hole) by {
        assert(grown_at(middle, first, deck, hole));
        assert(grown_at(last, middle, other_deck, hole));
        if last.contains_key(hole) && !first.contains_key(hole) && !middle.contains_key(hole) {
            assert forall|i: int| 0 <= i < hole.len() implies deck.contains(#[trigger] hole[i]) by {
                assert(other_deck.contains(hole[i]));
            }
        }
    }
}

/// What a recorded round does to the counts: they have only grown, and new
/// pairs are pairs of the deal.
proof fn lemma_round_grows(
    after: &SimulatedHandTable,
    before: &SimulatedHandTable,
    deal: &Deal,
    outcome: &RoundOutcome,
    deck: Seq<Card>,
)
    requires
        before.wf(),
        deal.wf(),
        deal.drawn_from(deck),
        before.recorded() + deal.players.len() <= u64::MAX,
        outcome.ranks.len() == deal.players.len(),
        forall|i: int|
            0 <= i < deal.players.len() ==> after@.contains_key((#[trigger] deal.players@[i])@)
                && after@[deal.players@[i]@] == counts_of(before@, deal.players@[i]@).with_game(
                i == outcome.winner,
                outcome.ranks@[i],
                outcome.locked,
            ),
        forall|hole: Seq<Card>|
            is_hole_pair(hole) && !(#[trigger] deal.seats(hole)) ==> after@.contains_key(hole)
                == before@.contains_key(hole) && counts_of(after@, hole) == counts_of(
                before@,
                hole,
            ),
    ensures
        grown_from(after@, before@, deck),
{
    assert forall|hole: Seq<Card>| #[trigger] grown_at(after@, before@, deck, hole) by {
        if is_hole_pair(hole) {
            if deal.seats(hole) {
                let i = choose|i: int|
                    0 <= i < deal.players@.len() && (#[trigger] deal.players@[i])@ == hole;
                let old = counts_of(before@, hole);
                assert(after@.contains_key(deal.players@[i]@));
                if before@.contains_key(hole) {
                    before.lemma_counts_agree(hole);
                }
                assert(old.wf() && old.games_played < u64::MAX);
                assert forall|k: int| 0 <= k < hole.len() implies deck.contains(#[trigger] hole[k]) by {
                    assert(deck.contains(deal.players@[i]@[k]));
                }
            }
        } else {
            assert(!after@.contains_key(hole) && !before@.contains_key(hole));
        }
    }
}

/// A deal whose cards come from a deck that the table covers can be judged.
pub proof fn lemma_deal_judgeable(table: Map<Seq<Card>, HandValue>, deal: &Deal, deck: Seq<Card>)
    requires
        deal.wf(),
        deal.drawn_from(deck),
        covers(table, deck),
    ensures
        judgeable(table, deal.players@, deal.community@),
{
    assert forall|i: int| 0 <= i < deal.players@.len() implies {
        &&& (#[trigger] deal.players@[i])@.len() == HOLE_SIZE
        &&& all_valid(deal.players@[i]@ + deal.community@)
        &&& (deal.players@[i]@ + deal.community@).no_duplicates()
        &&& covers(table, deal.players@[i]@ + deal.community@)
    } by {
        let hole = deal.players@[i]@;
        let cards = hole + deal.community@;
        assert forall|hand: Seq<Card>|
            crate::hand::is_hand(hand) && #[trigger] drawn_from(hand, cards) implies table.contains_key(
            hand,
        ) by {
            assert forall|k: int| 0 <= k < hand.len() implies deck.contains(#[trigger] hand[k]) by {
                assert(cards.contains(hand[k]));
                let x = choose|x: int| 0 <= x < cards.len() && cards[x] == hand[k];
                if x < hole.len() {
                    assert(cards[x] == deal.players@[i]@[x]);
                } else {
                    assert(cards[x] == deal.community@[x - hole.len()]);
                }
            }
            assert(drawn_from(hand, deck));
        }
    }
}

/// Plays one round from a shuffled deck: deals from the end of the deck,
/// judges, and counts the round for every player. The counts afterwards are
/// those of `after_round`: every dealt pair has played one more round in
/// the category of its score, the pair that leads on the full board has won
/// one more round, dated to one street, and every other pair keeps its
/// counts.
pub fn play_round(
    simulated: &mut SimulatedHandTable,
    table: &CombinationTable,
    shuffled: &Vec<Card>,
    num_players: usize,
)
    requires
        old(simulated).wf(),
        table.wf(),
        num_players >= 1,
        2 * num_players + BOARD_SIZE <= shuffled.len(),
        all_valid(shuffled@),
        shuffled@.no_duplicates(),
        covers(table@, shuffled@),
        old(simulated).recorded() + num_players <= u64::MAX,
    ensures
        final(simulated).wf(),
        final(simulated).recorded() == old(simulated).recorded() + num_players,
        final(simulated)@ == after_round(
            old(simulated)@,
            table@,
            shuffled@,
            num_players as int,
        ),
        rounds_played(final(simulated)@) == rounds_played(old(simulated)@) + num_players,
        rounds_won(final(simulated)@) == rounds_won(old(simulated)@) + 1,
        grown_from(final(simulated)@, old(simulated)@, shuffled@),
{
    let deal = deal_round(shuffled, num_players);
    proof {
        lemma_deal_judgeable(table@, &deal, shuffled@);
    }
    let outcome = resolve_round(&deal, table);
    let ghost before = *simulated;
    record_round(simulated, &deal, &outcome);
    proof {
        lemma_round_grows(simulated, &before, &deal, &outcome, shuffled@);
        lemma_round_recorded(simulated, &before, table@, &deal, &outcome, shuffled@);
        let holes = dealt_holes(shuffled@, num_players as int);
        assert(views(deal.players@) =~= holes);
        assert forall|i: int| 0 <= i < holes.len() implies is_hole_pair(#[trigger] holes[i]) by {
            assert(holes[i] == deal.players@[i]@);
        }
        assert forall|i: int, j: int|
            0 <= i < holes.len() && 0 <= j < holes.len() && i != j implies holes[i] != holes[j] by {
            assert(holes[i] == deal.players@[i]@ && holes[j] == deal.players@[j]@);
            if i < j {
                assert(deal.players@[i]@ != deal.players@[j]@);
            } else {
                assert(deal.players@[j]@ != deal.players@[i]@);
            }
        }
        assert forall|hole: Seq<Card>|
            (#[trigger] counts_of(before@, hole)).games_won <= counts_of(before@, hole).games_played
            < u64::MAX by {
            if before@.contains_key(hole) {
                before.lemma_counts_agree(hole);
            }
        }
        crate::totals::lemma_round_totals(
            before@,
            table@,
            holes,
            dealt_board(shuffled@, num_players as int),
        );
    }
}

/// Simulates `outter_runs` times `max_sim_runs` rounds with `num_pl` players
/// and adds them to the counts. Every round is dealt from a fresh copy of
/// the deck, shuffled with a generator that `seed` starts.
///
/// Whatever the generator draws, the counts afterwards are those of playing
/// one round from each of as many shuffles of the deck, in turn. So no
/// rounds leave the counts as they were, counts only grow, every new pair
/// has played at least once, and the counts stay consistent: every pair won
/// no more rounds than it played, and every win is dated to one street.
pub fn simulate_game(
    outter_runs: u32,
    max_sim_runs: u64,
    num_pl: usize,
    simulated: &mut SimulatedHandTable,
    table: &CombinationTable,
    card_deck: &Vec<Card>,
    seed: u64,
)
    requires
        old(simulated).wf(),
        table.wf(),
        num_pl >= 1,
        2 * num_pl + BOARD_SIZE <= card_deck.len() <= u32::MAX,
        all_valid(card_deck@),
        card_deck@.no_duplicates(),
        covers(table@, card_deck@),
        old(simulated).recorded() + outter_runs * max_sim_runs * num_pl <= u64::MAX,
    ensures
        final(simulated).wf(),
        final(simulated).recorded() == old(simulated).recorded() + outter_runs * max_sim_runs
            * num_pl,
        simulated_from(
            final(simulated)@,
            old(simulated)@,
            table@,
            card_deck@,
            outter_runs * max_sim_runs,
            num_pl as int,
        ),
        outter_runs * max_sim_runs == 0 ==> final(simulated)@ == old(simulated)@,
        rounds_played(final(simulated)@) == rounds_played(old(simulated)@) + outter_runs
            * max_sim_runs * num_pl,
        rounds_won(final(simulated)@) == rounds_won(old(simulated)@) + outter_runs * max_sim_runs,
        grown_from(final(simulated)@, old(simulated)@, card_deck@),
        new_pairs_have_played(final(simulated)@, old(simulated)@),
{
    let mut rng = seeded_generator(seed);
    let ghost start = simulated.recorded() as int;
    let ghost first = simulated@;
    let ghost mut decks: Seq<Seq<Card>> = Seq::empty();
    proof {
        assert forall|hole: Seq<Card>| #[trigger] grown_at(first, first, card_deck@, hole) by {}
    }
    let ghost total = outter_runs as int * max_sim_runs as int * num_pl as int;
    let mut outer: u32 = 0;
    proof {
        assert(0 * max_sim_runs as int * num_pl as int == 0) by (nonlinear_arith);
        assert(0 * max_sim_runs as int == 0) by (nonlinear_arith);
    }
    while outer < outter_runs
        invariant
            outer <= outter_runs,
            decks.len() == outer as int * max_sim_runs as int,
            forall|k: int| 0 <= k < decks.len() ==> is_shuffle_of(#[trigger] decks[k], card_deck@),
            simulated@ == played(first, table@, decks, num_pl as int),
            new_pairs_have_played(simulated@, first),
            rounds_played(simulated@) == rounds_played(first) + outer as int * max_sim_runs as int
                * num_pl as int,
            rounds_won(simulated@) == rounds_won(first) + outer as int * max_sim_runs as int,
            simulated.wf(),
            table.wf(),
            num_pl >= 1,
            2 * num_pl + BOARD_SIZE <= card_deck.len() <= u32::MAX,
            all_valid(card_deck@),
            card_deck@.no_duplicates(),
            covers(table@, card_deck@),
            total == outter_runs as int * max_sim_runs as int * num_pl as int,
            start + total <= u64::MAX,
            simulated.recorded() == start + outer as int * max_sim_runs as int * num_pl as int,
            grown_from(simulated@, first, card_deck@),
        decreases outter_runs - outer,
    {
        let mut run: u64 = 0;
        let ghost base = outer as int * max_sim_runs as int * num_pl as int;
        let ghost dealt = outer as int * max_sim_runs as int;
        proof {
            assert(dealt + max_sim_runs as int == (outer as int + 1) * max_sim_runs as int)
                by (nonlinear_arith)
                requires
                    dealt == outer as int * max_sim_runs as int,
            ;
            assert(base + max_sim_runs as int * num_pl as int == (outer as int + 1) * max_sim_runs as int
                * num_pl as int) by (nonlinear_arith)
                requires
                    base == outer as int * max_sim_runs as int * num_pl as int,
            ;
            assert((outer as int + 1) * max_sim_runs as int * num_pl as int <= total)
                by (nonlinear_arith)
                requires
                    outer < outter_runs,
                    total == outter_runs as int * max_sim_runs as int * num_pl as int,
                    0 <= max_sim_runs as int,
                    0 <= num_pl as int,
            ;
        }
        while run < max_sim_runs
            invariant
                run <= max_sim_runs,
                decks.len() == dealt + run as int,
                forall|k: int|
                    0 <= k < decks.len() ==> is_shuffle_of(#[trigger] decks[k], card_deck@),
                simulated@ == played(first, table@, decks, num_pl as int),
                new_pairs_have_played(simulated@, first),
                rounds_played(simulated@) == rounds_played(first) + base + run as int
                    * num_pl as int,
                rounds_won(simulated@) == rounds_won(first) + dealt + run as int,
                simulated.wf(),
                table.wf(),
                num_pl >= 1,
                2 * num_pl + BOARD_SIZE <= card_deck.len() <= u32::MAX,
                all_valid(card_deck@),
                card_deck@.no_duplicates(),
                covers(table@, card_deck@),
                start + base + max_sim_runs as int * num_pl as int <= u64::MAX,
                simulated.recorded() == start + base + run as int * num_pl as int,
                grown_from(simulated@, first, card_deck@),
            decreases max_sim_runs - run,
        {
            let mut new_deck = crate::hand::copy_cards(card_deck);
            shuffle_deck(&mut new_deck, &mut rng);
            proof {
                lemma_same_cards(new_deck@, card_deck@);
                assert forall|hand: Seq<Card>|
                    crate::hand::is_hand(hand) && #[trigger] drawn_from(
                        hand,
                        new_deck@,
                    ) implies table@.contains_key(hand) by {
                    assert(drawn_from(hand, card_deck@));
                }
                assert((run as int + 1) * num_pl as int <= max_sim_runs as int * num_pl as int)
                    by (nonlinear_arith)
                    requires
                        run < max_sim_runs,
                        0 <= num_pl as int,
                ;
                assert((run as int + 1) * num_pl as int == run as int * num_pl as int + num_pl as int)
                    by (nonlinear_arith);
            }
            let ghost middle = simulated@;
            let ghost earlier = decks;
            play_round(simulated, table, &new_deck, num_pl);
            proof {
                lemma_grown_twice(simulated@, middle, first, card_deck@, new_deck@);
                lemma_new_pairs_play(simulated@, middle, first, table@, new_deck@, num_pl as int);
                decks = earlier.push(new_deck@);
                assert(decks.drop_last() =~= earlier);
                assert(decks.last() == new_deck@);
                assert(is_shuffle_of(new_deck@, card_deck@));
                assert forall|k: int| 0 <= k < decks.len() implies is_shuffle_of(
                    #[trigger] decks[k],
                    card_deck@,
                ) by {
                    if k < earlier.len() {
                        assert(decks[k] == earlier[k]);
                    }
                }
            }
            run += 1;
        }
        outer += 1;
    }
    proof {
        assert(decks.len() == outter_runs * max_sim_runs && simulated@ == played(
            first,
            table@,
            decks,
            num_pl as int,
        ));
    }
}

/// A pair that a round has brought in has played one round, and a pair that
/// was there before has not played fewer.
proof fn lemma_new_pairs_play(
    after: Map<Seq<Card>, SimulatedHand>,
    middle: Map<Seq<Card>, SimulatedHand>,
    first: Map<Seq<Card>, SimulatedHand>,
    table: Map<Seq<Card>, HandValue>,
    deck: Seq<Card>,
    players: int,
)
    requires
        new_pairs_have_played(middle, first),
        after == after_round(middle, table, deck, players),
        grown_from(after, middle, deck),
    ensures
        new_pairs_have_played(after, first),
{
    let holes = dealt_holes(deck, players);
    assert forall|hole: Seq<Card>| #[trigger]
        after.contains_key(hole) && !first.contains_key(hole) implies after[hole].games_played
        >= 1 by {
        assert(grown_at(after, middle, deck, hole));
        if middle.contains_key(hole) {
            assert(middle[hole].games_played >= 1);
        } else {
            assert(holes.contains(hole));
            let seat = seat_of(holes, hole);
            assert(holes[seat] == hole);
        }
    }
}

/// Runs a simulation from scratch and returns its counts.
pub fn run_monte_carlo(
    outer_reps: u32,
    deals_per_rep: u64,
    num_players: usize,
    deck: &Vec<Card>,
    table: &CombinationTable,
    seed: u64,
) -> (simulated: SimulatedHandTable)
    requires
        table.wf(),
        num_players >= 1,
        2 * num_players + BOARD_SIZE <= deck.len() <= u32::MAX,
        all_valid(deck@),
        deck@.no_duplicates(),
        covers(table@, deck@),
        outer_reps * deals_per_rep * num_players <= u64::MAX,
    ensures
        simulated.wf(),
        simulated.recorded() == outer_reps * deals_per_rep * num_players,
        simulated_from(
            simulated@,
            Map::<Seq<Card>, SimulatedHand>::empty(),
            table@,
            deck@,
            outer_reps * deals_per_rep,
            num_players as int,
        ),
        outer_reps * deals_per_rep == 0 ==> simulated@ == Map::<Seq<Card>, SimulatedHand>::empty(),
        rounds_played(simulated@) == outer_reps * deals_per_rep * num_players,
        rounds_won(simulated@) == outer_reps * deals_per_rep,
        forall|hole: Seq<Card>| #[trigger]
            simulated@.contains_key(hole) ==> drawn_from(hole, deck@) && simulated@[hole].games_played
                >= 1,
{
    let mut simulated = SimulatedHandTable::new();
    let ghost first = simulated@;
    proof {
        crate::totals::lemma_nothing_counted(crate::totals::every_pair());
    }
    simulate_game(outer_reps, deals_per_rep, num_players, &mut simulated, table, deck, seed);
    proof {
        assert forall|hole: Seq<Card>| #[trigger] simulated@.contains_key(hole) implies drawn_from(
            hole,
            deck@,
        ) && simulated@[hole].games_played >= 1 by {
            assert(grown_at(simulated@, first, deck@, hole));
        }
    }
    simulated
}

} // verus!
