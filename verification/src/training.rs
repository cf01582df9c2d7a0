//! Training records: one simulated round seen through the eyes of one
//! player, street by street.

use crate::card::{all_valid, Card};
use crate::estimator::{get_hand_equity_and_opponent_range, standing, Ratio};
use crate::hand::{copy_cards, first_cards, is_hole_pair, lemma_same_cards};
use crate::selector::{drawn_from, lemma_complete_covers};
use crate::hand::views;
use crate::simulator::{deal_round, dealt_board, dealt_holes, exchanged, leader,
    lemma_deal_judgeable, next_random, resolve_round, shuffle_deck, SimulatedHand,
    SimulatedHandTable, BOARD_SIZE};
use crate::starting::{StartingEquity, StartingHandTable};
use crate::table::CombinationTable;
use rand_chacha::ChaCha20Rng;
use vstd::prelude::*;

verus! {

/// The four moments of a round at which a record is taken.
#[derive(Clone, Copy, Debug, PartialEq, Eq, Hash, Structural)]
pub enum Stage {
    Preflop,
    Flop,
    Turn,
    River,
}

impl Stage {
    /// The number of community cards that are open at the stage.
    pub open spec fn shown(self) -> int {
        match self {
            Stage::Preflop => 0,
            Stage::Flop => 3,
            Stage::Turn => 4,
            Stage::River => 5,
        }
    }

    /// The name of the stage in a record.
    pub open spec fn label_text(self) -> Seq<char> {
        match self {
            Stage::Preflop => "PREFLOP"@,
            Stage::Flop => "FLOP"@,
            Stage::Turn => "TURN"@,
            Stage::River => "RIVER"@,
        }
    }

    /// The name of the stage in a record.
    pub fn label(self) -> (text: &'static str)
        ensures
            text@ == self.label_text(),
    {
        match self {
            Stage::Preflop => "PREFLOP",
            Stage::Flop => "FLOP",
            Stage::Turn => "TURN",
            Stage::River => "RIVER",
        }
    }
}

/// A fraction of two whole numbers.
#[derive(Clone, Copy, Debug, PartialEq, Eq, Structural)]
pub struct Fraction {
    pub num: u64,
    pub den: u64,
}

/// One record: what a player knows at a stage, with the outcome of the round.
#[derive(Debug)]
pub struct MlRecord {
    pub stage: Stage,
    /// The player's hole cards, in ascending order.
    pub hole: Vec<Card>,
    /// The community cards that are open at the stage.
    pub board: Vec<Card>,
    /// What the simulation counted for the hole cards: rounds won and
    /// played, and the wins by the street on which they were decided.
    pub counts: SimulatedHand,
    /// Before the flop the mean starting equity of the hole cards, later the
    /// equity of the player's hand relative to the opponent's range.
    pub hand_equity: Fraction,
    /// Whether the player won the round.
    pub did_win: bool,
}

/// Why no records can be made.
#[derive(Clone, Copy, Debug, PartialEq, Eq, Structural)]
pub enum RecordError {
    /// The simulated-hand table does not hold the player's hole cards.
    NotSimulated,
    /// The starting-hand table does not hold the player's hole cards.
    UnknownStartingHand,
}

/// The mean starting equity as a fraction: the sum of places over the
/// number of hands times the number of listed hands.
pub open spec fn mean_equity(entry: StartingEquity, listed: nat) -> Fraction {
    Fraction { num: entry.position_sum, den: (entry.hands * listed) as u64 }
}

/// A share as a fraction.
pub open spec fn widened(share: Ratio) -> Fraction {
    Fraction { num: share.num as u64, den: share.den as u64 }
}

/// The hand equity that a record holds at a stage.
pub open spec fn stage_equity(
    stage: Stage,
    table: &CombinationTable,
    starting: &StartingHandTable,
    threshold: Ratio,
    deck: Seq<Card>,
    hole: Seq<Card>,
    community: Seq<Card>,
) -> Fraction {
    if stage == Stage::Preflop {
        mean_equity(starting@[hole], starting.listed())
    } else {
        widened(
            standing(
                table@,
                starting@,
                starting.listed(),
                threshold,
                deck,
                hole,
                community.take(stage.shown()),
            ).relative_equity,
        )
    }
}

/// The record is the one of the player at the stage.
pub open spec fn is_record_of(
    record: MlRecord,
    stage: Stage,
    table: &CombinationTable,
    starting: &StartingHandTable,
    simulated: &SimulatedHandTable,
    threshold: Ratio,
    deck: Seq<Card>,
    hole: Seq<Card>,
    community: Seq<Card>,
    did_win: bool,
) -> bool {
    &&& record.stage == stage
    &&& record.hole@ == hole
    &&& record.board@ == community.take(stage.shown())
    &&& record.counts == simulated@[hole]
    &&& record.hand_equity == stage_equity(stage, table, starting, threshold, deck, hole, community)
    &&& record.did_win == did_win
}

/// The four records are those of one player for one round, stage by stage.
pub open spec fn are_records_of(
    records: Seq<MlRecord>,
    table: &CombinationTable,
    starting: &StartingHandTable,
    simulated: &SimulatedHandTable,
    threshold: Ratio,
    deck: Seq<Card>,
    hole: Seq<Card>,
    community: Seq<Card>,
    did_win: bool,
) -> bool {
    &&& records.len() == 4
    &&& is_record_of(
        records[0],
        Stage::Preflop,
        table,
        starting,
        simulated,
        threshold,
        deck,
        hole,
        community,
        did_win,
    )
    &&& is_record_of(
        records[1],
        Stage::Flop,
        table,
        starting,
        simulated,
        threshold,
        deck,
        hole,
        community,
        did_win,
    )
    &&& is_record_of(
        records[2],
        Stage::Turn,
        table,
        starting,
        simulated,
        threshold,
        deck,
        hole,
        community,
        did_win,
    )
    &&& is_record_of(
        records[3],
        Stage::River,
        table,
        starting,
        simulated,
        threshold,
        deck,
        hole,
        community,
        did_win,
    )
}

/// Makes the four records of one player for one round: before the flop, on
/// the flop, on the turn and on the river.
pub fn ml_records(
    hole: &Vec<Card>,
    community: &Vec<Card>,
    did_win: bool,
    simulated: &SimulatedHandTable,
    starting: &StartingHandTable,
    table: &CombinationTable,
    deck: &Vec<Card>,
    threshold: Ratio,
) -> (out: Result<Vec<MlRecord>, RecordError>)
    requires
        table.wf(),
        table.complete(),
        is_hole_pair(hole@),
        community.len() == BOARD_SIZE,
        all_valid(hole@ + community@),
        (hole@ + community@).no_duplicates(),
        all_valid(deck@),
        deck@.no_duplicates(),
        deck.len() <= 52,
    ensures
        !simulated@.contains_key(hole@) ==> out == Err::<Vec<MlRecord>, RecordError>(
            RecordError::NotSimulated,
        ),
        simulated@.contains_key(hole@) && !starting@.contains_key(hole@) ==> out == Err::<
            Vec<MlRecord>,
            RecordError,
        >(RecordError::UnknownStartingHand),
        simulated@.contains_key(hole@) && starting@.contains_key(hole@) ==> (out matches Ok(records)
            && are_records_of(
            records@,
            table,
            starting,
            simulated,
            threshold,
            deck@,
            hole@,
            community@,
            did_win,
        )),
{
    let counts = match simulated.lookup(hole) {
        Some(counts) => counts,
        None => {
            return Err(RecordError::NotSimulated);
        },
    };
    let entry = match starting.lookup(hole) {
        Some(entry) => entry,
        None => {
            return Err(RecordError::UnknownStartingHand);
        },
    };
    let mut records: Vec<MlRecord> = Vec::new();
    let listed: u64 = starting.listed_hands() as u64;
    let hands: u64 = entry.hands as u64;
    proof {
        assert(hands * listed <= 0xffff_ffff * 0xffff_ffff) by (nonlinear_arith)
            requires
                0 <= hands <= 0xffff_ffff,
                0 <= listed <= 0xffff_ffff,
        ;
    }
    records.push(
        MlRecord {
            stage: Stage::Preflop,
            hole: copy_cards(hole),
            board: Vec::new(),
            counts,
            hand_equity: Fraction { num: entry.position_sum, den: hands * listed },
            did_win,
        },
    );
    proof {
        assert(community@.take(0) =~= Seq::<Card>::empty());
    }
    let flop = first_cards(community, 3);
    let on_flop = estimate_on(hole, &flop, table, starting, deck, threshold, Ghost(community@));
    records.push(
        MlRecord {
            stage: Stage::Flop,
            hole: copy_cards(hole),
            board: flop,
            counts,
            hand_equity: Fraction { num: on_flop.num as u64, den: on_flop.den as u64 },
            did_win,
        },
    );
    let turn = first_cards(community, 4);
    let on_turn = estimate_on(hole, &turn, table, starting, deck, threshold, Ghost(community@));
    records.push(
        MlRecord {
            stage: Stage::Turn,
            hole: copy_cards(hole),
            board: turn,
            counts,
            hand_equity: Fraction { num: on_turn.num as u64, den: on_turn.den as u64 },
            did_win,
        },
    );
    let river = first_cards(community, 5);
    let on_river = estimate_on(hole, &river, table, starting, deck, threshold, Ghost(community@));
    records.push(
        MlRecord {
            stage: Stage::River,
            hole: copy_cards(hole),
            board: river,
            counts,
            hand_equity: Fraction { num: on_river.num as u64, den: on_river.den as u64 },
            did_win,
        },
    );
    Ok(records)
}

/// The relative equity of the hole cards on the first cards of the board.
fn estimate_on(
    hole: &Vec<Card>,
    board: &Vec<Card>,
    table: &CombinationTable,
    starting: &StartingHandTable,
    deck: &Vec<Card>,
    threshold: Ratio,
    Ghost(community): Ghost<Seq<Card>>,
) -> (share: Ratio)
    requires
        table.wf(),
        table.complete(),
        hole.len() == 2,
        3 <= board.len() <= 5,
        board.len() <= community.len(),
        board@ == community.take(board.len() as int),
        all_valid(hole@ + community),
        (hole@ + community).no_duplicates(),
        all_valid(deck@),
        deck@.no_duplicates(),
        deck.len() <= 52,
    ensures
        share == standing(
            table@,
            starting@,
            starting.listed(),
            threshold,
            deck@,
            hole@,
            board@,
        ).relative_equity,
{
    proof {
        let full = hole@ + community;
        let part = hole@ + board@;
        assert forall|x: int| 0 <= x < part.len() implies part[x] == full[x] by {}
        assert forall|x: int| 0 <= x < part.len() implies (#[trigger] part[x]).valid() by {
            assert(full[x].valid());
        }
        lemma_complete_covers(table, deck@ + hole@ + board@);
    }
    get_hand_equity_and_opponent_range(hole, board, table, starting, deck, threshold).relative_equity
}

/// The records are those of the player on seat `pick` modulo `players` in
/// the round dealt from the shuffled deck, and they tell a win exactly when
/// that seat leads on the full board.
pub open spec fn follows_seat(
    records: Seq<MlRecord>,
    table: &CombinationTable,
    starting: &StartingHandTable,
    simulated: &SimulatedHandTable,
    threshold: Ratio,
    deck: Seq<Card>,
    shuffled: Seq<Card>,
    players: int,
    pick: u32,
) -> bool {
    let seat = pick as int % players;
    let holes = dealt_holes(shuffled, players);
    let board = dealt_board(shuffled, players);
    are_records_of(
        records,
        table,
        starting,
        simulated,
        threshold,
        deck,
        holes[seat],
        board,
        seat == leader(table@, holes, board),
    )
}

/// The records follow a seat of the round that is dealt once the deck is
/// shuffled with the drawn numbers `draws`; `pick` is the number drawn for
/// the seat.
pub open spec fn round_followed(
    records: Seq<MlRecord>,
    table: &CombinationTable,
    starting: &StartingHandTable,
    simulated: &SimulatedHandTable,
    threshold: Ratio,
    deck: Seq<Card>,
    players: int,
    draws: Seq<u32>,
    pick: u32,
) -> bool {
    draws.len() == deck.len() && follows_seat(
        records,
        table,
        starting,
        simulated,
        threshold,
        deck,
        exchanged(deck, draws, deck.len() as int),
        players,
        pick,
    )
}

/// Both tables hold every hole pair that the cards form.
pub open spec fn pairs_are_known(
    simulated: &SimulatedHandTable,
    starting: &StartingHandTable,
    cards: Seq<Card>,
) -> bool {
    forall|hole: Seq<Card>|
        is_hole_pair(hole) && #[trigger] drawn_from(hole, cards) ==> simulated@.contains_key(hole)
            && starting@.contains_key(hole)
}

/// Plays one round for the training data: shuffles a copy of the deck,
/// deals, judges, draws the seat of the player to follow, and makes that
/// player's four records.
///
/// Whatever the generator draws, the result is the four records of the
/// drawn seat in the round dealt from the shuffled deck, with the win told
/// exactly when that seat leads on the full board, or the error of
/// `ml_records`; and it is the records where both tables hold every hole
/// pair of the deck.
pub fn generate_ml_round(
    num_pl: usize,
    rng: &mut ChaCha20Rng,
    simulated: &SimulatedHandTable,
    starting: &StartingHandTable,
    table: &CombinationTable,
    card_deck: &Vec<Card>,
    threshold: Ratio,
) -> (out: Result<Vec<MlRecord>, RecordError>)
    requires
        table.wf(),
        table.complete(),
        1 <= num_pl <= u32::MAX,
        2 * num_pl + BOARD_SIZE <= card_deck.len() <= 52,
        all_valid(card_deck@),
        card_deck@.no_duplicates(),
    ensures
        pairs_are_known(simulated, starting, card_deck@) ==> out is Ok,
        out matches Ok(records) ==> records.len() == 4 && records@[3].board@.len() == BOARD_SIZE
            && are_records_of(
            records@,
            table,
            starting,
            simulated,
            threshold,
            card_deck@,
            records@[0].hole@,
            records@[3].board@,
            records@[0].did_win,
        ),
        out matches Ok(records) ==> exists|draws: Seq<u32>, pick: u32| #[trigger]
            round_followed(
                records@,
                table,
                starting,
                simulated,
                threshold,
                card_deck@,
                num_pl as int,
                draws,
                pick,
            ),
{
    let mut new_deck = copy_cards(card_deck);
    shuffle_deck(&mut new_deck, rng);
    let ghost draws = choose|draws: Seq<u32>|
        draws.len() == card_deck@.len() && new_deck@ == #[trigger] exchanged(
            card_deck@,
            draws,
            card_deck@.len() as int,
        );
    proof {
        lemma_same_cards(new_deck@, card_deck@);
        lemma_complete_covers(table, new_deck@);
    }
    let deal = deal_round(&new_deck, num_pl);
    proof {
        lemma_deal_judgeable(table@, &deal, new_deck@);
    }
    let outcome = resolve_round(&deal, table);
    let pick = next_random(rng);
    let seat = (pick % (num_pl as u32)) as usize;
    proof {
        let hole = deal.players@[seat as int]@;
        assert(views(deal.players@) =~= dealt_holes(new_deck@, num_pl as int));
        assert(seat as int == pick as int % num_pl as int);
        assert(deal.community@.take(5) =~= deal.community@);
        assert(is_hole_pair(hole));
        assert forall|k: int| 0 <= k < hole.len() implies card_deck@.contains(#[trigger] hole[k]) by {
            assert(new_deck@.contains(deal.players@[seat as int]@[k]));
        }
        assert(drawn_from(hole, card_deck@));
    }
    let out = ml_records(
        &deal.players[seat],
        &deal.community,
        seat == outcome.winner,
        simulated,
        starting,
        table,
        card_deck,
        threshold,
    );
    proof {
        if out is Ok {
            assert(round_followed(
                out->Ok_0@,
                table,
                starting,
                simulated,
                threshold,
                card_deck@,
                num_pl as int,
                draws,
                pick,
            ));
        }
    }
    out
}

/// The name of the column at place `i` of a record.
pub open spec fn column_name(i: int) -> Seq<char> {
    if i == 0 {
        "state"@
    } else if i == 1 {
        "hand1"@
    } else if i == 2 {
        "hand2"@
    } else if i == 3 {
        "flop1"@
    } else if i == 4 {
        "flop2"@
    } else if i == 5 {
        "flop3"@
    } else if i == 6 {
        "turn"@
    } else if i == 7 {
        "river"@
    } else if i == 8 {
        "win_chance"@
    } else if i == 9 {
        "won_on_flop"@
    } else if i == 10 {
        "won_on_turn"@
    } else if i == 11 {
        "won_on_river"@
    } else if i == 12 {
        "hand_equity"@
    } else {
        "did_win"@
    }
}

/// The names of the columns of a record, in order.
pub fn ml_header() -> (names: Vec<&'static str>)
    ensures
        names.len() == 14,
        forall|i: int| 0 <= i < 14 ==> (#[trigger] names@[i])@ == column_name(i),
{
    let mut names: Vec<&'static str> = Vec::new();
    names.push("state");
    names.push("hand1");
    names.push("hand2");
    names.push("flop1");
    names.push("flop2");
    names.push("flop3");
    names.push("turn");
    names.push("river");
    names.push("win_chance");
    names.push("won_on_flop");
    names.push("won_on_turn");
    names.push("won_on_river");
    names.push("hand_equity");
    names.push("did_win");
    names
}

} // verus!
