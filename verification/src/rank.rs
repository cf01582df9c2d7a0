//! Hand categories and the score bands that encode them.

use vstd::prelude::*;

verus! {

/// The ten hand categories, weakest first.
#[derive(Clone, Copy, Debug, PartialEq, Eq, PartialOrd, Ord, Hash, Structural)]
pub enum HandRank {
    HighCard,
    Pair,
    TwoPairs,
    ThreeOfAKind,
    Straight,
    Flush,
    FullHouse,
    FourOfAKind,
    StraightFlush,
    RoyalFlush,
}

/// Number of hand categories.
pub const RANK_COUNT: usize = 10;

/// Score units per point: scores are fixed-point numbers with six decimals.
pub const SCORE_SCALE: u32 = 1_000_000;

/// Width of the score band of one category: 100 points.
pub const BAND_WIDTH: u32 = 100_000_000;

/// Scores lie below this limit: 1000 points.
pub const SCORE_LIMIT: u32 = 1_000_000_000;

impl HandRank {
    /// Strength of the category: 1 for a high card up to 10 for a royal flush.
    pub open spec fn level(self) -> int {
        match self {
            HandRank::HighCard => 1,
            HandRank::Pair => 2,
            HandRank::TwoPairs => 3,
            HandRank::ThreeOfAKind => 4,
            HandRank::Straight => 5,
            HandRank::Flush => 6,
            HandRank::FullHouse => 7,
            HandRank::FourOfAKind => 8,
            HandRank::StraightFlush => 9,
            HandRank::RoyalFlush => 10,
        }
    }

    /// Lowest score of the category's band.
    pub open spec fn band_floor(self) -> int {
        (self.level() - 1) * BAND_WIDTH
    }

    /// Whether `score` lies in the category's band.
    pub open spec fn holds(self, score: int) -> bool {
        self.band_floor() <= score < self.band_floor() + BAND_WIDTH
    }

    /// The category's text, counting categories from 0 to 9.
    pub open spec fn label_text(self) -> Seq<char> {
        match self {
            HandRank::HighCard => "0/9 High card"@,
            HandRank::Pair => "1/9 Pair"@,
            HandRank::TwoPairs => "2/9 Two Pairs"@,
            HandRank::ThreeOfAKind => "3/9 Three of a Kind"@,
            HandRank::Straight => "4/9 Straight"@,
            HandRank::Flush => "5/9 Flush"@,
            HandRank::FullHouse => "6/9 Full House"@,
            HandRank::FourOfAKind => "7/9 Four of a Kind"@,
            HandRank::StraightFlush => "8/9 Straight Flush"@,
            HandRank::RoyalFlush => "9/9 Royal Flush"@,
        }
    }

    /// Strength of the category, from 1 to 10.
    pub fn number(self) -> (n: u8)
        ensures
            n == self.level(),
            1 <= n <= 10,
    {
        match self {
            HandRank::HighCard => 1,
            HandRank::Pair => 2,
            HandRank::TwoPairs => 3,
            HandRank::ThreeOfAKind => 4,
            HandRank::Straight => 5,
            HandRank::Flush => 6,
            HandRank::FullHouse => 7,
            HandRank::FourOfAKind => 8,
            HandRank::StraightFlush => 9,
            HandRank::RoyalFlush => 10,
        }
    }

    /// Whether this category is strictly stronger than `other`.
    pub fn outranks(self, other: HandRank) -> (b: bool)
        ensures
            b == (self.level() > other.level()),
    {
        self.number() > other.number()
    }

    /// Lowest score of the category's band.
    pub fn floor(self) -> (score: u32)
        ensures
            score == self.band_floor(),
            score < SCORE_LIMIT,
    {
        let level: u32 = self.number() as u32;
        (level - 1) * BAND_WIDTH
    }

    /// The category's text, counting categories from 0 to 9.
    pub fn label(self) -> (text: &'static str)
        ensures
            text@ == self.label_text(),
    {
        match self {
            HandRank::HighCard => "0/9 High card",
            HandRank::Pair => "1/9 Pair",
            HandRank::TwoPairs => "2/9 Two Pairs",
            HandRank::ThreeOfAKind => "3/9 Three of a Kind",
            HandRank::Straight => "4/9 Straight",
            HandRank::Flush => "5/9 Flush",
            HandRank::FullHouse => "6/9 Full House",
            HandRank::FourOfAKind => "7/9 Four of a Kind",
            HandRank::StraightFlush => "8/9 Straight Flush",
            HandRank::RoyalFlush => "9/9 Royal Flush",
        }
    }
}

/// The category whose band holds `score`; scores of 900 points and more
/// count as a royal flush.
pub open spec fn score_rank(score: int) -> HandRank {
    if score < 1 * BAND_WIDTH {
        HandRank::HighCard
    } else if score < 2 * BAND_WIDTH {
        HandRank::Pair
    } else if score < 3 * BAND_WIDTH {
        HandRank::TwoPairs
    } else if score < 4 * BAND_WIDTH {
        HandRank::ThreeOfAKind
    } else if score < 5 * BAND_WIDTH {
        HandRank::Straight
    } else if score < 6 * BAND_WIDTH {
        HandRank::Flush
    } else if score < 7 * BAND_WIDTH {
        HandRank::FullHouse
    } else if score < 8 * BAND_WIDTH {
        HandRank::FourOfAKind
    } else if score < 9 * BAND_WIDTH {
        HandRank::StraightFlush
    } else {
        HandRank::RoyalFlush
    }
}

/// A score below the limit lies in the band of exactly one category, the one
/// that `score_rank` names.
pub proof fn lemma_score_rank_band(score: int, rank: HandRank)
    requires
        0 <= score < SCORE_LIMIT,
    ensures
        rank.holds(score) <==> rank == score_rank(score),
{
}

/// Classifies a score by the band it falls in.
pub fn rank_of_score(score: u32) -> (rank: HandRank)
    requires
        score < SCORE_LIMIT,
    ensures
        rank == score_rank(score as int),
        rank.holds(score as int),
{
    let band: u32 = score / BAND_WIDTH;
    if band == 0 {
        HandRank::HighCard
    } else if band == 1 {
        HandRank::Pair
    } else if band == 2 {
        HandRank::TwoPairs
    } else if band == 3 {
        HandRank::ThreeOfAKind
    } else if band == 4 {
        HandRank::Straight
    } else if band == 5 {
        HandRank::Flush
    } else if band == 6 {
        HandRank::FullHouse
    } else if band == 7 {
        HandRank::FourOfAKind
    } else if band == 8 {
        HandRank::StraightFlush
    } else {
        HandRank::RoyalFlush
    }
}

/// How often each category was reached.
#[derive(Clone, Copy, Debug, PartialEq, Eq, Structural)]
pub struct RankHistogram {
    pub high_card: u64,
    pub pair: u64,
    pub two_pairs: u64,
    pub three_of_a_kind: u64,
    pub straight: u64,
    pub flush: u64,
    pub full_house: u64,
    pub four_of_a_kind: u64,
    pub straight_flush: u64,
    pub royal_flush: u64,
}

impl RankHistogram {
    /// The count of one category.
    pub open spec fn count_of(self, rank: HandRank) -> int {
        match rank {
            HandRank::HighCard => self.high_card as int,
            HandRank::Pair => self.pair as int,
            HandRank::TwoPairs => self.two_pairs as int,
            HandRank::ThreeOfAKind => self.three_of_a_kind as int,
            HandRank::Straight => self.straight as int,
            HandRank::Flush => self.flush as int,
            HandRank::FullHouse => self.full_house as int,
            HandRank::FourOfAKind => self.four_of_a_kind as int,
            HandRank::StraightFlush => self.straight_flush as int,
            HandRank::RoyalFlush => self.royal_flush as int,
        }
    }

    /// The sum of all counts.
    pub open spec fn total(self) -> int {
        self.high_card + self.pair + self.two_pairs + self.three_of_a_kind + self.straight
            + self.flush + self.full_house + self.four_of_a_kind + self.straight_flush
            + self.royal_flush
    }

    /// The histogram with all counts at 0.
    pub open spec fn empty() -> RankHistogram {
        RankHistogram {
            high_card: 0,
            pair: 0,
            two_pairs: 0,
            three_of_a_kind: 0,
            straight: 0,
            flush: 0,
            full_house: 0,
            four_of_a_kind: 0,
            straight_flush: 0,
            royal_flush: 0,
        }
    }

    /// The histogram with one more count for `rank`.
    pub open spec fn with_one_more(self, rank: HandRank) -> RankHistogram {
        match rank {
            HandRank::HighCard => RankHistogram { high_card: (self.high_card + 1) as u64, ..self },
            HandRank::Pair => RankHistogram { pair: (self.pair + 1) as u64, ..self },
            HandRank::TwoPairs => RankHistogram { two_pairs: (self.two_pairs + 1) as u64, ..self },
            HandRank::ThreeOfAKind => RankHistogram {
                three_of_a_kind: (self.three_of_a_kind + 1) as u64,
                ..self
            },
            HandRank::Straight => RankHistogram { straight: (self.straight + 1) as u64, ..self },
            HandRank::Flush => RankHistogram { flush: (self.flush + 1) as u64, ..self },
            HandRank::FullHouse => RankHistogram { full_house: (self.full_house + 1) as u64, ..self },
            HandRank::FourOfAKind => RankHistogram {
                four_of_a_kind: (self.four_of_a_kind + 1) as u64,
                ..self
            },
            HandRank::StraightFlush => RankHistogram {
                straight_flush: (self.straight_flush + 1) as u64,
                ..self
            },
            HandRank::RoyalFlush => RankHistogram {
                royal_flush: (self.royal_flush + 1) as u64,
                ..self
            },
        }
    }

    /// The count of one category.
    pub fn count(&self, rank: HandRank) -> (n: u64)
        ensures
            n == self.count_of(rank),
    {
        match rank {
            HandRank::HighCard => self.high_card,
            HandRank::Pair => self.pair,
            HandRank::TwoPairs => self.two_pairs,
            HandRank::ThreeOfAKind => self.three_of_a_kind,
            HandRank::Straight => self.straight,
            HandRank::Flush => self.flush,
            HandRank::FullHouse => self.full_house,
            HandRank::FourOfAKind => self.four_of_a_kind,
            HandRank::StraightFlush => self.straight_flush,
            HandRank::RoyalFlush => self.royal_flush,
        }
    }

    /// Counts `rank` once more.
    pub fn bump(self, rank: HandRank) -> (out: RankHistogram)
        requires
            self.total() < u64::MAX,
        ensures
            out == self.with_one_more(rank),
            out.total() == self.total() + 1,
            out.count_of(rank) == self.count_of(rank) + 1,
    {
        let mut out = self;
        match rank {
            HandRank::HighCard => {
                out.high_card = out.high_card + 1;
            },
            HandRank::Pair => {
                out.pair = out.pair + 1;
            },
            HandRank::TwoPairs => {
                out.two_pairs = out.two_pairs + 1;
            },
            HandRank::ThreeOfAKind => {
                out.three_of_a_kind = out.three_of_a_kind + 1;
            },
            HandRank::Straight => {
                out.straight = out.straight + 1;
            },
            HandRank::Flush => {
                out.flush = out.flush + 1;
            },
            HandRank::FullHouse => {
                out.full_house = out.full_house + 1;
            },
            HandRank::FourOfAKind => {
                out.four_of_a_kind = out.four_of_a_kind + 1;
            },
            HandRank::StraightFlush => {
                out.straight_flush = out.straight_flush + 1;
            },
            HandRank::RoyalFlush => {
                out.royal_flush = out.royal_flush + 1;
            },
        }
        out
    }
}

} // verus!
