//! Poker hand evaluation, equity tables and expected-value estimation for a
//! single player at the table.
//!
//! Scores are fixed-point numbers with six decimals; a hand's equity is its
//! place in the combination table over the number of listed hands; chances
//! and amounts of money are exact fractions.
//!
//! The modules, from the leaves up:
//! - [`card`], [`hand`]: cards, their order, sorting, keys of sorted hands;
//! - [`rank`], [`evaluator`]: hand categories, score bands, scoring of hands;
//! - [`subsets`]: the k-card picks of a card sequence;
//! - [`table`], [`universe`]: the combination table and the list of all hands;
//! - [`selector`]: the best hand of a player and the part of the hole cards;
//! - [`starting`]: the starting-hand table;
//! - [`simulator`], [`totals`]: Monte Carlo simulation of full rounds, and the
//!   sums of its counts;
//! - [`estimator`], [`advisor`]: opponent range, relative equity, expected value;
//! - [`position`]: seats and the hands playable from them;
//! - [`notation`], [`text`], [`reading`]: cards and queries as text;
//! - [`training`]: records of simulated rounds.

pub mod advisor;
pub mod card;
pub mod estimator;
pub mod evaluator;
pub mod hand;
pub mod notation;
pub mod position;
pub mod rank;
pub mod reading;
pub mod selector;
pub mod simulator;
pub mod starting;
pub mod subsets;
pub mod table;
pub mod text;
pub mod totals;
pub mod training;
pub mod universe;
