//! Standings of round-robin groups.
//!
//! A group is a set of teams and the games among them. Its standing is a
//! strict order of the teams, found in two steps. First a prioritised list
//! of sub-orders is applied: each splits the teams that are still tied by
//! one statistic, such as points or goal difference, taken over all games
//! or over the games among the tied teams alone. Then a tiebreaker settles
//! the teams that the sub-orders could not tell apart.
//!
//! - [`team`], [`game`], [`fair_play`], [`date`] and [`group`] hold the data:
//!   teams, scores, cards, dates, games and groups.
//! - [`group::stats`] sums statistics over the games of a group.
//! - [`group::order`] holds the sub-orders, the rules made of them, and the
//!   ordering itself. [`group::tiebreak`] holds the tiebreakers.
//! - [`group::laws`] states what holds of every order that comes out:
//!   nothing is lost, nothing is doubled, and what is decided stays.
//! - [`models`] and [`utils::serde_date`] turn stored rows and written
//!   dates into the data above and back.
pub mod date;
pub mod fair_play;
pub mod game;
pub mod group;
pub mod models;
pub mod team;
pub mod utils;

pub use date::Date;
