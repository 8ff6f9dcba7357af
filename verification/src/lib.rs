//! Round-based sports tipping: teams, rounds, games, tips and a leaderboard.
//!
//! The library holds the rules of the competition, each stated as a contract
//! and proved:
//!
//! - the fixture allocator ([`allocator`], [`quota`], [`extra`]): from a
//!   roster and the days of a round to the round's games;
//! - the round synchronisation engine ([`validation`], [`rounds`]): what a
//!   submitted round must meet, and what is written to create, replace or
//!   delete a round, with a model of the stored tables ([`store`], [`rules`])
//!   and the proofs of what the writes do to them ([`effects`],
//!   [`reconcile`], [`integrity`], [`diff`], [`cascade`]);
//! - the scoring engine ([`scoring`], [`reports`]): points for tips, the
//!   bonus for a perfect round, and the order of the competitors.
//!
//! Beside these stand what a client needs to edit a round and to enter tips
//! ([`editing`], [`picks`]) and the shape of the HTTP interface ([`http`],
//! [`teams`], [`tippers`], [`tips`]).
//!
//! Dates are day numbers of the calendar of `chrono` ([`date`]); the random
//! source is that of `rand` ([`random`]).

pub mod allocator;
pub mod cascade;
pub mod date;
pub mod diff;
pub mod editing;
pub mod effects;
pub mod error;
pub mod extra;
pub mod game;
pub mod http;
pub mod integrity;
pub mod picks;
pub mod quota;
pub mod random;
pub mod reconcile;
pub mod reports;
pub mod round;
pub mod rounds;
pub mod rules;
pub mod scoring;
pub mod seqs;
pub mod store;
pub mod team;
pub mod teams;
pub mod text;
pub mod tip;
pub mod tipper;
pub mod tippers;
pub mod tips;
pub mod validation;
