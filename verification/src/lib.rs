//! A durable-execution engine: workflows whose every effect goes through a
//! journaling context, so that a run which dies can be replayed from its
//! journal and carried on from where it stopped.

pub mod command;
pub mod commands;
pub mod context;
pub mod crashes;
pub mod engine;
pub mod equivalence;
pub mod execution;
pub mod failpoints;
pub mod journal;
pub mod laws;
pub mod model;
pub mod outcomes;
pub mod random;
pub mod recovery;
pub mod signup;
pub mod step;
pub mod stores;
pub mod text;
pub mod time;
