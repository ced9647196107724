//! Release artifacts of Radicle repositories.

pub mod cache;
pub mod cids;
pub mod command;
pub mod create;
pub mod discovery;
pub mod display;
pub mod error;
pub mod follow;
pub mod ids;
pub mod json;
pub mod laws;
pub mod location;
pub mod modify;
pub mod node;
pub mod order;
pub mod pick;
pub mod preset;
pub mod pretty;
pub mod prompt;
pub mod receipt;
pub mod reconcile;
pub mod register;
pub mod release;
pub mod report;
pub mod resolve;
pub mod retrieval;
pub mod seqs;
pub mod share;
pub mod shown;
pub mod sorted;
pub mod stats;
pub mod store;
pub mod text;
pub mod transfer;
pub mod trust;
pub mod verify;
pub mod watch;
