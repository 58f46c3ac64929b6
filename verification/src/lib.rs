//! A second-order statistical text model: sentences are ingested into a
//! weighted table of token triplets, and new sentences are drawn from it by a
//! weighted random walk.
//!
//! `token` and `weight` hold the vocabulary and the arithmetic of weights,
//! `text` the splitting of messages, `chain` the table, `ingest` what a text
//! adds to it, `generate` the walk, and `laws` what holds of all of them.
//! `corpus`, `phrases` and `models` serve the callers that gather the text
//! and present the result.

pub mod chain;
pub mod corpus;
pub mod generate;
pub mod ingest;
mod key;
pub mod laws;
pub mod models;
pub mod phrases;
pub mod text;
pub mod token;
pub mod weight;

pub use crate::chain::MChain;
pub use crate::token::Token;
