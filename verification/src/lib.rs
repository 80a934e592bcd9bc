//! Classification by a language model: the decisions behind a service that asks
//! a model to choose one of several options and reports how likely each one is.

pub mod binary64;
pub mod body;
pub mod candidate;
pub mod carried;
pub mod chat;
pub mod classify;
pub mod coherence;
pub mod error;
pub mod exact;
pub mod formula;
pub mod json;
pub mod outcome;
pub mod places;
pub mod prompt;
pub mod request;
pub mod scoring;
pub mod text;
pub mod tokens;
pub mod verdict;
