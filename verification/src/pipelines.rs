//! The decoding engine and the pipelines built on it.

pub mod adapter;
pub mod config;
pub mod filter;
pub mod generation;
pub mod hypothesis;
pub mod ngram;
pub mod output;
pub mod score;
pub mod search;
pub mod summarization;
