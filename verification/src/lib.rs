//! A small indexing and retrieval engine for mixed Chinese and Latin text.
//!
//! Text is normalized, cut into terms, and indexed; queries are answered with
//! the exact integer statistics from which TF-IDF scores are computed.

pub mod dictionary;
pub mod engine;
pub mod index;
pub mod normalize;
pub mod score;
pub mod segment;
pub mod table;
pub mod text;
