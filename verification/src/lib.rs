//! A local document search engine core: a tokenizer that normalizes raw
//! character streams into terms, per-document and corpus-wide frequency
//! statistics, TF-IDF and BM25 ranking over fixed-point arithmetic, and a
//! snapshot codec that round-trips the whole index through plain text.
//!
//! The binary around this library shares one `InMemoryModel` between an
//! indexing thread and a serving loop under a single lock. Every library
//! call that runs inside such a critical section is verified total and
//! panic-free, and each mutation leaves the index well formed, so no lock
//! holder can observe or leave behind a torn index.

pub mod alist;
pub mod lexer;
pub mod laws;
pub mod model;
pub mod parser;
pub mod rank;
pub mod snapshot;

use vstd::prelude::*;

verus! {

/// Which ranking formula `search_query` applies.
#[derive(Clone, Copy, PartialEq, Eq, Structural, Debug)]
pub enum RankMethod {
    Tfidf,
    Bm25,
}

} // verus!
