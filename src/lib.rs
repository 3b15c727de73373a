//! Search for four-by-four category grids over a word-membership corpus.
//!
//! Categories are bit vectors over a shared word universe. The graph builder
//! derives the one-hop and two-hop relationship graphs, the search engine
//! walks them to find grids whose every cell holds a word unique to its row
//! and column, and the remaining modules hold the grid fingerprint, the
//! stand-alone grid validator and the retry policy of the result store.

pub mod bits;
pub mod graph;
pub mod context;
pub mod checks;
pub mod search;
pub mod fingerprint;
pub mod retry;
pub mod validator;
