//! Tools for working with Bitcoin Core `debug.log` files: merge the logs of
//! several nodes into one log for each day, split such a log again, and extract
//! the templates that the lines of a log were written from.
//!
//! - [`merge`] tells which files are logs, and which are merged on which day;
//!   [`interleave`] is the merge itself, [`check`] its check, [`stream`] both,
//!   one line at a time, and [`day`] both on whole logs. [`split`] takes a
//!   merged log apart. [`merge_laws`] and [`file_laws`] state what holds of all
//!   of them.
//! - [`line`] and [`tokenizer`] cut a line into tokens, [`drain`] clusters
//!   tokenized lines in a fixed-depth tree, and [`analyzer`] keeps one such
//!   tree for each category and saves and loads them as JSON lines.
//!   [`templates`] writes the report. [`atom_laws`] and [`token_laws`] say which
//!   texts are which tokens, [`cluster_laws`] which lines share a template,
//!   [`state_laws`] what a saved state looks like, and [`report_laws`] what the
//!   report shows.
//!
//! Files, compression, threads and the command line are left to the program
//! around this library, and so are doubles: the library holds a double by its
//! bits (see [`double`]).
use vstd::prelude::*;

pub mod analyzer;
pub mod atom_laws;
pub mod check;
pub mod cluster_laws;
pub mod day;
pub mod double;
pub mod drain;
pub mod file_laws;
pub mod interleave;
pub mod json_read;
pub mod json_write;
pub mod lexical;
pub mod line;
pub mod lines;
pub mod merge;
pub mod merge_laws;
pub mod order;
pub mod report_laws;
pub mod round_trip;
pub mod split;
pub mod state_laws;
pub mod stream;
pub mod summary;
pub mod templates;
pub mod text;
pub mod timestamp;
pub mod token_laws;
pub mod tokenizer;

pub use analyzer::Analyzer;
pub use drain::{Cluster, Drain, Slot};
pub use line::LogLine;
pub use tokenizer::{classify, tokenize, Token, TokenKind};

verus! {

}
