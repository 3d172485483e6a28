//! Frecency ranking for full-text search results in a version-controlled tree.
//!
//! A match found in a file that changes often, and changed recently, ranks
//! above the same match in a stale file. Scores are fixed-point numbers with
//! eighteen decimal places, so that every rule of the ranking is exact
//! integer arithmetic.
//!
//! The library reads no repository and no file. What was read is handed to it
//! as plain values: the commits of the walk, the contents that they name, the
//! blame of the matched files.

pub mod blame;
pub mod frecency;
pub mod history;
pub mod keys;
pub mod lines;
pub mod path;
pub mod present;
pub mod rank;
pub mod search;
pub mod verbs;
