//! Set partitions, enumerated.
//!
//! The heart of the crate is `lexico_stateless`: an engine that turns the
//! partition in its buffer into the next one in a fixed order, with the help
//! of a sorted bag of free elements (`bag`). `partition` says what a partition
//! is and in which order partitions are visited; `laws` states what holds of
//! the whole sequence: every partition of `{1, ..., n}` is handed out once,
//! so that their number is the Bell number of `n`. `encoding`, `order`,
//! `rank` and `search` hold the reasoning behind that.
//!
//! The other modules make the same partitions in other ways: block by block
//! (`lexico`, with the reasoning in `descent`), by the Bell triangle, by
//! Stirling numbers, and as restricted growth strings in lexicographic order
//! or as Gray codes.

pub mod bag;
pub mod bell_triangle;
pub mod descent;
pub mod encoding;
pub mod indexed;
pub mod laws;
pub mod lexico;
pub mod lexico_stateless;
pub mod order;
pub mod partition;
pub mod rank;
pub mod restricted_growth;
pub mod rgs_graycode;
pub mod rgs_graycode_ehrlich;
pub mod search;
pub mod stirling;
