//! Search for sets of five five-letter words that together use twenty-five
//! distinct letters.
//!
//! Words are encoded as 26-bit letter masks (`letters`), anagrams are
//! collapsed to their first spelling (`dedup`), and the sets are found by a
//! level-order tree of partial combinations with bitmask pruning and
//! memoized continuation ranges (`search`). Two depth-first searches, one
//! over all later words and one over a precomputed pair graph
//! (`depth_first`, `pairs`), meet the same contract; `laws` states what
//! every result satisfies.
pub mod range;
pub mod letters;
pub mod dedup;
pub mod search;
pub mod laws;
pub mod emit;
pub mod depth_first;
pub mod pairs;
