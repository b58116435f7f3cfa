//! Branch-and-bound exploration of the 0/1 knapsack decision space: a plain
//! bounded search and a dominance-pruned "blocking" variant, together with
//! the item model, the aggregate functions they share, and the small
//! pseudo-random and rendering helpers of the surrounding tooling.

pub mod blocking;
pub mod plain;
pub mod util;
