//! Top-two selection over a slice of totally ordered numbers, offered as five
//! interchangeable strategies (sort, fold, loop, sequential transform-reduce and
//! parallel transform-reduce) that share one accumulator and one merge rule.
//!
//! Every strategy ensures `max2_result`: the two largest values, highest first,
//! when there are at least two values, and otherwise an error that tells an
//! empty slice from a slice of one value. `laws` proves that these outcomes
//! agree across strategies and orderings, and that merging the states of the
//! parts of a slice gives the state of the whole.

pub mod laws;
pub mod numeric;
pub mod pair;
pub mod parallel;
pub mod strategies;

pub use numeric::Numeric;
pub use pair::{compare, compare_pair, Max2Error, Pair, PairOption};
pub use parallel::par_max2;
pub use strategies::{fold_max2, fold_slice, loop_max2, sort_max2, transform_max2};
