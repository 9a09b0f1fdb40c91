//! Exhaustive search for sequences of arithmetic and digit operations that
//! carry a start value to a goal value within a move budget.
//!
//! - `op`: the catalog of operations and their exact effect on an `i32`.
//! - `decimal`: decimal text of integers, used by the digit operations.
//! - `search`: the depth-bounded pre-order traversal and its solutions.
//!   The first failing operation aborts the search; the solutions found
//!   before it are kept.
//! - `stepper`: the same search taken one step at a time, with an explicit
//!   work stack, so that a caller can read solutions as they come and stop.
//! - `properties`: facts proved of every search.

pub mod decimal;
pub mod op;
pub mod properties;
pub mod search;
pub mod stepper;
