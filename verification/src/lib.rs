//! Operators on demand-driven item sequences, written as state machines.
//!
//! Every operator is a value that is handed the outcomes of its source one
//! by one and says after each whether the source must be advanced again or
//! what the operator's own advance returns. The caller owns the source and
//! runs the loop; the operators own every decision.

pub mod advance;
pub mod enumerate;
pub mod group_by;
pub mod latest;
pub mod with_latest_from;

pub use advance::{Advance, Progress};
pub use enumerate::Enumerate;
pub use group_by::{Group, GroupBy};
pub use latest::Latest;
pub use with_latest_from::WithLatestFrom;
