//! Branches, the repository decisions, and the history files that remember
//! what was done with branches.

pub mod branch;
pub mod cherry;
pub mod merge_history;
pub mod rebase_history;
pub mod repository;
pub mod switch_history;

pub use branch::{Checkout, CleanBranch, LocalBranch};
pub use merge_history::MergeHistory;
pub use repository::{ConflictableCommandOutcome, InProgressOperation};
pub use switch_history::SwitchHistory;
