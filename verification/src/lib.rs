//! Verified core of `gitflex`, a Git branch picker: the branch model and the
//! decisions about a repository, the history formats that rank branches, the
//! picker's state machine behind the terminal UI, the `cleanbranches` list,
//! and the logic of the `toolinstall` and `passwordgen` helpers.

pub mod cleanbranches;
pub mod git;
pub mod history;
pub mod order;
pub mod text;
pub mod ui;
pub mod tools;
pub mod password;
