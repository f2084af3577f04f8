//! Branch history kept in a database: the rows that the database returns are
//! turned into rankings here.

pub mod database;
pub mod merge;
pub mod rebase;
pub mod store;
pub mod switch;

pub use database::{rank_from_database, Error, DATABASE_FILE_NAME};
pub use merge::MergeHistory;
pub use rebase::RebaseHistory;
pub use store::HistoryStore;
pub use switch::SwitchHistory;
