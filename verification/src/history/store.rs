//! Where the history database lives.

use vstd::prelude::*;

use crate::history::database::DATABASE_FILE_NAME;
use crate::text::push_str;

verus! {

/// `name` joined onto the directory `directory`, as `Path::join` joins a
/// relative name on Unix: a separator is added unless the directory is empty
/// or already ends in one.
pub open spec fn join_path(directory: Seq<char>, name: Seq<char>) -> Seq<char> {
    if directory.len() == 0 {
        name
    } else if directory.last() == '/' {
        directory + name
    } else {
        directory + "/"@ + name
    }
}

fn ends_with_separator(directory: &str) -> (ends: bool)
    ensures
        ends == (directory@.len() > 0 && directory@.last() == '/'),
{
    let chars = crate::text::chars_of(directory);
    chars.len() > 0 && chars[chars.len() - 1] == '/'
}

/// The history database of a repository.
#[derive(Clone, Debug, PartialEq, Eq)]
pub struct HistoryStore {
    database_path: String,
}

impl HistoryStore {
    pub closed spec fn path_view(&self) -> Seq<char> {
        self.database_path@
    }

    /// The store whose database is in Git's common directory
    /// `common_directory`.
    pub fn new(common_directory: &str) -> (store: HistoryStore)
        ensures
            store.path_view() == join_path(common_directory@, DATABASE_FILE_NAME@),
    {
        let mut path = String::new();
        if common_directory.is_empty() {
            push_str(&mut path, DATABASE_FILE_NAME);
        } else if ends_with_separator(common_directory) {
            push_str(&mut path, common_directory);
            push_str(&mut path, DATABASE_FILE_NAME);
        } else {
            push_str(&mut path, common_directory);
            push_str(&mut path, "/");
            push_str(&mut path, DATABASE_FILE_NAME);
        }
        proof {
            assert(path@ =~= join_path(common_directory@, DATABASE_FILE_NAME@));
        }
        HistoryStore { database_path: path }
    }

    /// The path of the database file.
    pub fn database_path(&self) -> (path: &str)
        ensures
            path@ == self.path_view(),
    {
        self.database_path.as_str()
    }
}

} // verus!
