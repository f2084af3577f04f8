//! What the history tables hold, and the checks the rows read from them pass.

use vstd::prelude::*;

verus! {

/// The name of the database file in Git's common directory.
pub const DATABASE_FILE_NAME: &'static str = "gitflex-history.sqlite3";

/// A history row that the library cannot use.
#[derive(Debug, PartialEq, Eq, Structural)]
pub enum Error {
    /// A rank that is not a positive `usize`.
    InvalidRank(i64),
}

/// Whether the database may hold `rank`: ranks are positive `usize`s.
pub open spec fn valid_rank(rank: i64) -> bool {
    0 < rank && rank <= usize::MAX
}

/// Whether `ranks[i]` is the first rank that is not valid.
pub open spec fn first_invalid(ranks: Seq<i64>, i: int) -> bool {
    &&& 0 <= i < ranks.len()
    &&& !valid_rank(ranks[i])
    &&& forall|j: int| 0 <= j < i ==> valid_rank(ranks[j])
}

/// The value that the last entry for `key` gives it, as a map collected from
/// the entries in order holds it.
pub open spec fn lookup<K, V>(entries: Seq<(K, V)>, key: K) -> Option<V>
    decreases entries.len(),
{
    if entries.len() == 0 {
        None
    } else if entries.last().0 == key {
        Some(entries.last().1)
    } else {
        lookup(entries.drop_last(), key)
    }
}

/// Looking up a key in a prefix one entry longer.
pub proof fn lemma_lookup_step<K, V>(entries: Seq<(K, V)>, i: int, key: K)
    requires
        0 <= i < entries.len(),
    ensures
        entries.take(i + 1).drop_last() == entries.take(i),
        lookup(entries.take(i + 1), key) == if entries[i].0 == key {
            Some(entries[i].1)
        } else {
            lookup(entries.take(i), key)
        },
{
    assert(entries.take(i + 1).drop_last() =~= entries.take(i));
}

/// The rank that the database stores as `rank`.
pub fn rank_from_database(rank: i64) -> (result: Result<usize, Error>)
    ensures
        match result {
            Ok(r) => valid_rank(rank) && r == rank,
            Err(Error::InvalidRank(r)) => r == rank && !valid_rank(rank),
        },
{
    if rank > 0 && (rank as u64) <= (usize::MAX as u64) {
        Ok(rank as usize)
    } else {
        Err(Error::InvalidRank(rank))
    }
}

} // verus!
