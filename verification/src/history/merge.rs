//! The merge history that the database holds: each destination and source
//! with the rank of their latest merge.

use vstd::prelude::*;

use crate::history::database::{
    first_invalid, lemma_lookup_step, lookup, rank_from_database, valid_rank, Error,
};
use crate::text::str_eq;

verus! {

/// Each row's destination and source, and its rank, in the order the rows
/// came.
pub open spec fn merge_rows(rows: Seq<(String, String, i64)>) -> Seq<((Seq<char>, Seq<char>), int)> {
    rows.map_values(|row: (String, String, i64)| ((row.0@, row.1@), row.2 as int))
}

/// Each row's rank.
pub open spec fn merge_row_ranks(rows: Seq<(String, String, i64)>) -> Seq<i64> {
    rows.map_values(|row: (String, String, i64)| row.2)
}

/// Merges, as destination and source, with the rank of their latest merge: a
/// bigger rank is a more recent merge. Ranks are shared by all destinations.
pub struct MergeHistory {
    rankings: Vec<(String, String, usize)>,
}

impl MergeHistory {
    /// The merges and their ranks; a later entry for a pair replaces an
    /// earlier one.
    pub closed spec fn entries(&self) -> Seq<((Seq<char>, Seq<char>), int)> {
        self.rankings@.map_values(
            |entry: (String, String, usize)| ((entry.0@, entry.1@), entry.2 as int),
        )
    }

    /// The history that the rows of the merge table give. The first row whose
    /// rank is not a positive `usize` is reported.
    pub fn from_rows(rows: Vec<(String, String, i64)>) -> (result: Result<MergeHistory, Error>)
        ensures
            match result {
                Ok(history) => {
                    &&& forall|i: int| 0 <= i < rows.len() ==> valid_rank(#[trigger] rows@[i].2)
                    &&& history.entries() == merge_rows(rows@)
                },
                Err(error) => exists|i: int|
                    first_invalid(merge_row_ranks(rows@), i) && error == Error::InvalidRank(
                        #[trigger] rows@[i].2,
                    ),
            },
    {
        let mut rankings: Vec<(String, String, usize)> = Vec::new();
        let mut i: usize = 0;
        while i < rows.len()
            invariant
                i <= rows.len(),
                rankings.len() == i,
                forall|k: int| 0 <= k < i ==> valid_rank(#[trigger] rows@[k].2),
                forall|k: int|
                    0 <= k < i ==> (#[trigger] rankings@[k]).0@ == rows@[k].0@ && rankings@[k].1@
                        == rows@[k].1@ && rankings@[k].2 == rows@[k].2,
            decreases rows.len() - i,
        {
            match rank_from_database(rows[i].2) {
                Ok(rank) => {
                    rankings.push((rows[i].0.clone(), rows[i].1.clone(), rank));
                },
                Err(error) => {
                    proof {
                        assert(first_invalid(merge_row_ranks(rows@), i as int));
                    }
                    return Err(error);
                },
            }
            i = i + 1;
        }
        let history = MergeHistory { rankings };
        assert(history.entries() =~= merge_rows(rows@));
        Ok(history)
    }

    /// The rank of the latest merge of `source` into `destination`, or `None`
    /// when it was never merged there.
    pub fn rank(&self, destination: &str, source: &str) -> (rank: Option<usize>)
        ensures
            match rank {
                Some(r) => lookup(self.entries(), (destination@, source@)) == Some(r as int),
                None => lookup(self.entries(), (destination@, source@)) is None,
            },
    {
        let ghost entries = self.entries();
        let ghost key = (destination@, source@);
        let mut i: usize = self.rankings.len();
        proof {
            assert(entries.take(i as int) =~= entries);
        }
        while i > 0
            invariant
                i <= self.rankings.len(),
                entries == self.entries(),
                key == (destination@, source@),
                entries.len() == self.rankings.len(),
                lookup(entries, key) == lookup(entries.take(i as int), key),
            decreases i,
        {
            i = i - 1;
            proof {
                lemma_lookup_step(entries, i as int, key);
            }
            if str_eq(self.rankings[i].0.as_str(), destination) && str_eq(
                self.rankings[i].1.as_str(),
                source,
            ) {
                return Some(self.rankings[i].2);
            }
        }
        None
    }

    /// A history of `merges`, the most recent first: the last merge has rank
    /// 1 and the first has rank `N`.
    pub fn for_test<const N: usize>(merges: [(&str, &str); N]) -> (history: MergeHistory)
        ensures
            history.entries() == Seq::new(
                N as nat,
                |k: int| ((merges@[N - 1 - k].0@, merges@[N - 1 - k].1@), k + 1),
            ),
    {
        let mut rankings: Vec<(String, String, usize)> = Vec::new();
        let mut i: usize = 0;
        while i < N
            invariant
                i <= N,
                N == merges@.len(),
                rankings.len() == i,
                forall|k: int|
                    0 <= k < i ==> (#[trigger] rankings@[k]).0@ == merges@[N - 1 - k].0@
                        && rankings@[k].1@ == merges@[N - 1 - k].1@ && rankings@[k].2 == k + 1,
            decreases N - i,
        {
            let (destination, source) = merges[N - 1 - i];
            rankings.push((destination.to_owned(), source.to_owned(), i + 1));
            i = i + 1;
        }
        let history = MergeHistory { rankings };
        assert(history.entries() =~= Seq::new(
            N as nat,
            |k: int| ((merges@[N - 1 - k].0@, merges@[N - 1 - k].1@), k + 1),
        ));
        history
    }
}

impl Default for MergeHistory {
    /// An empty history.
    fn default() -> (history: MergeHistory)
        ensures
            history.entries() == Seq::<((Seq<char>, Seq<char>), int)>::empty(),
    {
        let history = MergeHistory { rankings: Vec::new() };
        assert(history.entries() =~= Seq::<((Seq<char>, Seq<char>), int)>::empty());
        history
    }
}

} // verus!
