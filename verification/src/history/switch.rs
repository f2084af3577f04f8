//! The switch history that the database holds: each branch with the rank of
//! its latest switch.

use vstd::prelude::*;

use crate::history::database::{
    first_invalid, lemma_lookup_step, lookup, rank_from_database, valid_rank, Error,
};
use crate::text::str_eq;

verus! {

/// Each row's branch and rank, in the order the rows came.
pub open spec fn switch_rows(rows: Seq<(String, i64)>) -> Seq<(Seq<char>, int)> {
    rows.map_values(|row: (String, i64)| (row.0@, row.1 as int))
}

/// Each row's rank.
pub open spec fn switch_row_ranks(rows: Seq<(String, i64)>) -> Seq<i64> {
    rows.map_values(|row: (String, i64)| row.1)
}

/// Branches with the rank of their latest switch: a bigger rank is a more
/// recent switch.
pub struct SwitchHistory {
    rankings: Vec<(String, usize)>,
}

impl SwitchHistory {
    /// The branches and their ranks; a later entry for a branch replaces an
    /// earlier one.
    pub closed spec fn entries(&self) -> Seq<(Seq<char>, int)> {
        self.rankings@.map_values(|entry: (String, usize)| (entry.0@, entry.1 as int))
    }

    /// The history that the rows of the switch table give. The first row
    /// whose rank is not a positive `usize` is reported.
    pub fn from_rows(rows: Vec<(String, i64)>) -> (result: Result<SwitchHistory, Error>)
        ensures
            match result {
                Ok(history) => {
                    &&& forall|i: int| 0 <= i < rows.len() ==> valid_rank(#[trigger] rows@[i].1)
                    &&& history.entries() == switch_rows(rows@)
                },
                Err(error) => exists|i: int|
                    first_invalid(switch_row_ranks(rows@), i) && error == Error::InvalidRank(
                        #[trigger] rows@[i].1,
                    ),
            },
    {
        let mut rankings: Vec<(String, usize)> = Vec::new();
        let mut i: usize = 0;
        while i < rows.len()
            invariant
                i <= rows.len(),
                rankings.len() == i,
                forall|k: int| 0 <= k < i ==> valid_rank(#[trigger] rows@[k].1),
                forall|k: int|
                    0 <= k < i ==> (#[trigger] rankings@[k]).0@ == rows@[k].0@ && rankings@[k].1
                        == rows@[k].1,
            decreases rows.len() - i,
        {
            match rank_from_database(rows[i].1) {
                Ok(rank) => {
                    rankings.push((rows[i].0.clone(), rank));
                },
                Err(error) => {
                    proof {
                        assert(first_invalid(switch_row_ranks(rows@), i as int));
                    }
                    return Err(error);
                },
            }
            i = i + 1;
        }
        let history = SwitchHistory { rankings };
        assert(history.entries() =~= switch_rows(rows@));
        Ok(history)
    }

    /// The rank of the latest switch to `branch`, or `None` for a branch that
    /// was never switched to.
    pub fn rank(&self, branch: &str) -> (rank: Option<usize>)
        ensures
            match rank {
                Some(r) => lookup(self.entries(), branch@) == Some(r as int),
                None => lookup(self.entries(), branch@) is None,
            },
    {
        let ghost entries = self.entries();
        let mut i: usize = self.rankings.len();
        proof {
            assert(entries.take(i as int) =~= entries);
        }
        while i > 0
            invariant
                i <= self.rankings.len(),
                entries == self.entries(),
                entries.len() == self.rankings.len(),
                lookup(entries, branch@) == lookup(entries.take(i as int), branch@),
            decreases i,
        {
            i = i - 1;
            proof {
                lemma_lookup_step(entries, i as int, branch@);
            }
            if str_eq(self.rankings[i].0.as_str(), branch) {
                return Some(self.rankings[i].1);
            }
        }
        None
    }

    /// A history of `branches`, the most recent switch first: the last branch
    /// has rank 1 and the first has rank `N`.
    pub fn for_test<const N: usize>(branches: [&str; N]) -> (history: SwitchHistory)
        ensures
            history.entries() == Seq::new(
                N as nat,
                |k: int| (branches@[N - 1 - k]@, k + 1),
            ),
    {
        let mut rankings: Vec<(String, usize)> = Vec::new();
        let mut i: usize = 0;
        while i < N
            invariant
                i <= N,
                N == branches@.len(),
                rankings.len() == i,
                forall|k: int|
                    0 <= k < i ==> (#[trigger] rankings@[k]).0@ == branches@[N - 1 - k]@
                        && rankings@[k].1 == k + 1,
            decreases N - i,
        {
            rankings.push((branches[N - 1 - i].to_owned(), i + 1));
            i = i + 1;
        }
        let history = SwitchHistory { rankings };
        assert(history.entries() =~= Seq::new(N as nat, |k: int| (branches@[N - 1 - k]@, k + 1)));
        history
    }
}

impl Default for SwitchHistory {
    /// An empty history.
    fn default() -> (history: SwitchHistory)
        ensures
            history.entries() == Seq::<(Seq<char>, int)>::empty(),
    {
        let history = SwitchHistory { rankings: Vec::new() };
        assert(history.entries() =~= Seq::<(Seq<char>, int)>::empty());
        history
    }
}

} // verus!
