//! The rebase history that the database holds: the target each source branch
//! was last rebased onto.

use vstd::prelude::*;

use crate::history::database::{lemma_lookup_step, lookup};
use crate::text::str_eq;

verus! {

/// Each row's source and target, in the order the rows came.
pub open spec fn rebase_rows(rows: Seq<(String, String)>) -> Seq<(Seq<char>, Seq<char>)> {
    rows.map_values(|row: (String, String)| (row.0@, row.1@))
}

/// The target each source was last rebased onto.
pub struct RebaseHistory {
    targets: Vec<(String, String)>,
}

impl RebaseHistory {
    /// Sources with their targets; a later entry for a source replaces an
    /// earlier one.
    pub closed spec fn entries(&self) -> Seq<(Seq<char>, Seq<char>)> {
        self.targets@.map_values(|entry: (String, String)| (entry.0@, entry.1@))
    }

    /// The history that the rows of the rebase table give.
    pub fn from_rows(rows: Vec<(String, String)>) -> (history: RebaseHistory)
        ensures
            history.entries() == rebase_rows(rows@),
    {
        let history = RebaseHistory { targets: rows };
        assert(history.entries() =~= rebase_rows(rows@));
        history
    }

    /// The target `source` was last rebased onto.
    pub fn target_for(&self, source: &str) -> (target: Option<&str>)
        ensures
            match target {
                Some(t) => lookup(self.entries(), source@) == Some(t@),
                None => lookup(self.entries(), source@) is None,
            },
    {
        let ghost entries = self.entries();
        let mut i: usize = self.targets.len();
        proof {
            assert(entries.take(i as int) =~= entries);
        }
        while i > 0
            invariant
                i <= self.targets.len(),
                entries == self.entries(),
                entries.len() == self.targets.len(),
                lookup(entries, source@) == lookup(entries.take(i as int), source@),
            decreases i,
        {
            i = i - 1;
            proof {
                lemma_lookup_step(entries, i as int, source@);
            }
            if str_eq(self.targets[i].0.as_str(), source) {
                return Some(self.targets[i].1.as_str());
            }
        }
        None
    }
}

impl Default for RebaseHistory {
    /// An empty history.
    fn default() -> (history: RebaseHistory)
        ensures
            history.entries() == Seq::<(Seq<char>, Seq<char>)>::empty(),
    {
        let history = RebaseHistory { targets: Vec::new() };
        assert(history.entries() =~= Seq::<(Seq<char>, Seq<char>)>::empty());
        history
    }
}

} // verus!
