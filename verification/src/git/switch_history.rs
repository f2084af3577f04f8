//! The file that remembers which branches were switched to, most recent first:
//! one branch name per line.

use vstd::prelude::*;

use crate::text::{
    chars_eq, chars_of, has_char, is_line_record, join_terminated, lemma_lines_of_terminated,
    lines, lines_of, push_char, push_chars, str_eq, views,
};

verus! {

/// The name of the file, in Git's common directory, that holds the history.
pub const HISTORY_FILE_NAME: &'static str = "gitbranch-switches";

/// The line of a history file that could not be read, counted from 1.
#[derive(Debug, PartialEq, Eq)]
pub struct InvalidRecord {
    pub line_number: usize,
}

/// Whether line `k` of `records` names a branch that no earlier line names.
pub open spec fn switch_line_ok(records: Seq<Seq<char>>, k: int) -> bool {
    records[k].len() > 0 && !records.take(k).contains(records[k])
}

/// Whether `records` could be the lines of a history file: non-empty names,
/// each once.
pub open spec fn valid_switch_records(records: Seq<Seq<char>>) -> bool {
    forall|k: int| 0 <= k < records.len() ==> switch_line_ok(records, k)
}

/// `entries` without `branch`, in the same order.
pub open spec fn without(entries: Seq<Seq<char>>, branch: Seq<char>) -> Seq<Seq<char>> {
    entries.filter(differs_from(branch))
}

/// The entries that are not `branch`.
pub open spec fn differs_from(branch: Seq<char>) -> spec_fn(Seq<char>) -> bool {
    |entry: Seq<char>| entry != branch
}

/// Branches that were switched to, the most recent first.
#[derive(Clone, Debug, PartialEq, Eq)]
pub struct SwitchHistory {
    branches: Vec<String>,
}

impl SwitchHistory {
    /// The names of the branches, the most recent first.
    pub closed spec fn entries(&self) -> Seq<Seq<char>> {
        self.branches@.map_values(|branch: String| branch@)
    }

    /// An empty history.
    pub fn new() -> (history: SwitchHistory)
        ensures
            history.entries() == Seq::<Seq<char>>::empty(),
    {
        let history = SwitchHistory { branches: Vec::new() };
        assert(history.entries() =~= Seq::<Seq<char>>::empty());
        history
    }

    /// Reads a history file: each line names a branch, the most recent first.
    /// The first line that is empty or names a branch an earlier line names is
    /// reported.
    pub fn parse(contents: &str) -> (result: Result<SwitchHistory, InvalidRecord>)
        ensures
            ({
                let records = lines(contents@);
                match result {
                    Ok(history) => valid_switch_records(records) && history.entries() == records,
                    Err(error) => {
                        &&& 1 <= error.line_number <= records.len()
                        &&& !switch_line_ok(records, error.line_number - 1)
                        &&& forall|k: int|
                            0 <= k < error.line_number - 1 ==> switch_line_ok(records, k)
                    },
                }
            }),
    {
        let all = lines_of(&chars_of(contents));
        let ghost records = lines(contents@);
        let mut branches: Vec<String> = Vec::new();
        let mut k: usize = 0;
        while k < all.len()
            invariant
                records == lines(contents@),
                views(all@) == records,
                k <= all.len(),
                branches@.map_values(|branch: String| branch@) == records.take(k as int),
                forall|j: int| 0 <= j < k ==> switch_line_ok(records, j),
            decreases all.len() - k,
        {
            let line = &all[k];
            assert(line@ == records[k as int]);
            if line.len() == 0 {
                return Err(InvalidRecord { line_number: k + 1 });
            }
            let mut j: usize = 0;
            while j < k
                invariant
                    records == lines(contents@),
                    forall|i: int| 0 <= i < k ==> switch_line_ok(records, i),
                    views(all@) == records,
                    j <= k < all.len(),
                    line@ == records[k as int],
                    forall|i: int| 0 <= i < j ==> records[i] != records[k as int],
                decreases k - j,
            {
                if chars_eq(&all[j], line) {
                    proof {
                        assert(records.take(k as int)[j as int] == records[k as int]);
                    }
                    return Err(InvalidRecord { line_number: k + 1 });
                }
                j = j + 1;
            }
            proof {
                if records.take(k as int).contains(records[k as int]) {
                    let i = choose|i: int|
                        0 <= i < k && records.take(k as int)[i] == records[k as int];
                    assert(records[i] == records[k as int]);
                }
                assert(records.take(k + 1) =~= records.take(k as int).push(records[k as int]));
            }
            let mut name = String::new();
            push_chars(&mut name, line);
            proof {
                assert(branches@.push(name).map_values(|branch: String| branch@)
                    =~= branches@.map_values(|branch: String| branch@).push(name@));
            }
            branches.push(name);
            k = k + 1;
        }
        proof {
            assert(records.take(k as int) =~= records);
        }
        Ok(SwitchHistory { branches })
    }

    /// How recently `branch` was switched to: 0 for the most recent switch,
    /// `None` for a branch that is not in the history.
    pub fn rank(&self, branch: &str) -> (rank: Option<usize>)
        ensures
            match rank {
                Some(i) => {
                    &&& i < self.entries().len()
                    &&& self.entries()[i as int] == branch@
                    &&& forall|j: int| 0 <= j < i ==> self.entries()[j] != branch@
                },
                None => !self.entries().contains(branch@),
            },
    {
        let mut i: usize = 0;
        while i < self.branches.len()
            invariant
                i <= self.branches.len(),
                self.entries().len() == self.branches.len(),
                forall|j: int| 0 <= j < i ==> self.entries()[j] != branch@,
            decreases self.branches.len() - i,
        {
            if str_eq(self.branches[i].as_str(), branch) {
                return Some(i);
            }
            i = i + 1;
        }
        proof {
            if self.entries().contains(branch@) {
                let j = choose|j: int| 0 <= j < self.entries().len() && self.entries()[j] == branch@;
                assert(self.entries()[j] != branch@);
            }
        }
        None
    }

    /// A history of `branches`, the most recent first.
    pub fn for_test<const N: usize>(branches: [&str; N]) -> (history: SwitchHistory)
        ensures
            history.entries() == branches@.map_values(|branch: &str| branch@),
    {
        let mut names: Vec<String> = Vec::new();
        let mut i: usize = 0;
        while i < N
            invariant
                i <= N,
                N == branches@.len(),
                names@.map_values(|branch: String| branch@) == branches@.take(
                    i as int,
                ).map_values(|branch: &str| branch@),
            decreases N - i,
        {
            let name = branches[i].to_owned();
            proof {
                assert(names@.push(name).map_values(|branch: String| branch@) =~= names@.map_values(
                    |branch: String| branch@,
                ).push(name@));
                assert(branches@.take(i + 1).map_values(|branch: &str| branch@) =~= branches@.take(
                    i as int,
                ).map_values(|branch: &str| branch@).push(branches@[i as int]@));
            }
            names.push(name);
            i = i + 1;
        }
        proof {
            assert(branches@.take(N as int) =~= branches@);
        }
        SwitchHistory { branches: names }
    }

    /// Remembers a switch to `branch`: it moves to the front, and every other
    /// branch keeps its order behind it.
    pub fn record(&mut self, branch: &str)
        ensures
            final(self).entries() == seq![branch@] + without(old(self).entries(), branch@),
    {
        let ghost old_entries = self.entries();
        let mut kept: Vec<String> = Vec::new();
        kept.push(branch.to_owned());
        let mut i: usize = 0;
        while i < self.branches.len()
            invariant
                i <= self.branches.len(),
                self.entries() == old_entries,
                old_entries.len() == self.branches.len(),
                kept@.map_values(|entry: String| entry@) == seq![branch@] + without(
                    old_entries.take(i as int),
                    branch@,
                ),
            decreases self.branches.len() - i,
        {
            proof {
                assert(old_entries.take(i + 1) =~= old_entries.take(i as int).push(
                    old_entries[i as int],
                ));
                old_entries.take(i as int).lemma_filter_push(
                    old_entries[i as int],
                    differs_from(branch@),
                );
            }
            if !str_eq(self.branches[i].as_str(), branch) {
                let entry = self.branches[i].clone();
                proof {
                    assert(kept@.push(entry).map_values(|entry: String| entry@) =~= kept@.map_values(
                        |entry: String| entry@,
                    ).push(entry@));
                }
                kept.push(entry);
            }
            i = i + 1;
        }
        proof {
            assert(old_entries.take(i as int) =~= old_entries);
        }
        self.branches = kept;
    }

    /// The history file that holds this history: each branch on a line of its
    /// own, the most recent first.
    pub fn serialize(&self) -> (contents: String)
        ensures
            contents@ == join_terminated(self.entries()),
    {
        let mut contents = String::new();
        let mut i: usize = self.branches.len();
        let ghost entries = self.entries();
        while i > 0
            invariant
                i <= self.branches.len(),
                entries == self.entries(),
                entries.len() == self.branches.len(),
                contents@ == join_terminated(entries.skip(i as int)),
            decreases i,
        {
            i = i - 1;
            let mut line: Vec<char> = chars_of(self.branches[i].as_str());
            line.push('\n');
            let mut next = String::new();
            push_chars(&mut next, &line);
            let ghost rest = contents@;
            push_chars(&mut next, &chars_of(contents.as_str()));
            proof {
                let s = entries.skip(i as int);
                assert(s[0] == entries[i as int]);
                assert(s.drop_first() =~= entries.skip(i + 1));
            }
            contents = next;
        }
        proof {
            assert(entries.skip(0) =~= entries);
        }
        contents
    }
}

/// A history read back from the file that `serialize` writes is the history
/// that was written, for histories of non-empty branch names, each once, that
/// hold no line feed and do not end in a carriage return.
pub proof fn switch_history_round_trip(history: SwitchHistory)
    requires
        valid_switch_records(history.entries()),
        forall|i: int|
            0 <= i < history.entries().len() ==> is_line_record(#[trigger] history.entries()[i]),
    ensures
        lines(join_terminated(history.entries())) == history.entries(),
        valid_switch_records(lines(join_terminated(history.entries()))),
{
    lemma_lines_of_terminated(history.entries());
}

/// Recording a switch to a branch of a valid history gives a valid history
/// in which that branch is the most recent.
pub proof fn switch_record_keeps_history_valid(entries: Seq<Seq<char>>, branch: Seq<char>)
    requires
        valid_switch_records(entries),
        branch.len() > 0,
    ensures
        valid_switch_records(seq![branch] + without(entries, branch)),
{
    let rest = without(entries, branch);
    let result = seq![branch] + rest;
    lemma_filter_distinct(entries, branch);
    assert forall|k: int| 0 <= k < result.len() implies switch_line_ok(result, k) by {
        if k == 0 {
            assert(result.take(0) =~= Seq::<Seq<char>>::empty());
        } else {
            assert(result[k] == rest[k - 1]);
            assert(rest[k - 1] != branch);
            assert(rest.contains(rest[k - 1]));
            entries.lemma_filter_pred(differs_from(branch), k - 1);
            entries.lemma_filter_contains_rev(differs_from(branch), rest[k - 1]);
            assert(entries.contains(rest[k - 1]));
            if result.take(k).contains(result[k]) {
                let i = choose|i: int| 0 <= i < k && result.take(k)[i] == result[k];
                if i > 0 {
                    assert(rest[i - 1] == rest[k - 1]);
                }
            }
            let j = choose|j: int| 0 <= j < entries.len() && entries[j] == rest[k - 1];
            assert(switch_line_ok(entries, j));
        }
    }
}

proof fn lemma_filter_distinct(entries: Seq<Seq<char>>, branch: Seq<char>)
    requires
        valid_switch_records(entries),
    ensures
        forall|i: int, j: int|
            0 <= i < j < without(entries, branch).len() ==> #[trigger] without(entries, branch)[i]
                != #[trigger] without(entries, branch)[j],
    decreases entries.len(),
{
    let f = differs_from(branch);
    if entries.len() > 0 {
        let init = entries.drop_last();
        assert forall|k: int| 0 <= k < init.len() implies switch_line_ok(init, k) by {
            assert(switch_line_ok(entries, k));
            assert(init.take(k) =~= entries.take(k));
        }
        lemma_filter_distinct(init, branch);
        assert(entries =~= init.push(entries.last()));
        init.lemma_filter_push(entries.last(), f);
        let fi = init.filter(f);
        assert(switch_line_ok(entries, entries.len() - 1));
        assert(entries.take(entries.len() - 1) =~= init);
        assert forall|i: int| 0 <= i < fi.len() implies fi[i] != entries.last() by {
            assert(fi.contains(fi[i]));
            init.lemma_filter_contains_rev(f, fi[i]);
            assert(init.contains(fi[i]));
        }
        let w = without(entries, branch);
        assert forall|i: int, j: int| 0 <= i < j < w.len() implies #[trigger] w[i] != #[trigger] w[j] by {
            if f(entries.last()) {
                assert(w =~= fi.push(entries.last()));
                if j == fi.len() {
                    assert(w[i] == fi[i]);
                } else {
                    assert(w[i] == without(init, branch)[i]);
                    assert(w[j] == without(init, branch)[j]);
                }
            } else {
                assert(w =~= fi);
                assert(w[i] == without(init, branch)[i]);
                assert(w[j] == without(init, branch)[j]);
            }
        }
    }
}

/// Whether no name occurs twice in `entries`.
pub open spec fn distinct_names(entries: Seq<Seq<char>>) -> bool {
    forall|i: int, j: int| 0 <= i < j < entries.len() ==> #[trigger] entries[i] != #[trigger] entries[j]
}

/// Leaving a name out of names that occur once each keeps them once each,
/// and shortens them by one exactly when the name was there.
proof fn lemma_without_distinct(entries: Seq<Seq<char>>, branch: Seq<char>)
    requires
        distinct_names(entries),
    ensures
        distinct_names(without(entries, branch)),
        !without(entries, branch).contains(branch),
        forall|x: Seq<char>| x != branch ==> (#[trigger] without(entries, branch).contains(x) == entries.contains(x)),
        without(entries, branch).len() == if entries.contains(branch) {
            entries.len() - 1
        } else {
            entries.len() as int
        },
    decreases entries.len(),
{
    let f = differs_from(branch);
    if entries.len() == 0 {
        assert(without(entries, branch) =~= Seq::<Seq<char>>::empty());
    } else {
        let init = entries.drop_last();
        let last = entries.last();
        assert(distinct_names(init)) by {
            assert forall|i: int, j: int| 0 <= i < j < init.len() implies #[trigger] init[i] != #[trigger] init[j] by {
                assert(init[i] == entries[i] && init[j] == entries[j]);
            }
        }
        lemma_without_distinct(init, branch);
        assert(entries =~= init.push(last));
        init.lemma_filter_push(last, f);
        let fi = without(init, branch);
        assert(!init.contains(last)) by {
            if init.contains(last) {
                let i = choose|i: int| 0 <= i < init.len() && init[i] == last;
                assert(entries[i] == entries[entries.len() - 1]);
            }
        }
        assert forall|x: Seq<char>| #[trigger] entries.contains(x) == (init.contains(x) || x == last) by {
            if entries.contains(x) {
                let i = choose|i: int| 0 <= i < entries.len() && entries[i] == x;
                if i < init.len() {
                    assert(init[i] == x);
                }
            }
            if init.contains(x) {
                let i = choose|i: int| 0 <= i < init.len() && init[i] == x;
                assert(entries[i] == x);
            }
            if x == last {
                assert(entries[entries.len() - 1] == x);
            }
        }
        if f(last) {
            let w = fi.push(last);
            assert(without(entries, branch) == w);
            assert forall|x: Seq<char>| #[trigger] w.contains(x) == (fi.contains(x) || x == last) by {
                if w.contains(x) {
                    let i = choose|i: int| 0 <= i < w.len() && w[i] == x;
                    if i < fi.len() {
                        assert(fi[i] == x);
                    }
                }
                if fi.contains(x) {
                    let i = choose|i: int| 0 <= i < fi.len() && fi[i] == x;
                    assert(w[i] == x);
                }
                if x == last {
                    assert(w[w.len() - 1] == x);
                }
            }
            assert forall|i: int, j: int| 0 <= i < j < w.len() implies #[trigger] w[i] != #[trigger] w[j] by {
                if j == fi.len() {
                    assert(fi.contains(fi[i]));
                    assert(w[i] == fi[i]);
                } else {
                    assert(w[i] == fi[i] && w[j] == fi[j]);
                }
            }
        } else {
            assert(without(entries, branch) == fi);
        }
    }
}

/// Recording a switch to `branch` in a history whose names occur once each
/// puts `branch` first, keeps every name once, and adds one entry exactly
/// when `branch` was not in the history.
pub proof fn law_switch_record_keeps_names_distinct(entries: Seq<Seq<char>>, branch: Seq<char>)
    requires
        distinct_names(entries),
    ensures
        ({
            let recorded = seq![branch] + without(entries, branch);
            &&& recorded[0] == branch
            &&& distinct_names(recorded)
            &&& recorded.len() == if entries.contains(branch) {
                entries.len() as int
            } else {
                entries.len() as int + 1
            }
        }),
{
    lemma_without_distinct(entries, branch);
    let rest = without(entries, branch);
    let recorded = seq![branch] + rest;
    assert forall|i: int, j: int| 0 <= i < j < recorded.len() implies #[trigger] recorded[i] != #[trigger] recorded[j] by {
        assert(recorded[j] == rest[j - 1]);
        if i == 0 {
            assert(rest.contains(rest[j - 1]));
        } else {
            assert(recorded[i] == rest[i - 1]);
        }
    }
}

} // verus!
