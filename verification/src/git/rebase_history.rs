//! The file that remembers the branch each branch was last rebased onto: one
//! `source<TAB>target` line per source branch, ordered by source.

use vstd::prelude::*;

pub use crate::git::switch_history::InvalidRecord;
use crate::text::{
    has_char, is_field, is_last_field, is_line_record, lemma_lines_of_terminated, lemma_split_two_fields,
    chars_of, join_terminated, lemma_join_terminated_push, lex_less, lex_lt, lemma_lex_asymmetric,
    lemma_lex_irreflexive, lemma_lex_total, lemma_lex_transitive, lines, lines_of, push_chars,
    split_chars, split_on, str_eq, views,
};

verus! {

/// The name of the file, in Git's common directory, that holds the history.
pub const HISTORY_FILE_NAME: &'static str = "gitbranch-rebases";

/// A rebase of `source` onto `target`.
#[derive(Debug, PartialEq, Eq)]
pub struct RebaseRecord {
    source: String,
    target: String,
}

impl RebaseRecord {
    pub closed spec fn source_view(&self) -> Seq<char> {
        self.source@
    }

    pub closed spec fn target_view(&self) -> Seq<char> {
        self.target@
    }

    pub fn new(source: &str, target: &str) -> (record: RebaseRecord)
        ensures
            record.source_view() == source@,
            record.target_view() == target@,
    {
        RebaseRecord { source: source.to_owned(), target: target.to_owned() }
    }
}

/// A remembered rebase: source and target.
pub type RebasePair = (Seq<char>, Seq<char>);

/// The record that a line of the file holds: a non-empty source, a tab, and a
/// non-empty target that holds no tab.
pub open spec fn rebase_fields(line: Seq<char>) -> Option<RebasePair> {
    let fields = split_on(line, '\t');
    if fields.len() == 2 && fields[0].len() > 0 && fields[1].len() > 0 {
        Some((fields[0], fields[1]))
    } else {
        None
    }
}

/// The target that the last pair for `source` in `pairs` names.
pub open spec fn last_target(pairs: Seq<RebasePair>, source: Seq<char>) -> Option<Seq<char>>
    decreases pairs.len(),
{
    if pairs.len() == 0 {
        None
    } else if pairs.last().0 == source {
        Some(pairs.last().1)
    } else {
        last_target(pairs.drop_last(), source)
    }
}

/// Whether the sources of `pairs` are in strictly increasing order.
pub open spec fn sorted_sources(pairs: Seq<RebasePair>) -> bool {
    forall|i: int, j: int| 0 <= i < j < pairs.len() ==> lex_lt(#[trigger] pairs[i].0, #[trigger] pairs[j].0)
}

/// The target that `pairs` holds for `source`.
pub open spec fn target_in(pairs: Seq<RebasePair>, source: Seq<char>) -> Option<Seq<char>> {
    if exists|i: int| 0 <= i < pairs.len() && #[trigger] pairs[i].0 == source {
        Some(pairs[choose|i: int| 0 <= i < pairs.len() && #[trigger] pairs[i].0 == source].1)
    } else {
        None
    }
}

/// The line that holds `pair`.
pub open spec fn rebase_line(pair: RebasePair) -> Seq<char> {
    pair.0 + seq!['\t'] + pair.1
}

proof fn lemma_target_in_at(pairs: Seq<RebasePair>, i: int)
    requires
        sorted_sources(pairs),
        0 <= i < pairs.len(),
    ensures
        target_in(pairs, pairs[i].0) == Some(pairs[i].1),
{
    let c = choose|c: int| 0 <= c < pairs.len() && #[trigger] pairs[c].0 == pairs[i].0;
    if c != i {
        if c < i {
            assert(lex_lt(pairs[c].0, pairs[i].0));
        } else {
            assert(lex_lt(pairs[i].0, pairs[c].0));
        }
        lemma_lex_irreflexive(pairs[i].0);
    }
}

/// The last rebase target of each branch.
#[derive(Debug)]
pub struct RebaseHistory {
    entries: Vec<(String, String)>,
}

spec fn pair_views(entries: Seq<(String, String)>) -> Seq<RebasePair> {
    entries.map_values(|e: (String, String)| (e.0@, e.1@))
}

/// Adds `source`'s target to `entries`, replacing its earlier target and
/// keeping the sources in order.
fn insert_sorted(entries: &mut Vec<(String, String)>, source: String, target: String)
    requires
        sorted_sources(pair_views(old(entries)@)),
    ensures
        sorted_sources(pair_views(final(entries)@)),
        forall|s: Seq<char>|
            #[trigger] target_in(pair_views(final(entries)@), s) == if s == source@ {
                Some(target@)
            } else {
                target_in(pair_views(old(entries)@), s)
            },
{
    let ghost old_pairs = pair_views(entries@);
    let key = chars_of(source.as_str());
    let mut i: usize = 0;
    while i < entries.len() && lex_less(&chars_of(entries[i].0.as_str()), &key)
        invariant
            i <= entries.len(),
            key@ == source@,
            old_pairs == pair_views(entries@),
            forall|m: int| 0 <= m < i ==> lex_lt(#[trigger] old_pairs[m].0, source@),
        decreases entries.len() - i,
    {
        i = i + 1;
    }
    proof {
        assert forall|m: int| i <= m < old_pairs.len() implies !lex_lt(#[trigger] old_pairs[m].0, source@) by {
            assert(!lex_lt(old_pairs[i as int].0, source@));
            if m > i {
                assert(lex_lt(old_pairs[i as int].0, old_pairs[m].0));
                lemma_lex_total(old_pairs[i as int].0, source@);
                if lex_lt(old_pairs[m].0, source@) {
                    if old_pairs[i as int].0 == source@ {
                        lemma_lex_asymmetric(old_pairs[m].0, source@);
                    } else {
                        lemma_lex_transitive(source@, old_pairs[i as int].0, old_pairs[m].0);
                        lemma_lex_asymmetric(old_pairs[m].0, source@);
                    }
                }
            }
        }
    }
    if i < entries.len() && str_eq(entries[i].0.as_str(), source.as_str()) {
        entries.set(i, (source, target));
        proof {
            let new_pairs = pair_views(entries@);
            assert(new_pairs =~= old_pairs.update(i as int, (source@, target@)));
            assert(sorted_sources(new_pairs)) by {
                assert forall|a: int, b: int| 0 <= a < b < new_pairs.len() implies lex_lt(
                    #[trigger] new_pairs[a].0,
                    #[trigger] new_pairs[b].0,
                ) by {
                    assert(new_pairs[a].0 == old_pairs[a].0);
                    assert(new_pairs[b].0 == old_pairs[b].0);
                }
            }
            assert forall|s: Seq<char>| #[trigger] target_in(new_pairs, s) == if s == source@ {
                Some(target@)
            } else {
                target_in(old_pairs, s)
            } by {
                if s == source@ {
                    lemma_target_in_at(new_pairs, i as int);
                } else if exists|m: int| 0 <= m < old_pairs.len() && #[trigger] old_pairs[m].0 == s {
                    let m = choose|m: int| 0 <= m < old_pairs.len() && #[trigger] old_pairs[m].0 == s;
                    lemma_target_in_at(old_pairs, m);
                    lemma_target_in_at(new_pairs, m);
                } else {
                    assert forall|m: int| 0 <= m < new_pairs.len() implies #[trigger] new_pairs[m].0 != s by {
                        if m != i {
                            assert(new_pairs[m] == old_pairs[m]);
                        }
                    }
                }
            }
        }
    } else {
        proof {
            if i < old_pairs.len() {
                lemma_lex_total(old_pairs[i as int].0, source@);
            }
        }
        entries.insert(i, (source, target));
        proof {
            let new_pairs = pair_views(entries@);
            assert(new_pairs =~= old_pairs.insert(i as int, (source@, target@)));
            assert forall|m: int| i < m < new_pairs.len() implies lex_lt(source@, #[trigger] new_pairs[m].0) by {
                assert(new_pairs[m] == old_pairs[m - 1]);
                assert(!lex_lt(old_pairs[m - 1].0, source@));
                if m - 1 > i {
                    assert(lex_lt(old_pairs[i as int].0, old_pairs[m - 1].0));
                    lemma_lex_transitive(source@, old_pairs[i as int].0, old_pairs[m - 1].0);
                }
            }
            assert(sorted_sources(new_pairs)) by {
                assert forall|a: int, b: int| 0 <= a < b < new_pairs.len() implies lex_lt(
                    #[trigger] new_pairs[a].0,
                    #[trigger] new_pairs[b].0,
                ) by {
                    if a < i && b < i {
                        assert(new_pairs[a] == old_pairs[a] && new_pairs[b] == old_pairs[b]);
                    } else if a < i && b == i {
                        assert(new_pairs[a] == old_pairs[a]);
                    } else if a < i {
                        assert(new_pairs[a] == old_pairs[a] && new_pairs[b] == old_pairs[b - 1]);
                        lemma_lex_transitive(old_pairs[a].0, source@, old_pairs[b - 1].0);
                    } else if a > i {
                        assert(new_pairs[a] == old_pairs[a - 1] && new_pairs[b] == old_pairs[b - 1]);
                    }
                }
            }
            assert forall|s: Seq<char>| #[trigger] target_in(new_pairs, s) == if s == source@ {
                Some(target@)
            } else {
                target_in(old_pairs, s)
            } by {
                if s == source@ {
                    lemma_target_in_at(new_pairs, i as int);
                } else if exists|m: int| 0 <= m < old_pairs.len() && #[trigger] old_pairs[m].0 == s {
                    let m = choose|m: int| 0 <= m < old_pairs.len() && #[trigger] old_pairs[m].0 == s;
                    lemma_target_in_at(old_pairs, m);
                    if m < i {
                        assert(new_pairs[m] == old_pairs[m]);
                        lemma_target_in_at(new_pairs, m);
                    } else {
                        assert(new_pairs[m + 1] == old_pairs[m]);
                        lemma_target_in_at(new_pairs, m + 1);
                    }
                } else {
                    assert forall|m: int| 0 <= m < new_pairs.len() implies #[trigger] new_pairs[m].0 != s by {
                        if m < i {
                            assert(new_pairs[m] == old_pairs[m]);
                        } else if m > i {
                            assert(new_pairs[m] == old_pairs[m - 1]);
                        }
                    }
                }
            }
        }
    }
}

impl RebaseHistory {
    /// The remembered rebases, ordered by source.
    pub closed spec fn pairs(&self) -> Seq<RebasePair> {
        pair_views(self.entries@)
    }

    #[verifier::type_invariant]
    spec fn well_formed(self) -> bool {
        sorted_sources(self.pairs())
    }

    /// An empty history.
    pub fn new() -> (history: RebaseHistory)
        ensures
            history.pairs() == Seq::<RebasePair>::empty(),
    {
        let history = RebaseHistory { entries: Vec::new() };
        assert(history.pairs() =~= Seq::<RebasePair>::empty());
        history
    }

    /// Reads a history file. The first line that is not a record is reported;
    /// a later line for the same source replaces an earlier one.
    pub fn parse(contents: &str) -> (result: Result<RebaseHistory, InvalidRecord>)
        ensures
            ({
                let records = lines(contents@);
                match result {
                    Ok(history) => {
                        &&& forall|k: int| 0 <= k < records.len() ==> (#[trigger] rebase_fields(records[k])) is Some
                        &&& sorted_sources(history.pairs())
                        &&& forall|source: Seq<char>| #[trigger] target_in(history.pairs(), source)
                            == last_target(
                                records.map_values(|line: Seq<char>| rebase_fields(line)->0),
                                source,
                            )
                    },
                    Err(error) => {
                        &&& 1 <= error.line_number <= records.len()
                        &&& rebase_fields(records[error.line_number - 1]) is None
                        &&& forall|k: int| 0 <= k < error.line_number - 1 ==> (#[trigger] rebase_fields(records[k])) is Some
                    },
                }
            }),
    {
        let all = lines_of(&chars_of(contents));
        let ghost records = lines(contents@);
        let ghost parsed = records.map_values(|line: Seq<char>| rebase_fields(line)->0);
        let mut entries: Vec<(String, String)> = Vec::new();
        let mut k: usize = 0;
        while k < all.len()
            invariant
                records == lines(contents@),
                parsed == records.map_values(|line: Seq<char>| rebase_fields(line)->0),
                views(all@) == records,
                k <= all.len(),
                sorted_sources(pair_views(entries@)),
                forall|j: int| 0 <= j < k ==> (#[trigger] rebase_fields(records[j])) is Some,
                forall|source: Seq<char>| #[trigger] target_in(pair_views(entries@), source) == last_target(
                    parsed.take(k as int),
                    source,
                ),
            decreases all.len() - k,
        {
            let line = &all[k];
            assert(line@ == records[k as int]);
            let fields = split_chars(line, '\t');
            if fields.len() != 2 || fields[0].len() == 0 || fields[1].len() == 0 {
                return Err(InvalidRecord { line_number: k + 1 });
            }
            assert(fields[0]@ == split_on(line@, '\t')[0]);
            assert(fields[1]@ == split_on(line@, '\t')[1]);
            let mut source = String::new();
            push_chars(&mut source, &fields[0]);
            let mut target = String::new();
            push_chars(&mut target, &fields[1]);
            let ghost before = pair_views(entries@);
            insert_sorted(&mut entries, source, target);
            proof {
                let taken = parsed.take(k + 1);
                assert(taken.drop_last() =~= parsed.take(k as int));
                assert(taken.last() == (fields[0]@, fields[1]@));
                assert forall|s: Seq<char>| #[trigger] target_in(pair_views(entries@), s) == last_target(
                    taken,
                    s,
                ) by {
                    assert(target_in(pair_views(entries@), s) == if s == fields[0]@ {
                        Some(fields[1]@)
                    } else {
                        target_in(before, s)
                    });
                }
            }
            k = k + 1;
        }
        proof {
            assert(parsed.take(k as int) =~= parsed);
        }
        Ok(RebaseHistory { entries })
    }

    /// The branch that `source` was last rebased onto.
    pub fn target_for(&self, source: &str) -> (target: Option<&str>)
        ensures
            match target {
                Some(t) => target_in(self.pairs(), source@) == Some(t@),
                None => target_in(self.pairs(), source@) is None,
            },
    {
        proof {
            use_type_invariant(self);
        }
        let mut i: usize = 0;
        while i < self.entries.len()
            invariant
                i <= self.entries.len(),
                sorted_sources(self.pairs()),
                forall|m: int| 0 <= m < i ==> #[trigger] self.pairs()[m].0 != source@,
            decreases self.entries.len() - i,
        {
            if str_eq(self.entries[i].0.as_str(), source) {
                proof {
                    lemma_target_in_at(self.pairs(), i as int);
                }
                return Some(self.entries[i].1.as_str());
            }
            i = i + 1;
        }
        None
    }

    /// The history file after recording `record`: it replaces the source's
    /// earlier target, and each source is written on a line of its own, in
    /// order.
    pub fn record(self, record: RebaseRecord) -> (contents: String)
        ensures
            exists|written: Seq<RebasePair>|
                {
                    &&& sorted_sources(written)
                    &&& forall|s: Seq<char>| #[trigger] target_in(written, s) == if s == record.source_view() {
                        Some(record.target_view())
                    } else {
                        target_in(self.pairs(), s)
                    }
                    &&& contents@ == join_terminated(
                        written.map_values(|pair: RebasePair| rebase_line(pair)),
                    )
                },
    {
        proof {
            use_type_invariant(&self);
        }
        let RebaseHistory { mut entries } = self;
        let RebaseRecord { source, target } = record;
        insert_sorted(&mut entries, source, target);
        let ghost written = pair_views(entries@);
        let mut contents = String::new();
        let mut k: usize = 0;
        while k < entries.len()
            invariant
                k <= entries.len(),
                written == pair_views(entries@),
                contents@ == join_terminated(
                    written.take(k as int).map_values(|pair: RebasePair| rebase_line(pair)),
                ),
            decreases entries.len() - k,
        {
            let mut line: Vec<char> = chars_of(entries[k].0.as_str());
            line.push('\t');
            let target_chars = chars_of(entries[k].1.as_str());
            let mut m: usize = 0;
            while m < target_chars.len()
                invariant
                    m <= target_chars.len(),
                    line@ == entries@[k as int].0@ + seq!['\t'] + target_chars@.take(m as int),
                decreases target_chars.len() - m,
            {
                line.push(target_chars[m]);
                m = m + 1;
                proof {
                    assert(target_chars@.take(m as int) =~= target_chars@.take(m - 1).push(
                        target_chars@[m - 1],
                    ));
                }
            }
            line.push('\n');
            push_chars(&mut contents, &line);
            proof {
                assert(target_chars@.take(m as int) =~= target_chars@);
                let done = written.take(k as int).map_values(|pair: RebasePair| rebase_line(pair));
                assert(written.take(k + 1).map_values(|pair: RebasePair| rebase_line(pair)) =~= done.push(
                    rebase_line(written[k as int]),
                ));
                lemma_join_terminated_push(done, rebase_line(written[k as int]));
                assert(line@ =~= rebase_line(written[k as int]) + seq!['\n']);
            }
            k = k + 1;
        }
        proof {
            assert(written.take(k as int) =~= written);
        }
        contents
    }
}


/// With each source once, the last target named for a source is its target.
proof fn lemma_last_target_sorted(pairs: Seq<RebasePair>, source: Seq<char>)
    requires
        sorted_sources(pairs),
    ensures
        last_target(pairs, source) == target_in(pairs, source),
    decreases pairs.len(),
{
    if pairs.len() > 0 {
        let n = pairs.len() - 1;
        if pairs.last().0 == source {
            lemma_target_in_at(pairs, n);
        } else {
            let front = pairs.drop_last();
            assert(sorted_sources(front)) by {
                assert forall|i: int, j: int| 0 <= i < j < front.len() implies lex_lt(
                    #[trigger] front[i].0,
                    #[trigger] front[j].0,
                ) by {
                    assert(front[i] == pairs[i] && front[j] == pairs[j]);
                }
            }
            lemma_last_target_sorted(front, source);
            if exists|i: int| 0 <= i < front.len() && #[trigger] front[i].0 == source {
                let i = choose|i: int| 0 <= i < front.len() && #[trigger] front[i].0 == source;
                lemma_target_in_at(front, i);
                assert(front[i] == pairs[i]);
                lemma_target_in_at(pairs, i);
            } else {
                assert(!exists|i: int| 0 <= i < pairs.len() && #[trigger] pairs[i].0 == source) by {
                    if exists|i: int| 0 <= i < pairs.len() && #[trigger] pairs[i].0 == source {
                        let i = choose|i: int| 0 <= i < pairs.len() && #[trigger] pairs[i].0 == source;
                        if i < n {
                            assert(front[i] == pairs[i]);
                        }
                    }
                }
            }
        }
    }
}

/// What `record` writes reads back: every line of the file holds a record,
/// and the target that reading gives each source is the one written. (Names
/// with a tab or line feed, and targets that end in a carriage return, would
/// not read back.)
pub proof fn rebase_history_round_trip(written: Seq<RebasePair>)
    requires
        sorted_sources(written),
        forall|i: int| 0 <= i < written.len() ==> is_field(#[trigger] written[i].0) && is_last_field(written[i].1),
    ensures
        ({
            let records = lines(join_terminated(written.map_values(|pair: RebasePair| rebase_line(pair))));
            &&& forall|k: int| 0 <= k < records.len() ==> (#[trigger] rebase_fields(records[k])) is Some
            &&& forall|source: Seq<char>|
                last_target(records.map_values(|line: Seq<char>| rebase_fields(line)->0), source)
                    == #[trigger] target_in(written, source)
        }),
{
    let lines_written = written.map_values(|pair: RebasePair| rebase_line(pair));
    assert forall|i: int| 0 <= i < lines_written.len() implies is_line_record(#[trigger] lines_written[i]) by {
        let pair = written[i];
        let line = rebase_line(pair);
        assert(line == lines_written[i]);
        assert(!has_char(line, '\n')) by {
            if has_char(line, '\n') {
                let k = choose|k: int| 0 <= k < line.len() && line[k] == '\n';
                if k < pair.0.len() {
                    assert(line[k] == pair.0[k]);
                } else if k > pair.0.len() {
                    assert(line[k] == pair.1[k - pair.0.len() - 1]);
                }
            }
        }
        assert(line.last() == pair.1.last());
        assert(pair.1.last() != '\r') by {
            if pair.1.last() == '\r' {
                assert(pair.1[pair.1.len() - 1] == '\r');
            }
        }
    }
    lemma_lines_of_terminated(lines_written);
    let records = lines(join_terminated(lines_written));
    assert(records == lines_written);
    assert forall|k: int| 0 <= k < records.len() implies rebase_fields(#[trigger] records[k]) == Some(written[k]) by {
        lemma_split_two_fields(written[k].0, written[k].1);
    }
    assert(records.map_values(|line: Seq<char>| rebase_fields(line)->0) =~= written);
    assert forall|source: Seq<char>|
        last_target(records.map_values(|line: Seq<char>| rebase_fields(line)->0), source)
            == #[trigger] target_in(written, source) by {
        lemma_last_target_sorted(written, source);
    }
}

} // verus!
