//! The file that remembers which branches were merged into which: one
//! `destination<TAB>source<TAB>rank` line per pair, where a higher rank is a
//! more recent merge.

use vstd::prelude::*;

pub use crate::git::switch_history::InvalidRecord;
use crate::order::{
    is_permutation, is_stable_sort, is_stable_sort_by, key_eq, key_lt, lemma_key_total,
    stable_sort, SortKey,
};
use crate::text::{
    has_char, is_digit, is_field, lemma_decimal_digits, lemma_decimal_parses,
    lemma_lines_of_terminated, lemma_split_first_field, lemma_split_two_fields,
    chars_eq, chars_of, decimal, is_line_record, join_terminated, lex_lt, lines, lines_of,
    lemma_join_terminated_push, parse_usize, parse_usize_exec, push_chars, push_decimal,
    split_chars, split_on, str_eq,
    views,
};

verus! {

/// The name of the file, in Git's common directory, that holds the history.
pub const HISTORY_FILE_NAME: &'static str = "gitbranch-merges";

/// A merge of `source` into `destination`.
#[derive(Debug, PartialEq, Eq)]
pub struct MergeRecord {
    destination: String,
    source: String,
}

impl MergeRecord {
    pub closed spec fn destination_view(&self) -> Seq<char> {
        self.destination@
    }

    pub closed spec fn source_view(&self) -> Seq<char> {
        self.source@
    }

    pub fn new(destination: &str, source: &str) -> (record: MergeRecord)
        ensures
            record.destination_view() == destination@,
            record.source_view() == source@,
    {
        MergeRecord { destination: destination.to_owned(), source: source.to_owned() }
    }
}

/// A remembered merge: destination, source and rank.
pub type MergeTriple = (Seq<char>, Seq<char>, nat);

/// The rank that `records` remembers for a merge of `source` into
/// `destination`.
pub open spec fn rank_in(records: Seq<MergeTriple>, destination: Seq<char>, source: Seq<char>) -> Option<nat>
    decreases records.len(),
{
    if records.len() == 0 {
        None
    } else if records[0].0 == destination && records[0].1 == source {
        Some(records[0].2)
    } else {
        rank_in(records.drop_first(), destination, source)
    }
}

/// Whether no pair of branches occurs twice in `records`.
pub open spec fn distinct_pairs(records: Seq<MergeTriple>) -> bool {
    forall|i: int, j: int|
        0 <= i < j < records.len() ==> (#[trigger] records[i].0 != #[trigger] records[j].0
            || records[i].1 != records[j].1)
}

/// The record that a line of the file holds: three tab-separated fields, two
/// non-empty branch names and a rank below `usize::MAX`.
pub open spec fn merge_fields(line: Seq<char>) -> Option<MergeTriple> {
    let fields = split_on(line, '\t');
    if fields.len() == 3 && fields[0].len() > 0 && fields[1].len() > 0 {
        match parse_usize(fields[2]) {
            Some(rank) => if rank < usize::MAX {
                Some((fields[0], fields[1], rank))
            } else {
                None
            },
            None => None,
        }
    } else {
        None
    }
}

/// Whether two records are for the same pair of branches.
pub open spec fn same_pair(a: MergeTriple, b: MergeTriple) -> bool {
    a.0 == b.0 && a.1 == b.1
}

/// Whether line `k` of `lines` holds a record whose pair no earlier line holds.
pub open spec fn merge_line_ok(lines: Seq<Seq<char>>, k: int) -> bool {
    &&& merge_fields(lines[k]) is Some
    &&& forall|j: int|
        0 <= j < k ==> !same_pair(merge_fields(#[trigger] lines[j])->0, merge_fields(lines[k])->0)
}

/// The line that holds `record`.
pub open spec fn merge_line(record: MergeTriple) -> Seq<char> {
    record.0 + seq!['\t'] + record.1 + seq!['\t'] + decimal(record.2)
}

/// Whether `a` comes before `b` when records are ordered by destination, then
/// source.
pub open spec fn pair_lt(a: MergeTriple, b: MergeTriple) -> bool {
    if a.0 != b.0 {
        lex_lt(a.0, b.0)
    } else {
        lex_lt(a.1, b.1)
    }
}

/// The largest rank in `records`.
pub open spec fn max_rank(records: Seq<MergeTriple>) -> Option<nat>
    decreases records.len(),
{
    if records.len() == 0 {
        None
    } else {
        match max_rank(records.drop_last()) {
            Some(m) => Some(if m < records.last().2 {
                records.last().2
            } else {
                m
            }),
            None => Some(records.last().2),
        }
    }
}

/// The rank that the next recorded merge gets: one more than every rank so
/// far, or 0 in an empty history.
pub open spec fn next_rank(records: Seq<MergeTriple>) -> nat {
    match max_rank(records) {
        Some(m) => m + 1,
        None => 0,
    }
}

/// `records` with `(destination, source)` remembered at `rank`.
pub open spec fn with_merge(
    records: Seq<MergeTriple>,
    destination: Seq<char>,
    source: Seq<char>,
    rank: nat,
) -> Seq<MergeTriple> {
    records.filter(other_pair(destination, source)).push((destination, source, rank))
}

/// The records that are not for the merge of `source` into `destination`.
pub open spec fn other_pair(destination: Seq<char>, source: Seq<char>) -> spec_fn(MergeTriple) -> bool {
    |r: MergeTriple| r.0 != destination || r.1 != source
}

/// Whether `a` holds the elements of `b`, in some order.
pub open spec fn is_reordering<T>(a: Seq<T>, b: Seq<T>) -> bool {
    exists|p: Seq<int>|
        is_permutation(p, b.len() as int) && a.len() == b.len() && forall|i: int|
            0 <= i < a.len() ==> #[trigger] a[i] == b[p[i]]
}

#[derive(Debug)]
struct MergeEntry {
    destination: String,
    source: String,
    rank: usize,
}

/// How recently each pair of branches was merged, destination first.
#[derive(Debug)]
pub struct MergeHistory {
    entries: Vec<MergeEntry>,
}

impl MergeEntry {
    spec fn view_triple(&self) -> MergeTriple {
        (self.destination@, self.source@, self.rank as nat)
    }
}

spec fn triples(entries: Seq<MergeEntry>) -> Seq<MergeTriple> {
    entries.map_values(|entry: MergeEntry| entry.view_triple())
}

spec fn keyed_triples(items: Seq<(SortKey, MergeEntry)>) -> Seq<MergeTriple> {
    items.map_values(|item: (SortKey, MergeEntry)| item.1.view_triple())
}

/// Whether an item is keyed by its destination, then source.
spec fn keyed_by_pair(item: (SortKey, MergeEntry)) -> bool {
    &&& item.0.group == 0
    &&& item.0.recency is None
    &&& item.0.first@ == item.1.destination@
    &&& item.0.second@ == item.1.source@
}

proof fn lemma_filter_distinct_pairs(records: Seq<MergeTriple>, f: spec_fn(MergeTriple) -> bool)
    requires
        distinct_pairs(records),
    ensures
        distinct_pairs(records.filter(f)),
        forall|i: int| 0 <= i < records.filter(f).len() ==> records.contains(#[trigger] records.filter(f)[i]),
    decreases records.len(),
{
    broadcast use vstd::seq_lib::group_filter_ensures;
    let out = records.filter(f);
    assert forall|i: int| 0 <= i < out.len() implies records.contains(#[trigger] out[i]) by {
        assert(out.contains(out[i]));
        records.lemma_filter_contains_rev(f, out[i]);
    }
    if records.len() > 0 {
        let init = records.drop_last();
        assert(distinct_pairs(init)) by {
            assert forall|i: int, j: int| 0 <= i < j < init.len() implies (#[trigger] init[i].0
                != #[trigger] init[j].0 || init[i].1 != init[j].1) by {
                assert(init[i] == records[i] && init[j] == records[j]);
            }
        }
        lemma_filter_distinct_pairs(init, f);
        assert(records =~= init.push(records.last()));
        init.lemma_filter_push(records.last(), f);
        let fi = init.filter(f);
        if f(records.last()) {
            assert(out =~= fi.push(records.last()));
            assert forall|i: int, j: int| 0 <= i < j < out.len() implies (#[trigger] out[i].0
                != #[trigger] out[j].0 || out[i].1 != out[j].1) by {
                if j == fi.len() {
                    assert(init.contains(fi[i]));
                    let m = choose|m: int| 0 <= m < init.len() && init[m] == fi[i];
                    assert(records[m] == fi[i]);
                    assert(records[records.len() - 1] == out[j]);
                } else {
                    assert(out[i] == fi[i] && out[j] == fi[j]);
                }
            }
        } else {
            assert(out =~= fi);
        }
    }
}

/// The lines of `records`, each followed by a line feed.
spec fn join_written(records: Seq<MergeTriple>) -> Seq<char>
    decreases records.len(),
{
    if records.len() == 0 {
        Seq::empty()
    } else {
        join_written(records.drop_last()) + merge_line(records.last()) + seq!['\n']
    }
}

proof fn lemma_join_written_push(records: Seq<MergeTriple>, record: MergeTriple)
    ensures
        join_written(records.push(record)) == join_written(records) + merge_line(record) + seq!['\n'],
{
    assert(records.push(record).drop_last() =~= records);
}

proof fn lemma_join_written(records: Seq<MergeTriple>)
    ensures
        join_written(records) == join_terminated(records.map_values(|r: MergeTriple| merge_line(r))),
    decreases records.len(),
{
    if records.len() > 0 {
        lemma_join_written(records.drop_last());
        lemma_join_terminated_push(
            records.drop_last().map_values(|r: MergeTriple| merge_line(r)),
            merge_line(records.last()),
        );
        assert(records.map_values(|r: MergeTriple| merge_line(r)) =~= records.drop_last().map_values(
            |r: MergeTriple| merge_line(r),
        ).push(merge_line(records.last())));
    } else {
        assert(records.map_values(|r: MergeTriple| merge_line(r)) =~= Seq::<Seq<char>>::empty());
    }
}

impl MergeHistory {
    /// The remembered merges.
    pub closed spec fn records(&self) -> Seq<MergeTriple> {
        triples(self.entries@)
    }

    /// What every history satisfies: each pair once, each rank below
    /// `usize::MAX`.
    #[verifier::type_invariant]
    spec fn well_formed(self) -> bool {
        &&& distinct_pairs(self.records())
        &&& forall|i: int| 0 <= i < self.records().len() ==> #[trigger] self.records()[i].2 < usize::MAX
    }

    /// An empty history.
    pub fn new() -> (history: MergeHistory)
        ensures
            history.records() == Seq::<MergeTriple>::empty(),
    {
        let history = MergeHistory { entries: Vec::new() };
        assert(history.records() =~= Seq::<MergeTriple>::empty());
        history
    }

    /// Reads a history file. The first line that is not a record, or that
    /// holds a pair an earlier line holds, is reported.
    pub fn parse(contents: &str) -> (result: Result<MergeHistory, InvalidRecord>)
        ensures
            ({
                let records = lines(contents@);
                match result {
                    Ok(history) => {
                        &&& forall|k: int| 0 <= k < records.len() ==> merge_line_ok(records, k)
                        &&& history.records() == records.map_values(
                            |line: Seq<char>| merge_fields(line)->0,
                        )
                    },
                    Err(error) => {
                        &&& 1 <= error.line_number <= records.len()
                        &&& !merge_line_ok(records, error.line_number - 1)
                        &&& forall|k: int| 0 <= k < error.line_number - 1 ==> merge_line_ok(records, k)
                    },
                }
            }),
    {
        let all = lines_of(&chars_of(contents));
        let ghost records = lines(contents@);
        let ghost parsed = records.map_values(|line: Seq<char>| merge_fields(line)->0);
        let mut entries: Vec<MergeEntry> = Vec::new();
        let mut k: usize = 0;
        while k < all.len()
            invariant
                records == lines(contents@),
                parsed == records.map_values(|line: Seq<char>| merge_fields(line)->0),
                views(all@) == records,
                k <= all.len(),
                triples(entries@) == parsed.take(k as int),
                forall|j: int| 0 <= j < k ==> merge_line_ok(records, j),
            decreases all.len() - k,
        {
            let line = &all[k];
            assert(line@ == records[k as int]);
            let fields = split_chars(line, '\t');
            if fields.len() != 3 || fields[0].len() == 0 || fields[1].len() == 0 {
                return Err(InvalidRecord { line_number: k + 1 });
            }
            assert(fields[0]@ == split_on(line@, '\t')[0]);
            assert(fields[1]@ == split_on(line@, '\t')[1]);
            assert(fields[2]@ == split_on(line@, '\t')[2]);
            let rank = match parse_usize_exec(&fields[2]) {
                Some(rank) => rank,
                None => {
                    return Err(InvalidRecord { line_number: k + 1 });
                },
            };
            if rank == usize::MAX {
                return Err(InvalidRecord { line_number: k + 1 });
            }
            let ghost fields_k = merge_fields(records[k as int])->0;
            assert(fields_k == (fields[0]@, fields[1]@, rank as nat));
            let mut j: usize = 0;
            assert(triples(entries@).len() == entries.len());
            while j < entries.len()
                invariant
                    records == lines(contents@),
                    parsed == records.map_values(|line: Seq<char>| merge_fields(line)->0),
                    forall|i: int| 0 <= i < k ==> merge_line_ok(records, i),
                    k < records.len(),
                    k < all.len(),
                    views(all@) == records,
                    triples(entries@) == parsed.take(k as int),
                    entries.len() == k,
                    j <= k,
                    merge_fields(records[k as int]) == Some(fields_k),
                    fields_k.0 == fields[0]@,
                    fields_k.1 == fields[1]@,
                    fields.len() == 3,
                    forall|i: int|
                        0 <= i < j ==> !same_pair(merge_fields(#[trigger] records[i])->0, fields_k),
                decreases k - j,
            {
                assert(triples(entries@)[j as int] == parsed[j as int]);
                if chars_eq(&chars_of(entries[j].destination.as_str()), &fields[0])
                    && chars_eq(&chars_of(entries[j].source.as_str()), &fields[1]) {
                    return Err(InvalidRecord { line_number: k + 1 });
                }
                j = j + 1;
            }
            let mut destination = String::new();
            push_chars(&mut destination, &fields[0]);
            let mut source = String::new();
            push_chars(&mut source, &fields[1]);
            let entry = MergeEntry { destination, source, rank };
            proof {
                assert(parsed.take(k + 1) =~= parsed.take(k as int).push(parsed[k as int]));
                assert(triples(entries@.push(entry)) =~= triples(entries@).push(entry.view_triple()));
            }
            entries.push(entry);
            k = k + 1;
        }
        proof {
            assert(parsed.take(k as int) =~= parsed);
            assert forall|i: int| 0 <= i < parsed.len() implies #[trigger] parsed[i].2 < usize::MAX by {
                assert(merge_line_ok(records, i));
            }
            assert forall|i: int, j: int| 0 <= i < j < parsed.len() implies (#[trigger] parsed[i].0
                != #[trigger] parsed[j].0 || parsed[i].1 != parsed[j].1) by {
                assert(merge_line_ok(records, j));
            }
        }
        Ok(MergeHistory { entries })
    }

    /// The history file after recording `record`: the merge gets a rank above
    /// every rank so far (0 in an empty history), replacing any earlier rank of
    /// the same pair, and the records are written one per line, ordered by
    /// destination, then source.
    pub fn record(self, record: MergeRecord) -> (contents: String)
        ensures
            exists|written: Seq<MergeTriple>|
                {
                    &&& is_reordering(
                        written,
                        with_merge(
                            self.records(),
                            record.destination_view(),
                            record.source_view(),
                            next_rank(self.records()),
                        ),
                    )
                    &&& forall|i: int, j: int|
                        0 <= i < j < written.len() ==> pair_lt(
                            #[trigger] written[i],
                            #[trigger] written[j],
                        )
                    &&& contents@ == join_terminated(
                        written.map_values(|r: MergeTriple| merge_line(r)),
                    )
                },
    {
        proof {
            use_type_invariant(&self);
        }
        let ghost records = self.records();
        let ghost d = record.destination_view();
        let ghost s = record.source_view();
        let mut max: Option<usize> = None;
        let mut i: usize = 0;
        while i < self.entries.len()
            invariant
                i <= self.entries.len(),
                records == self.records(),
                forall|m: int| 0 <= m < records.len() ==> #[trigger] records[m].2 < usize::MAX,
                match max {
                    Some(m) => max_rank(records.take(i as int)) == Some(m as nat),
                    None => max_rank(records.take(i as int)) is None,
                },
                max is None <==> i == 0,
                max matches Some(m) ==> m < usize::MAX,
            decreases self.entries.len() - i,
        {
            proof {
                assert(records.take(i + 1).drop_last() =~= records.take(i as int));
                assert(records.take(i + 1).last() == records[i as int]);
            }
            let r = self.entries[i].rank;
            max = match max {
                Some(m) => Some(if m < r { r } else { m }),
                None => Some(r),
            };
            i = i + 1;
        }
        proof {
            assert(records.take(i as int) =~= records);
        }
        let next: usize = match max {
            Some(m) => m + 1,
            None => 0,
        };
        let MergeHistory { entries } = self;
        let mut rest = entries;
        let mut items: Vec<(SortKey, MergeEntry)> = Vec::new();
        let ghost f = other_pair(d, s);
        let ghost mut taken: int = 0;
        while rest.len() > 0
            invariant
                records == triples(entries@),
                0 <= taken <= records.len(),
                triples(rest@) == records.skip(taken),
                keyed_triples(items@) == records.take(taken).filter(f),
                forall|m: int| 0 <= m < items.len() ==> keyed_by_pair(#[trigger] items@[m]),
                d == record.destination_view(),
                s == record.source_view(),
                f == other_pair(d, s),
            decreases rest.len(),
        {
            let ghost old_rest = rest@;
            let entry = rest.remove(0);
            proof {
                assert(triples(old_rest).len() == old_rest.len());
                assert(records.skip(taken).len() == records.len() - taken);
                assert(taken < records.len());
                assert(entry == old_rest[0]);
                assert(triples(old_rest)[0] == old_rest[0].view_triple());
                assert(triples(old_rest)[0] == records.skip(taken)[0]);
                assert(triples(rest@).len() == rest@.len());
                assert forall|m: int| 0 <= m < rest.len() implies #[trigger] triples(rest@)[m]
                    == records.skip(taken + 1)[m] by {
                    assert(triples(old_rest).len() == old_rest.len());
                    assert(rest@[m] == old_rest[m + 1]);
                    assert(triples(rest@)[m] == rest@[m].view_triple());
                    assert(triples(old_rest)[m + 1] == old_rest[m + 1].view_triple());
                    assert(triples(old_rest)[m + 1] == records.skip(taken)[m + 1]);
                    assert(records.skip(taken)[m + 1] == records[taken + m + 1]);
                    assert(records.skip(taken + 1)[m] == records[taken + 1 + m]);
                }
                assert(triples(rest@) =~= records.skip(taken + 1));
                assert(entry.view_triple() == records[taken]);
                assert(records.take(taken + 1) =~= records.take(taken).push(records[taken]));
                records.take(taken).lemma_filter_push(records[taken], f);
            }
            if str_eq(entry.destination.as_str(), record.destination.as_str()) && str_eq(
                entry.source.as_str(),
                record.source.as_str(),
            ) {
            } else {
                let key = SortKey {
                    group: 0,
                    recency: None,
                    first: chars_of(entry.destination.as_str()),
                    second: chars_of(entry.source.as_str()),
                };
                let item = (key, entry);
                proof {
                    assert(keyed_triples(items@.push(item)) =~= keyed_triples(items@).push(
                        entry.view_triple(),
                    ));
                }
                items.push(item);
            }
            proof {
                taken = taken + 1;
            }
        }
        let MergeRecord { destination, source } = record;
        let key = SortKey {
            group: 0,
            recency: None,
            first: chars_of(destination.as_str()),
            second: chars_of(source.as_str()),
        };
        let added = MergeEntry { destination, source, rank: next };
        let ghost updated = with_merge(records, d, s, next_rank(records));
        proof {
            assert(records.take(taken) =~= records);
            assert(keyed_triples(items@.push((key, added))) =~= keyed_triples(items@).push(
                added.view_triple(),
            ));
        }
        items.push((key, added));
        let ghost unsorted = items@;
        proof {
            assert(keyed_triples(unsorted) == updated);
            lemma_filter_distinct_pairs(records, f);
            broadcast use vstd::seq_lib::group_filter_ensures;
            let kept = records.filter(f);
            assert forall|m: int, n: int| 0 <= m < n < updated.len() implies (
            #[trigger] updated[m].0 != #[trigger] updated[n].0 || updated[m].1 != updated[n].1) by {
                if n == kept.len() {
                    assert(f(kept[m]));
                } else {
                    assert(updated[m] == kept[m] && updated[n] == kept[n]);
                }
            }
        }
        let sorted = stable_sort(items);
        let ghost p = choose|p: Seq<int>| is_stable_sort_by(sorted@, unsorted, p);
        let ghost written = keyed_triples(sorted@);
        proof {
            assert forall|m: int| 0 <= m < written.len() implies #[trigger] written[m]
                == updated[p[m]] by {
                assert(sorted@[m] == unsorted[p[m]]);
            }
            assert forall|m: int| 0 <= m < sorted@.len() implies keyed_by_pair(
                #[trigger] sorted@[m],
            ) by {
                assert(sorted@[m] == unsorted[p[m]]);
            }
            assert forall|m: int, n: int| 0 <= m < n < written.len() implies pair_lt(
                #[trigger] written[m],
                #[trigger] written[n],
            ) by {
                assert(!key_lt(sorted@[n].0, sorted@[m].0));
                lemma_key_total(sorted@[m].0, sorted@[n].0);
                assert(keyed_by_pair(sorted@[m]) && keyed_by_pair(sorted@[n]));
                if key_eq(sorted@[m].0, sorted@[n].0) {
                    assert(p[m] != p[n]);
                    if p[m] < p[n] {
                        assert(updated[p[m]].0 != updated[p[n]].0 || updated[p[m]].1 != updated[p[n]].1);
                    } else {
                        assert(updated[p[n]].0 != updated[p[m]].0 || updated[p[n]].1 != updated[p[m]].1);
                    }
                }
            }
        }
        let mut contents = String::new();
        let mut k: usize = 0;
        while k < sorted.len()
            invariant
                k <= sorted.len(),
                written == keyed_triples(sorted@),
                contents@ == join_written(written.take(k as int)),
            decreases sorted.len() - k,
        {
            let entry = &sorted[k].1;
            let mut line: Vec<char> = chars_of(entry.destination.as_str());
            line.push('\t');
            let source = chars_of(entry.source.as_str());
            let mut m: usize = 0;
            while m < source.len()
                invariant
                    m <= source.len(),
                    line@ == entry.destination@ + seq!['\t'] + source@.take(m as int),
                decreases source.len() - m,
            {
                line.push(source[m]);
                m = m + 1;
                proof {
                    assert(source@.take(m as int) =~= source@.take(m - 1).push(source@[m - 1]));
                }
            }
            line.push('\t');
            push_chars(&mut contents, &line);
            push_decimal(&mut contents, entry.rank);
            let newline: Vec<char> = vec!['\n'];
            push_chars(&mut contents, &newline);
            proof {
                assert(source@.take(m as int) =~= source@);
                assert(written.take(k + 1) =~= written.take(k as int).push(written[k as int]));
                lemma_join_written_push(written.take(k as int), written[k as int]);
            }
            k = k + 1;
        }
        proof {
            assert(written.take(k as int) =~= written);
            lemma_join_written(written);
            assert(is_reordering(written, updated)) by {
                assert(is_permutation(p, updated.len() as int));
            }
        }
        contents
    }

    /// The rank of the merge of `source` into `destination`; a higher rank is
    /// a more recent merge.
    pub fn rank(&self, destination: &str, source: &str) -> (rank: Option<usize>)
        ensures
            match rank {
                Some(r) => rank_in(self.records(), destination@, source@) == Some(r as nat),
                None => rank_in(self.records(), destination@, source@) is None,
            },
    {
        let mut i: usize = 0;
        assert(self.records().skip(0) =~= self.records());
        while i < self.entries.len()
            invariant
                i <= self.entries.len(),
                rank_in(self.records(), destination@, source@) == rank_in(
                    self.records().skip(i as int),
                    destination@,
                    source@,
                ),
            decreases self.entries.len() - i,
        {
            let ghost rest = self.records().skip(i as int);
            assert(rest[0] == self.entries@[i as int].view_triple());
            assert(rest.drop_first() =~= self.records().skip(i + 1));
            if str_eq(self.entries[i].destination.as_str(), destination) && str_eq(
                self.entries[i].source.as_str(),
                source,
            ) {
                return Some(self.entries[i].rank);
            }
            i = i + 1;
        }
        None
    }
}


/// What `record` writes reads back: every line of the file holds a record of
/// a pair no earlier line holds, and reading gives the records written, in
/// order. (The largest rank, `usize::MAX`, is refused when read; names with a
/// tab or line feed would not read back.)
pub proof fn merge_history_round_trip(written: Seq<MergeTriple>)
    requires
        distinct_pairs(written),
        forall|i: int|
            0 <= i < written.len() ==> is_field(#[trigger] written[i].0) && is_field(written[i].1)
                && written[i].2 < usize::MAX,
    ensures
        ({
            let records = lines(join_terminated(written.map_values(|record: MergeTriple| merge_line(record))));
            &&& forall|k: int| 0 <= k < records.len() ==> merge_line_ok(records, k)
            &&& records.map_values(|line: Seq<char>| merge_fields(line)->0) == written
        }),
{
    let written_lines = written.map_values(|record: MergeTriple| merge_line(record));
    assert forall|i: int| 0 <= i < written_lines.len() implies merge_fields(#[trigger] written_lines[i])
        == Some(written[i]) && is_line_record(written_lines[i]) by {
        let r = written[i];
        let digits = decimal(r.2);
        lemma_decimal_parses(r.2);
        lemma_decimal_digits(r.2);
        let line = merge_line(r);
        assert(line == written_lines[i]);
        assert(line =~= r.0 + seq!['\t'] + (r.1 + seq!['\t'] + digits));
        lemma_split_first_field(r.0, r.1 + seq!['\t'] + digits);
        lemma_split_two_fields(r.1, digits);
        assert(split_on(line, '\t') =~= seq![r.0, r.1, digits]);
        assert(!has_char(line, '\n')) by {
            if has_char(line, '\n') {
                let k = choose|k: int| 0 <= k < line.len() && line[k] == '\n';
                if k < r.0.len() {
                    assert(line[k] == r.0[k]);
                } else if r.0.len() < k < r.0.len() + 1 + r.1.len() {
                    assert(line[k] == r.1[k - r.0.len() - 1]);
                } else if k > r.0.len() + 1 + r.1.len() {
                    assert(line[k] == digits[k - r.0.len() - 2 - r.1.len()]);
                    assert(is_digit(digits[k - r.0.len() - 2 - r.1.len()]));
                }
            }
        }
        assert(line.last() == digits.last());
        assert(is_digit(digits[digits.len() - 1]));
    }
    lemma_lines_of_terminated(written_lines);
    let records = lines(join_terminated(written_lines));
    assert(records == written_lines);
    assert(records.map_values(|line: Seq<char>| merge_fields(line)->0) =~= written);
    assert forall|k: int| 0 <= k < records.len() implies merge_line_ok(records, k) by {
        assert(merge_fields(records[k]) == Some(written[k]));
        assert forall|j: int| 0 <= j < k implies !same_pair(
            merge_fields(#[trigger] records[j])->0,
            merge_fields(records[k])->0,
        ) by {
            assert(merge_fields(records[j]) == Some(written[j]));
        }
    }
}

/// In a history where no pair occurs twice, the rank of a pair is the rank of
/// the record that holds it, and there is none when no record does.
proof fn lemma_rank_in_contains(records: Seq<MergeTriple>, destination: Seq<char>, source: Seq<char>)
    ensures
        distinct_pairs(records) ==> forall|rank: nat|
            #![trigger records.contains((destination, source, rank))]
            (rank_in(records, destination, source) == Some(rank)) == records.contains((destination, source, rank)),
        (rank_in(records, destination, source) is None) == forall|rank: nat|
            !#[trigger] records.contains((destination, source, rank)),
    decreases records.len(),
{
    if records.len() > 0 {
        let rest = records.drop_first();
        lemma_rank_in_contains(rest, destination, source);
        assert(distinct_pairs(records) ==> distinct_pairs(rest)) by {
            if distinct_pairs(records) {
                assert forall|i: int, j: int| 0 <= i < j < rest.len() implies (#[trigger] rest[i].0
                    != #[trigger] rest[j].0 || rest[i].1 != rest[j].1) by {
                    assert(rest[i] == records[i + 1] && rest[j] == records[j + 1]);
                }
            }
        }
        let first_pair = records[0].0 == destination && records[0].1 == source;
        assert forall|rank: nat| #[trigger] records.contains((destination, source, rank)) implies (first_pair
            && records[0].2 == rank) || rest.contains((destination, source, rank)) by {
            let i = choose|i: int| 0 <= i < records.len() && records[i] == (destination, source, rank);
            if i > 0 {
                assert(rest[i - 1] == records[i]);
            }
        }
        assert forall|rank: nat| #[trigger] rest.contains((destination, source, rank)) implies records.contains(
            (destination, source, rank),
        ) && (distinct_pairs(records) ==> !first_pair) by {
            let i = choose|i: int| 0 <= i < rest.len() && rest[i] == (destination, source, rank);
            assert(records[i + 1] == rest[i]);
            if distinct_pairs(records) {
                assert(records[0].0 != records[i + 1].0 || records[0].1 != records[i + 1].1);
            }
        }
        if first_pair {
            assert(records.contains((destination, source, records[0].2)));
        }
    }
}

/// No rank of `records` exceeds their largest rank.
proof fn lemma_max_rank_bounds(records: Seq<MergeTriple>)
    ensures
        records.len() > 0 ==> max_rank(records) is Some,
        forall|i: int| 0 <= i < records.len() ==> #[trigger] records[i].2 <= max_rank(records)->0,
    decreases records.len(),
{
    if records.len() > 0 {
        let init = records.drop_last();
        lemma_max_rank_bounds(init);
        assert forall|i: int| 0 <= i < records.len() implies #[trigger] records[i].2 <= max_rank(records)->0 by {
            if i < init.len() {
                assert(records[i] == init[i]);
            }
        }
    }
}

/// What `record` writes reads back with the recorded merge as the most
/// recent: reading the file succeeds, the recorded pair gets one more than
/// every earlier rank, every other pair keeps its rank, and no other pair
/// ranks as high. (A history whose largest rank is `usize::MAX - 1` would
/// write `usize::MAX`, which reading refuses; names with a tab or line feed
/// would not read back.)
pub proof fn law_recorded_merge_reads_back_highest(
    history: MergeHistory,
    record: MergeRecord,
    contents: Seq<char>,
)
    requires
        distinct_pairs(history.records()),
        forall|i: int|
            0 <= i < history.records().len() ==> is_field(#[trigger] history.records()[i].0) && is_field(
                history.records()[i].1,
            ) && history.records()[i].2 < usize::MAX,
        is_field(record.destination_view()),
        is_field(record.source_view()),
        next_rank(history.records()) < usize::MAX,
        exists|written: Seq<MergeTriple>|
            is_reordering(
                written,
                with_merge(
                    history.records(),
                    record.destination_view(),
                    record.source_view(),
                    next_rank(history.records()),
                ),
            ) && contents == join_terminated(written.map_values(|r: MergeTriple| merge_line(r))),
    ensures
        ({
            let read = lines(contents);
            let back = read.map_values(|line: Seq<char>| merge_fields(line)->0);
            let d = record.destination_view();
            let s = record.source_view();
            &&& forall|k: int| 0 <= k < read.len() ==> merge_line_ok(read, k)
            &&& rank_in(back, d, s) == Some(next_rank(history.records()))
            &&& forall|d2: Seq<char>, s2: Seq<char>|
                !(d2 == d && s2 == s) ==> #[trigger] rank_in(back, d2, s2) == rank_in(history.records(), d2, s2)
            &&& forall|d2: Seq<char>, s2: Seq<char>|
                !(d2 == d && s2 == s) ==> (#[trigger] rank_in(back, d2, s2) matches Some(r) ==> r
                    < next_rank(history.records()))
        }),
{
    broadcast use vstd::seq_lib::group_filter_ensures;
    let records = history.records();
    let d = record.destination_view();
    let s = record.source_view();
    let n = next_rank(records);
    let f = other_pair(d, s);
    let kept = records.filter(f);
    let updated = with_merge(records, d, s, n);
    let written = choose|written: Seq<MergeTriple>|
        is_reordering(written, updated) && contents == join_terminated(
            written.map_values(|r: MergeTriple| merge_line(r)),
        );
    let p = choose|p: Seq<int>|
        is_permutation(p, updated.len() as int) && written.len() == updated.len() && forall|i: int|
            0 <= i < written.len() ==> #[trigger] written[i] == updated[p[i]];
    lemma_filter_distinct_pairs(records, f);
    assert(distinct_pairs(updated)) by {
        assert forall|m: int, k: int| 0 <= m < k < updated.len() implies (#[trigger] updated[m].0
            != #[trigger] updated[k].0 || updated[m].1 != updated[k].1) by {
            if k == kept.len() {
                assert(f(kept[m]));
            } else {
                assert(updated[m] == kept[m] && updated[k] == kept[k]);
            }
        }
    }
    assert forall|t: MergeTriple| #[trigger] written.contains(t) == updated.contains(t) by {
        if written.contains(t) {
            let i = choose|i: int| 0 <= i < written.len() && written[i] == t;
            assert(updated[p[i]] == t);
        }
        if updated.contains(t) {
            let j = choose|j: int| 0 <= j < updated.len() && updated[j] == t;
            crate::order::lemma_permutation_onto(p, updated.len() as int, j);
            let i = choose|i: int| 0 <= i < updated.len() && p[i] == j;
            assert(written[i] == t);
        }
    }
    assert forall|t: MergeTriple| #[trigger] updated.contains(t) == (t == (d, s, n) || (records.contains(t)
        && f(t))) by {
        if updated.contains(t) && t != (d, s, n) {
            let j = choose|j: int| 0 <= j < updated.len() && updated[j] == t;
            assert(j < kept.len());
            assert(updated[j] == kept[j]);
            assert(kept.contains(t));
        }
        if records.contains(t) && f(t) {
            let j = choose|j: int| 0 <= j < records.len() && records[j] == t;
            assert(kept.contains(t));
            let k = choose|k: int| 0 <= k < kept.len() && kept[k] == t;
            assert(updated[k] == t);
        }
        if t == (d, s, n) {
            assert(updated[updated.len() - 1] == t);
        }
    }
    assert(distinct_pairs(written)) by {
        assert forall|i: int, j: int| 0 <= i < j < written.len() implies (#[trigger] written[i].0
            != #[trigger] written[j].0 || written[i].1 != written[j].1) by {
            assert(p[i] != p[j]);
            if p[i] < p[j] {
                assert(updated[p[i]].0 != updated[p[j]].0 || updated[p[i]].1 != updated[p[j]].1);
            } else {
                assert(updated[p[j]].0 != updated[p[i]].0 || updated[p[j]].1 != updated[p[i]].1);
            }
        }
    }
    assert forall|i: int| 0 <= i < written.len() implies is_field(#[trigger] written[i].0) && is_field(
        written[i].1,
    ) && written[i].2 < usize::MAX by {
        assert(written.contains(written[i]));
        if written[i] != (d, s, n) {
            let j = choose|j: int| 0 <= j < records.len() && records[j] == written[i];
            assert(is_field(records[j].0));
        }
    }
    merge_history_round_trip(written);
    let back = lines(contents).map_values(|line: Seq<char>| merge_fields(line)->0);
    assert(back == written);
    lemma_rank_in_contains(written, d, s);
    assert(written.contains((d, s, n)));
    lemma_max_rank_bounds(records);
    assert forall|d2: Seq<char>, s2: Seq<char>| !(d2 == d && s2 == s) implies #[trigger] rank_in(back, d2, s2)
        == rank_in(records, d2, s2) && (rank_in(back, d2, s2) matches Some(r) ==> r < n) by {
        lemma_rank_in_contains(written, d2, s2);
        lemma_rank_in_contains(records, d2, s2);
        assert(f((d2, s2, 0nat)));
        assert forall|r: nat| #[trigger] written.contains((d2, s2, r)) == records.contains((d2, s2, r)) by {
            assert(f((d2, s2, r)));
        }
        match rank_in(back, d2, s2) {
            Some(r) => {
                assert(written.contains((d2, s2, r)));
                assert(records.contains((d2, s2, r)));
                assert(rank_in(records, d2, s2) == Some(r));
                let j = choose|j: int| 0 <= j < records.len() && records[j] == (d2, s2, r);
                assert(records[j].2 <= max_rank(records)->0);
                assert(r < n);
            },
            None => {
                match rank_in(records, d2, s2) {
                    Some(r) => {
                        assert(records.contains((d2, s2, r)));
                        assert(written.contains((d2, s2, r)));
                    },
                    None => {},
                }
            },
        }
    }
}

} // verus!
