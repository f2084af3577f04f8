//! The search bar: the text typed so far, and which branch names it finds.

use vstd::prelude::*;
use vstd::string::{StrSliceExecFns, StringSliceAdditionalSpecFns};

use regex::RegexBuilder;
use tui_input::{Input, InputRequest};

use crate::text::{chars_of, push_chars, push_str, slice_chars};

verus! {

#[verifier::external_type_specification]
#[verifier::external_body]
pub struct ExInput(Input);

#[verifier::external_type_specification]
#[verifier::external_body]
pub struct ExInputRequest(InputRequest);

/// An editing request for the search bar, one for each request that
/// `tui_input` knows.
#[derive(Clone, Copy, Debug, PartialEq, Eq, Structural)]
pub enum EditRequest {
    SetCursor(usize),
    InsertChar(char),
    GoToPrevChar,
    GoToNextChar,
    GoToPrevWord,
    GoToNextWord,
    GoToStart,
    GoToEnd,
    DeletePrevChar,
    DeleteNextChar,
    DeletePrevWord,
    DeleteNextWord,
    DeleteLine,
    DeleteTillEnd,
    DeleteFromStart,
    Yank,
}

/// What `Input::handle` of `tui_input` makes of an input that holds `text`,
/// with the cursor after `cursor` characters and nothing cut before: the new
/// text, the new cursor and whether it reports the text as changed.
pub uninterp spec fn edited(text: Seq<char>, cursor: usize, request: EditRequest) -> (Seq<char>, usize, bool);

/// What `Input::handle` of `tui_input` makes of the requests that do not go
/// by graphemes or words, on an input that holds `text`, with the cursor after
/// `cursor` characters (at most all of them) and nothing cut before: the new
/// text, the new cursor and whether it reports the text as changed. `None`
/// for the other requests.
pub open spec fn plain_edit(text: Seq<char>, cursor: usize, request: EditRequest) -> Option<(Seq<char>, usize, bool)> {
    let end = text.len() as usize;
    let at = if cursor < text.len() {
        cursor
    } else {
        end
    };
    match request {
        EditRequest::SetCursor(position) => Some(
            (
                text,
                if position < text.len() {
                    position
                } else {
                    end
                },
                false,
            ),
        ),
        EditRequest::InsertChar(c) => Some((text.take(at as int).push(c) + text.skip(at as int), (at + 1) as usize, true)),
        EditRequest::GoToStart => Some((text, 0, false)),
        EditRequest::GoToEnd => Some((text, end, false)),
        EditRequest::DeleteLine => Some((Seq::empty(), 0, text.len() > 0)),
        EditRequest::DeleteTillEnd => Some((text.take(at as int), at, true)),
        EditRequest::DeleteFromStart => if at == 0 {
            Some((text, 0, false))
        } else {
            Some((text.skip(at as int), 0, true))
        },
        EditRequest::Yank => Some((text, at, false)),
        _ => None,
    }
}

/// What `Yank` makes of `text` with the cursor after `cursor` characters
/// (at most all of them) when `cut` was cut last: `cut` inserted at the
/// cursor, the cursor after it, and a change when `cut` is not empty.
pub open spec fn yanked(text: Seq<char>, cursor: usize, cut: Seq<char>) -> (Seq<char>, usize, bool) {
    let at = if cursor < text.len() {
        cursor
    } else {
        text.len() as usize
    };
    if cut.len() == 0 {
        (text, at, false)
    } else {
        (text.take(at as int) + cut + text.skip(at as int), (at + cut.len()) as usize, true)
    }
}

/// Whether `outcome` (text, cursor, change) can come of `request` on `text`
/// with the cursor after `cursor` characters: what `edit_result` gives, or,
/// for `Yank`, what was last cut inserted at the cursor, whatever it was.
pub open spec fn edit_outcome(
    text: Seq<char>,
    cursor: usize,
    request: EditRequest,
    outcome: (Seq<char>, usize, bool),
) -> bool {
    if request == EditRequest::Yank {
        exists|cut: Seq<char>| #[trigger] yanked(text, cursor, cut) == outcome
    } else {
        outcome == edit_result(text, cursor, request)
    }
}

/// What an edit of the search bar's text and cursor gives: as `plain_edit`
/// states, or else as `edited` names it.
pub open spec fn edit_result(text: Seq<char>, cursor: usize, request: EditRequest) -> (Seq<char>, usize, bool) {
    match plain_edit(text, cursor, request) {
        Some(result) => result,
        None => edited(text, cursor, request),
    }
}

/// Where the cursor of an input that holds `text` stands when it is set after
/// `cursor` characters: at most after all of them.
pub open spec fn cursor_at(text: Seq<char>, cursor: usize) -> usize {
    if cursor < text.len() {
        cursor
    } else {
        text.len() as usize
    }
}

/// How a deletion by words leaves `text`, whose cursor is after `cursor`
/// characters, as `after` with the cursor after `after_cursor` characters:
/// `DeletePrevWord` removes the characters from the new cursor up to the old
/// one, which it does when the cursor is not at the start; `DeleteNextWord`
/// removes characters after the cursor, which stays, when the cursor is not
/// at the end.
pub open spec fn word_deletion(
    text: Seq<char>,
    cursor: usize,
    request: EditRequest,
    after: (Seq<char>, usize, bool),
) -> bool {
    let at = cursor_at(text, cursor);
    match request {
        EditRequest::DeletePrevWord => {
            &&& after.1 <= at
            &&& after.0 == text.take(after.1 as int) + text.skip(at as int)
            &&& after.2 == (at > 0)
        },
        EditRequest::DeleteNextWord => {
            &&& after.1 == at
            &&& at <= after.0.len() <= text.len()
            &&& after.0 == text.take(at as int) + text.skip(at + text.len() - after.0.len())
            &&& after.2 == (at < text.len())
        },
        _ => true,
    }
}

/// Whether `request` is one that a following cut joins: the cuts that
/// `tui_input` puts together in what `Yank` inserts.
pub open spec fn joins_cuts(request: EditRequest) -> bool {
    request == EditRequest::DeleteLine || request == EditRequest::DeletePrevWord || request
        == EditRequest::DeleteNextWord || request == EditRequest::DeleteTillEnd
}

/// The text that `request` removes from `text`, whose cursor is after
/// `cursor` characters, leaving `after` with the cursor after
/// `after_cursor`, and whether it was removed before the cursor; `None` when
/// the request removes nothing to keep.
pub open spec fn removed_text(
    text: Seq<char>,
    cursor: usize,
    request: EditRequest,
    after: Seq<char>,
    after_cursor: usize,
) -> Option<(Seq<char>, bool)> {
    let at = cursor_at(text, cursor);
    match request {
        EditRequest::DeleteLine => if text.len() == 0 {
            None
        } else {
            Some((text, at == text.len()))
        },
        EditRequest::DeletePrevWord => if at == 0 {
            None
        } else {
            Some((text.subrange(after_cursor as int, at as int), true))
        },
        EditRequest::DeleteNextWord => if at == text.len() {
            None
        } else {
            Some((text.subrange(at as int, at + text.len() - after.len()), false))
        },
        EditRequest::DeleteTillEnd => Some((text.skip(at as int), false)),
        EditRequest::DeleteFromStart => if at == 0 {
            None
        } else {
            Some((text.take(at as int), true))
        },
        _ => None,
    }
}

/// What is kept for `Yank` after `removed` was cut, when `cut` was kept
/// before: right after a cut that joins, the new text goes before the kept
/// one when it was removed before the cursor and after it otherwise; else
/// it replaces it.
pub open spec fn kept_cut(cut: Seq<char>, joined: bool, removed: Option<(Seq<char>, bool)>) -> Seq<char> {
    match removed {
        Some((text, before)) => if !joined {
            text
        } else if before {
            text + cut
        } else {
            cut + text
        },
        None => cut,
    }
}

/// `after` is `before` after `request` changed (or did not change) the text
/// as `changed` says: the text and cursor follow `edit_result`, or for
/// `Yank` the kept cut is inserted at the cursor; the text that a request
/// cuts is kept for `Yank`, and whether the next cut joins it.
pub open spec fn edits_into(before: Search, request: EditRequest, after: Search, changed: bool) -> bool {
    let outcome = (after.query_view(), after.cursor_view(), changed);
    &&& if request == EditRequest::Yank {
        &&& outcome == yanked(before.query_view(), before.cursor_view(), before.cut_view())
        &&& after.cut_view() == before.cut_view()
    } else {
        &&& outcome == edit_result(before.query_view(), before.cursor_view(), request)
        &&& word_deletion(before.query_view(), before.cursor_view(), request, outcome)
        &&& after.cut_view() == kept_cut(
            before.cut_view(),
            before.joined_view(),
            removed_text(before.query_view(), before.cursor_view(), request, after.query_view(), after.cursor_view()),
        )
    }
    &&& after.joined_view() == joins_cuts(request)
}

/// Whether `RegexBuilder::build` of `regex` accepts the escaped `query` with
/// case-insensitive matching; it refuses an expression over its size limits.
pub uninterp spec fn compiles(query: Seq<char>) -> bool;

/// Whether `name` contains `query` as literal text, ignoring case, as a
/// case-insensitive `regex` for the escaped query finds it.
pub uninterp spec fn contains_ignoring_case(query: Seq<char>, name: Seq<char>) -> bool;

/// The byte ranges, start and end, of the matches that `Regex::find_iter` of
/// `regex` yields in `name` for the escaped `query`, case-insensitive.
pub uninterp spec fn found_ranges(query: Seq<char>, name: Seq<char>) -> Seq<(usize, usize)>;

/// Whether the search for `query` finds `name`: an empty search finds
/// nothing, and neither does one too large for the regular expression
/// builder.
pub open spec fn search_matches(query: Seq<char>, name: Seq<char>) -> bool {
    query.len() > 0 && compiles(query) && contains_ignoring_case(query, name)
}

/// The byte ranges of `name` that the search for `query` finds.
pub open spec fn search_ranges(query: Seq<char>, name: Seq<char>) -> Seq<(usize, usize)> {
    if query.len() > 0 && compiles(query) {
        found_ranges(query, name)
    } else {
        Seq::empty()
    }
}

/// The pieces, by byte range, that a name of `len` bytes is drawn in from
/// byte `from` on, given the matched `ranges`: before each range the text not
/// drawn yet, then the range itself marked as matched, and at the end what
/// is left.
pub open spec fn segments_from(ranges: Seq<(usize, usize)>, from: usize, len: usize) -> Seq<(usize, usize, bool)>
    decreases ranges.len(),
{
    if ranges.len() == 0 {
        if from < len {
            seq![(from, len, false)]
        } else {
            Seq::empty()
        }
    } else {
        let range = ranges[0];
        let gap: Seq<(usize, usize, bool)> = if from < range.0 {
            seq![(from, range.0, false)]
        } else {
            Seq::empty()
        };
        gap.push((range.0, range.1, true)) + segments_from(ranges.drop_first(), range.1, len)
    }
}

/// The pieces, by byte range, that a name of `len` bytes is drawn in, the
/// `ranges` marked as matched.
pub fn name_segments(len: usize, ranges: &Vec<(usize, usize)>) -> (segments: Vec<(usize, usize, bool)>)
    ensures
        segments@ == segments_from(ranges@, 0, len),
{
    let mut segments: Vec<(usize, usize, bool)> = Vec::new();
    let mut position: usize = 0;
    let mut i: usize = 0;
    assert(ranges@.subrange(0, ranges@.len() as int) =~= ranges@);
    assert(segments@ + segments_from(ranges@, 0, len) =~= segments_from(ranges@, 0, len));
    while i < ranges.len()
        invariant
            i <= ranges.len(),
            segments@ + segments_from(ranges@.subrange(i as int, ranges@.len() as int), position, len)
                == segments_from(ranges@, 0, len),
        decreases ranges.len() - i,
    {
        let ghost rest = ranges@.subrange(i as int, ranges@.len() as int);
        let ghost before = segments@;
        let (start, end) = ranges[i];
        if position < start {
            segments.push((position, start, false));
        }
        segments.push((start, end, true));
        proof {
            assert(rest[0] == (start, end));
            assert(rest.drop_first() =~= ranges@.subrange(i + 1, ranges@.len() as int));
            let gap: Seq<(usize, usize, bool)> = if position < start {
                seq![(position, start, false)]
            } else {
                Seq::empty()
            };
            assert(segments@ =~= before + gap.push((start, end, true)));
            assert(segments_from(rest, position, len) == gap.push((start, end, true)) + segments_from(
                rest.drop_first(),
                end,
                len,
            ));
            assert(before + (gap.push((start, end, true)) + segments_from(rest.drop_first(), end, len))
                =~= segments@ + segments_from(rest.drop_first(), end, len));
        }
        position = end;
        i = i + 1;
    }
    let ghost before = segments@;
    if position < len {
        segments.push((position, len, false));
    }
    proof {
        assert(ranges@.subrange(i as int, ranges@.len() as int) =~= Seq::<(usize, usize)>::empty());
        if position < len {
            assert(segments@ =~= before + seq![(position, len, false)]);
        } else {
            assert(segments@ =~= before + Seq::<(usize, usize, bool)>::empty());
        }
    }
    segments
}

/// The request of `tui_input` that `request` stands for, variant by variant.
#[verifier::external_body]
fn input_request(request: EditRequest) -> InputRequest {
    match request {
        EditRequest::SetCursor(n) => InputRequest::SetCursor(n), EditRequest::InsertChar(c) => InputRequest::InsertChar(c),
        EditRequest::GoToPrevChar => InputRequest::GoToPrevChar, EditRequest::GoToNextChar => InputRequest::GoToNextChar,
        EditRequest::GoToPrevWord => InputRequest::GoToPrevWord, EditRequest::GoToNextWord => InputRequest::GoToNextWord,
        EditRequest::GoToStart => InputRequest::GoToStart, EditRequest::GoToEnd => InputRequest::GoToEnd,
        EditRequest::DeletePrevChar => InputRequest::DeletePrevChar, EditRequest::DeleteNextChar => InputRequest::DeleteNextChar,
        EditRequest::DeletePrevWord => InputRequest::DeletePrevWord, EditRequest::DeleteNextWord => InputRequest::DeleteNextWord,
        EditRequest::DeleteLine => InputRequest::DeleteLine, EditRequest::DeleteTillEnd => InputRequest::DeleteTillEnd,
        EditRequest::DeleteFromStart => InputRequest::DeleteFromStart, EditRequest::Yank => InputRequest::Yank,
    }
}

/// `Input::handle` of `tui_input`, on an input built by `Input::new(text)`
/// and `with_cursor(cursor)`: the new text, the new cursor and whether the
/// text changed, which is `edited`. For the requests that do not go by
/// graphemes or words, the source gives what `plain_edit` states; a deletion
/// by words removes what `word_deletion` states, where only the word
/// boundary is left to the source; where it reports no change, it leaves the
/// text as it was.
#[verifier::external_body]
fn edit_text(text: &str, cursor: usize, request: EditRequest) -> (edit: (String, usize, bool))
    ensures
        edit.0@ == edited(text@, cursor, request).0,
        edit.1 == edited(text@, cursor, request).1,
        edit.2 == edited(text@, cursor, request).2,
        plain_edit(text@, cursor, request) matches Some(plain) ==> (edit.0@, edit.1, edit.2) == plain,
        !edit.2 ==> edit.0@ == text@,
        word_deletion(text@, cursor, request, (edit.0@, edit.1, edit.2)),
{
    let mut input = Input::new(text.to_owned()).with_cursor(cursor);
    let changed = input.handle(input_request(request)).is_some_and(|change| change.value);
    (input.value().to_owned(), input.cursor(), changed)
}

/// `Input::handle` of `tui_input`: applies `request` to the input and returns
/// whether the text changed. The input is opaque here.
#[verifier::external_body]
fn handle_request(input: &mut Input, request: InputRequest) -> (value_changed: bool) {
    match input.handle(request) {
        Some(change) => change.value,
        None => false,
    }
}

/// `Input::handle` of `tui_input` with `Yank`, on an input that holds
/// `text` with the cursor after `cursor` characters and keeps `cut` as what
/// was cut last (an input holding `cut` that handled `DeleteLine`, then set
/// by `with_value(text)` and `with_cursor(cursor)`, which keep it): the new
/// text, cursor and whether the text changed; `input` becomes that input.
#[verifier::external_body]
fn yank_into(input: &mut Input, text: &str, cursor: usize, cut: &str) -> (edit: (String, usize, bool))
    ensures
        exists|cut: Seq<char>| #[trigger] yanked(text@, cursor, cut) == (edit.0@, edit.1, edit.2),
        (edit.0@, edit.1, edit.2) == yanked(text@, cursor, cut@),
{
    let mut holder = Input::new(cut.to_owned());
    holder.handle(InputRequest::DeleteLine);
    let mut next = holder.with_value(text.to_owned()).with_cursor(cursor);
    let changed = next.handle(InputRequest::Yank).is_some_and(|change| change.value);
    let edit = (next.value().to_owned(), next.cursor(), changed);
    *input = next;
    edit
}

/// What `deleted`, cut before the cursor when `before` holds, makes of the
/// kept `cut`.
fn join_cut(cut: &String, joined: bool, deleted: &Vec<char>, before: bool) -> (next: String)
    ensures
        next@ == kept_cut(cut@, joined, Some((deleted@, before))),
{
    let mut next = String::new();
    if !joined {
        push_chars(&mut next, deleted);
    } else if before {
        push_chars(&mut next, deleted);
        push_str(&mut next, cut.as_str());
    } else {
        push_str(&mut next, cut.as_str());
        push_chars(&mut next, deleted);
    }
    next
}

/// `Input::new` of `tui_input`: an input holding `value`, with the cursor
/// after its last character. The input is opaque here.
#[verifier::external_body]
fn new_input(value: String) -> Input {
    Input::new(value)
}

/// `Regex::is_match` of `regex`, on a regular expression built with
/// `RegexBuilder` from `regex::escape(query)`, case-insensitive: whether
/// `name` contains `query` ignoring case. `None` where the builder refuses
/// the expression.
#[verifier::external_body]
fn regex_matches(query: &str, name: &str) -> (found: Option<bool>)
    ensures
        found is Some == compiles(query@),
        match found {
            Some(found) => found == contains_ignoring_case(query@, name@),
            None => true,
        },
{
    match RegexBuilder::new(&regex::escape(query)).case_insensitive(true).build() {
        Ok(matcher) => Some(matcher.is_match(name)),
        Err(_) => None,
    }
}

/// `Regex::find_iter` of `regex`, on the same regular expression as
/// `regex_matches`: the byte range of each match in `name`, in the order
/// found. `None` where the builder refuses the expression.
#[verifier::external_body]
fn regex_ranges(query: &str, name: &str) -> (ranges: Option<Vec<(usize, usize)>>)
    ensures
        ranges is Some == compiles(query@),
        match ranges {
            Some(ranges) => ranges@ == found_ranges(query@, name@),
            None => true,
        },
{
    match RegexBuilder::new(&regex::escape(query)).case_insensitive(true).build() {
        Ok(matcher) => Some(matcher.find_iter(name).map(|found| (found.start(), found.end())).collect()),
        Err(_) => None,
    }
}

/// The text of the search bar, its cursor, what was cut last (for `Yank`),
/// whether the next cut joins it, and the branches it finds. The `tui_input`
/// input behind it is what the terminal draws.
pub struct Search {
    input: Input,
    query: String,
    cursor: usize,
    cut: String,
    joined: bool,
}

impl Search {
    /// The text typed so far.
    pub closed spec fn query_view(&self) -> Seq<char> {
        self.query@
    }

    /// The number of characters before the cursor.
    pub closed spec fn cursor_view(&self) -> usize {
        self.cursor
    }

    /// What was cut last, which `Yank` inserts.
    pub closed spec fn cut_view(&self) -> Seq<char> {
        self.cut@
    }

    /// Whether the last request was a cut that the next cut joins.
    pub closed spec fn joined_view(&self) -> bool {
        self.joined
    }

    /// The input behind the search bar.
    pub closed spec fn input_view(&self) -> Input {
        self.input
    }

    /// An empty search bar.
    pub fn new() -> (search: Search)
        ensures
            search.query_view() == Seq::<char>::empty(),
            search.cursor_view() == 0,
            search.cut_view() == Seq::<char>::empty(),
            !search.joined_view(),
    {
        Search { input: new_input(String::new()), query: String::new(), cursor: 0, cut: String::new(), joined: false }
    }

    /// A search bar holding `query`, with the cursor at its end.
    pub fn with_query(query: String) -> (search: Search)
        ensures
            search.query_view() == query@,
            search.cursor_view() == query@.len(),
            search.cut_view() == Seq::<char>::empty(),
            !search.joined_view(),
    {
        let cursor = query.as_str().unicode_len();
        let input = new_input(query.clone());
        Search { input, query, cursor, cut: String::new(), joined: false }
    }

    /// Whether anything has been typed.
    pub fn is_active(&self) -> (active: bool)
        ensures
            active == (self.query_view().len() > 0),
    {
        !self.query.as_str().is_empty()
    }

    /// Applies an editing request; returns whether the text changed. A
    /// request other than `Yank` leaves the text and cursor that
    /// `edit_result` gives and keeps what it cuts; `Yank` inserts what was
    /// cut last at the cursor. When the text did not change, it is as it was.
    pub fn edit(&mut self, request: EditRequest) -> (value_changed: bool)
        ensures
            edit_outcome(
                old(self).query_view(),
                old(self).cursor_view(),
                request,
                (final(self).query_view(), final(self).cursor_view(), value_changed),
            ),
            !value_changed ==> final(self).query_view() == old(self).query_view(),
            edits_into(*old(self), request, *final(self), value_changed),
    {
        match request {
            EditRequest::Yank => {
                let (query, cursor, changed) = yank_into(&mut self.input, self.query.as_str(), self.cursor, self.cut.as_str());
                self.query = query;
                self.cursor = cursor;
                self.joined = false;
                changed
            },
            _ => {
                handle_request(&mut self.input, input_request(request));
                let (query, cursor, changed) = edit_text(self.query.as_str(), self.cursor, request);
                let text = chars_of(self.query.as_str());
                let len = text.len();
                let at = if self.cursor < len {
                    self.cursor
                } else {
                    len
                };
                let removed: Option<(Vec<char>, bool)> = match request {
                    EditRequest::DeleteLine => if len == 0 {
                        None
                    } else {
                        Some((slice_chars(&text, 0, len), at == len))
                    },
                    EditRequest::DeletePrevWord => if at == 0 {
                        None
                    } else {
                        Some((slice_chars(&text, cursor, at), true))
                    },
                    EditRequest::DeleteNextWord => if at == len {
                        None
                    } else {
                        let remaining = chars_of(query.as_str()).len();
                        Some((slice_chars(&text, at, at + (len - remaining)), false))
                    },
                    EditRequest::DeleteTillEnd => Some((slice_chars(&text, at, len), false)),
                    EditRequest::DeleteFromStart => if at == 0 {
                        None
                    } else {
                        Some((slice_chars(&text, 0, at), true))
                    },
                    _ => None,
                };
                proof {
                    assert(text@.subrange(0, len as int) =~= text@);
                    assert(text@.subrange(at as int, len as int) =~= text@.skip(at as int));
                    assert(text@.subrange(0, at as int) =~= text@.take(at as int));
                }
                match removed {
                    Some((deleted, before)) => {
                        self.cut = join_cut(&self.cut, self.joined, &deleted, before);
                    },
                    None => {},
                }
                self.joined = match request {
                    EditRequest::DeleteLine | EditRequest::DeletePrevWord | EditRequest::DeleteNextWord
                    | EditRequest::DeleteTillEnd => true,
                    _ => false,
                };
                self.query = query;
                self.cursor = cursor;
                changed
            },
        }
    }

    /// Whether the search finds `branch_name`.
    pub fn matches(&self, branch_name: &str) -> (found: bool)
        ensures
            found == search_matches(self.query_view(), branch_name@),
    {
        if self.query.as_str().is_empty() {
            false
        } else {
            match regex_matches(self.query.as_str(), branch_name) {
                Some(found) => found,
                None => false,
            }
        }
    }

    /// The byte ranges of `branch_name` that the search finds.
    pub fn match_ranges(&self, branch_name: &str) -> (ranges: Vec<(usize, usize)>)
        ensures
            ranges@ == search_ranges(self.query_view(), branch_name@),
    {
        if self.query.as_str().is_empty() {
            Vec::new()
        } else {
            match regex_ranges(self.query.as_str(), branch_name) {
                Some(ranges) => ranges,
                None => Vec::new(),
            }
        }
    }

    /// The pieces, by byte range, that `branch_name` is drawn in, those the
    /// search finds marked.
    pub fn highlight(&self, branch_name: &str) -> (segments: Vec<(usize, usize, bool)>)
        ensures
            segments@ == segments_from(
                search_ranges(self.query_view(), branch_name@),
                0,
                branch_name.spec_bytes().len() as usize,
            ),
    {
        let ranges = self.match_ranges(branch_name);
        name_segments(branch_name.len(), &ranges)
    }

    /// The text typed so far.
    pub fn query(&self) -> (query: &str)
        ensures
            query@ == self.query_view(),
    {
        self.query.as_str()
    }

    /// The number of characters before the cursor.
    pub fn cursor(&self) -> (cursor: usize)
        ensures
            cursor == self.cursor_view(),
    {
        self.cursor
    }

    /// The input behind the search bar, for drawing it.
    pub fn input(&self) -> (input: &Input)
        ensures
            *input == self.input_view(),
    {
        &self.input
    }
}

/// Whether `request` removes text that `Yank` can put back.
pub open spec fn is_cut(request: EditRequest) -> bool {
    joins_cuts(request) || request == EditRequest::DeleteFromStart
}

/// A cut that changed the text, right after a request that was not a cut,
/// followed by `Yank`, gives the text back as it was.
pub proof fn law_cut_then_yank_restores(
    start: Search,
    cut: Search,
    yank: Search,
    request: EditRequest,
    cut_changed: bool,
    yank_changed: bool,
)
    requires
        start.query_view().len() <= usize::MAX,
        !start.joined_view(),
        is_cut(request),
        edits_into(start, request, cut, cut_changed),
        cut_changed,
        edits_into(cut, EditRequest::Yank, yank, yank_changed),
    ensures
        yank.query_view() == start.query_view(),
{
    let t = start.query_view();
    let at = cursor_at(t, start.cursor_view());
    let after = cut.query_view();
    let kept = cut.cut_view();
    match request {
        EditRequest::DeleteLine => {
            assert(kept == t);
            assert(after == Seq::<char>::empty());
            assert(cursor_at(after, cut.cursor_view()) == 0);
            assert(after.take(0) + t + after.skip(0) =~= t);
        },
        EditRequest::DeleteTillEnd => {
            assert(after == t.take(at as int));
            assert(cut.cursor_view() == at);
            assert(kept == t.skip(at as int));
            assert(cursor_at(after, at) == at);
            if kept.len() == 0 {
                assert(after =~= t);
            } else {
                assert(after.take(at as int) + kept + after.skip(at as int) =~= t);
            }
        },
        EditRequest::DeleteFromStart => {
            assert(after == t.skip(at as int));
            assert(cut.cursor_view() == 0);
            assert(kept == t.take(at as int));
            assert(after.take(0) + kept + after.skip(0) =~= t);
        },
        EditRequest::DeletePrevWord => {
            let p = cut.cursor_view();
            assert(p <= at);
            assert(after == t.take(p as int) + t.skip(at as int));
            assert(kept == t.subrange(p as int, at as int));
            assert(cursor_at(after, p) == p);
            if kept.len() == 0 {
                assert(after =~= t);
            } else {
                assert(after.take(p as int) =~= t.take(p as int));
                assert(after.skip(p as int) =~= t.skip(at as int));
                assert(after.take(p as int) + kept + after.skip(p as int) =~= t);
            }
        },
        EditRequest::DeleteNextWord => {
            let k = t.len() - after.len();
            assert(cut.cursor_view() == at);
            assert(after == t.take(at as int) + t.skip(at + k));
            assert(kept == t.subrange(at as int, at + k));
            assert(cursor_at(after, at) == at);
            if kept.len() == 0 {
                assert(after =~= t);
            } else {
                assert(after.take(at as int) =~= t.take(at as int));
                assert(after.skip(at as int) =~= t.skip(at + k));
                assert(after.take(at as int) + kept + after.skip(at as int) =~= t);
            }
        },
        _ => {},
    }
}

/// `DeleteLine` on a non-empty text, right after a request that was not a
/// cut, then `Yank`, gives the text back with the cursor after it.
pub proof fn law_delete_line_then_yank(start: Search, cut: Search, yank: Search, cut_changed: bool, yank_changed: bool)
    requires
        0 < start.query_view().len() <= usize::MAX,
        !start.joined_view(),
        edits_into(start, EditRequest::DeleteLine, cut, cut_changed),
        edits_into(cut, EditRequest::Yank, yank, yank_changed),
    ensures
        yank.query_view() == start.query_view(),
        yank.cursor_view() == start.query_view().len(),
        cut_changed,
        yank_changed,
{
    let t = start.query_view();
    assert(cut.query_view() == Seq::<char>::empty());
    assert(cut.cut_view() == t);
    assert(cursor_at(cut.query_view(), cut.cursor_view()) == 0);
    assert(cut.query_view().take(0) + t + cut.query_view().skip(0) =~= t);
}

/// Cuts in a row join: right after a cut that joins, another cut keeps what
/// was cut before, with the newly removed text before or after it.
pub proof fn law_cuts_in_a_row_join(before: Search, after: Search, request: EditRequest, changed: bool)
    requires
        before.joined_view(),
        is_cut(request),
        edits_into(before, request, after, changed),
    ensures
        exists|removed: Seq<char>|
            after.cut_view() == removed + before.cut_view() || after.cut_view() == before.cut_view() + removed,
{
    let old_cut = before.cut_view();
    match removed_text(before.query_view(), before.cursor_view(), request, after.query_view(), after.cursor_view()) {
        Some((text, first)) => {
            if first {
                assert(after.cut_view() == text + old_cut);
            } else {
                assert(after.cut_view() == old_cut + text);
            }
        },
        None => {
            assert(after.cut_view() == Seq::<char>::empty() + old_cut);
        },
    }
}

/// A request that cuts nothing keeps what was cut last, and leaves the
/// next cut to start afresh unless it joins cuts.
pub proof fn law_other_requests_keep_the_cut(before: Search, after: Search, request: EditRequest, changed: bool)
    requires
        !is_cut(request),
        edits_into(before, request, after, changed),
    ensures
        after.cut_view() == before.cut_view(),
        !after.joined_view(),
{
}

} // verus!
