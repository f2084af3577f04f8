//! Character-level text handling shared by the history formats: splitting into
//! lines and fields, ordering names, and decimal numbers.

use vstd::prelude::*;
use vstd::string::StringExecFns;

verus! {

broadcast use vstd::string::group_string_axioms;

/// Splits `rest` at every `sep`, where `cur` holds the characters of the field
/// that is being read.
pub open spec fn split_from(cur: Seq<char>, rest: Seq<char>, sep: char) -> Seq<Seq<char>>
    decreases rest.len(),
{
    if rest.len() == 0 {
        seq![cur]
    } else if rest[0] == sep {
        seq![cur] + split_from(Seq::empty(), rest.drop_first(), sep)
    } else {
        split_from(cur.push(rest[0]), rest.drop_first(), sep)
    }
}

/// The fields of `s` between occurrences of `sep`, as `str::split` yields them.
pub open spec fn split_on(s: Seq<char>, sep: char) -> Seq<Seq<char>> {
    split_from(Seq::empty(), s, sep)
}

/// A line without the carriage return of a `\r\n` ending.
pub open spec fn strip_cr(line: Seq<char>) -> Seq<char> {
    if line.len() > 0 && line.last() == '\r' {
        line.drop_last()
    } else {
        line
    }
}

/// The lines of `s`, as `str::lines` yields them: the text between line feeds,
/// where a line ended by a line feed loses a carriage return before it, and a
/// final empty line is not a line.
pub open spec fn lines(s: Seq<char>) -> Seq<Seq<char>> {
    let parts = split_on(s, '\n');
    let ended = parts.drop_last().map_values(|part: Seq<char>| strip_cr(part));
    if parts.last().len() == 0 {
        ended
    } else {
        ended.push(parts.last())
    }
}

/// Whether `c` occurs in `s`.
pub open spec fn has_char(s: Seq<char>, c: char) -> bool {
    exists|i: int| 0 <= i < s.len() && s[i] == c
}


/// The characters of `s`, in order.
pub fn chars_of(s: &str) -> (chars: Vec<char>)
    ensures
        chars@ == s@,
{
    let mut chars: Vec<char> = Vec::new();
    for c in iter: s.chars()
        invariant
            iter.seq() == s@,
            chars@ == s@.take(iter.index() as int),
    {
        chars.push(c);
    }
    assert(chars@ =~= s@);
    chars
}


/// The character sequences that a vector of character vectors holds.
pub open spec fn views(v: Seq<Vec<char>>) -> Seq<Seq<char>> {
    v.map_values(|x: Vec<char>| x@)
}

/// The fields of `s` between occurrences of `sep`.
pub fn split_chars(s: &Vec<char>, sep: char) -> (fields: Vec<Vec<char>>)
    ensures
        views(fields@) == split_on(s@, sep),
{
    let mut fields: Vec<Vec<char>> = Vec::new();
    let mut cur: Vec<char> = Vec::new();
    let mut i: usize = 0;
    proof {
        assert(s@.subrange(0, s.len() as int) =~= s@);
        assert(views(fields@) =~= Seq::<Seq<char>>::empty());
        assert(cur@ =~= Seq::<char>::empty());
    }
    while i < s.len()
        invariant
            i <= s.len(),
            views(fields@) + split_from(cur@, s@.subrange(i as int, s.len() as int), sep)
                == split_on(s@, sep),
        decreases s.len() - i,
    {
        let ghost rest = s@.subrange(i as int, s.len() as int);
        assert(rest.drop_first() =~= s@.subrange(i + 1, s.len() as int));
        if s[i] == sep {
            let done = cur;
            cur = Vec::new();
            proof {
                assert(views(fields@.push(done)) =~= views(fields@) + seq![done@]);
            }
            fields.push(done);
        } else {
            cur.push(s[i]);
        }
        i = i + 1;
    }
    proof {
        assert(s@.subrange(i as int, s.len() as int) =~= Seq::<char>::empty());
        assert(views(fields@.push(cur)) =~= views(fields@) + seq![cur@]);
    }
    fields.push(cur);
    fields
}

proof fn lemma_split_from_nonempty(cur: Seq<char>, rest: Seq<char>, sep: char)
    ensures
        split_from(cur, rest, sep).len() >= 1,
    decreases rest.len(),
{
    if rest.len() > 0 {
        if rest[0] == sep {
            lemma_split_from_nonempty(Seq::empty(), rest.drop_first(), sep);
        } else {
            lemma_split_from_nonempty(cur.push(rest[0]), rest.drop_first(), sep);
        }
    }
}

/// `line` without the carriage return of a `\r\n` ending.
fn strip_cr_exec(line: Vec<char>) -> (stripped: Vec<char>)
    ensures
        stripped@ == strip_cr(line@),
{
    let mut line = line;
    if line.len() > 0 && line[line.len() - 1] == '\r' {
        line.pop();
    }
    line
}

/// The lines of `s`, as `str::lines` yields them.
pub fn lines_of(s: &Vec<char>) -> (result: Vec<Vec<char>>)
    ensures
        views(result@) == lines(s@),
{
    let mut parts = split_chars(s, '\n');
    proof {
        lemma_split_from_nonempty(Seq::empty(), s@, '\n');
    }
    let last = parts.pop().unwrap();
    let ghost ps = views(parts@);
    let mut result: Vec<Vec<char>> = Vec::new();
    let mut i: usize = 0;
    while i < parts.len()
        invariant
            i <= parts.len(),
            views(parts@) == ps,
            views(result@) == ps.take(i as int).map_values(|part: Seq<char>| strip_cr(part)),
        decreases parts.len() - i,
    {
        let part = parts[i].clone();
        let stripped = strip_cr_exec(part);
        proof {
            assert(ps.take(i + 1) =~= ps.take(i as int).push(ps[i as int]));
            assert(views(result@.push(stripped)) =~= views(result@).push(stripped@));
            assert(ps.take(i + 1).map_values(|part: Seq<char>| strip_cr(part)) =~= ps.take(
                i as int,
            ).map_values(|part: Seq<char>| strip_cr(part)).push(strip_cr(ps[i as int])));
        }
        result.push(stripped);
        i = i + 1;
    }
    proof {
        assert(ps.take(i as int) =~= ps);
        assert(ps =~= split_on(s@, '\n').drop_last());
    }
    if last.len() > 0 {
        proof {
            assert(views(result@.push(last)) =~= views(result@).push(last@));
        }
        result.push(last);
    }
    result
}


/// Whether `a` comes before `b` in the order of `str`: lexicographic by
/// characters, where characters compare by code point. (UTF-8 keeps code-point
/// order, so this is also the byte order that `str` compares by.)
pub open spec fn lex_lt(a: Seq<char>, b: Seq<char>) -> bool
    decreases a.len(),
{
    if b.len() == 0 {
        false
    } else if a.len() == 0 {
        true
    } else if a[0] != b[0] {
        (a[0] as int) < (b[0] as int)
    } else {
        lex_lt(a.drop_first(), b.drop_first())
    }
}

pub proof fn lemma_lex_irreflexive(a: Seq<char>)
    ensures
        !lex_lt(a, a),
    decreases a.len(),
{
    if a.len() > 0 {
        lemma_lex_irreflexive(a.drop_first());
    }
}

pub proof fn lemma_lex_transitive(a: Seq<char>, b: Seq<char>, c: Seq<char>)
    requires
        lex_lt(a, b),
        lex_lt(b, c),
    ensures
        lex_lt(a, c),
    decreases a.len(),
{
    if a.len() > 0 && a[0] == b[0] && b[0] == c[0] {
        lemma_lex_transitive(a.drop_first(), b.drop_first(), c.drop_first());
    }
}

pub proof fn lemma_lex_total(a: Seq<char>, b: Seq<char>)
    ensures
        a != b ==> lex_lt(a, b) || lex_lt(b, a),
    decreases a.len(),
{
    if a.len() > 0 && b.len() > 0 && a[0] == b[0] {
        lemma_lex_total(a.drop_first(), b.drop_first());
        if a.drop_first() == b.drop_first() {
            assert(a =~= seq![a[0]] + a.drop_first());
            assert(b =~= seq![b[0]] + b.drop_first());
        }
    } else if a.len() == 0 && b.len() == 0 {
        assert(a =~= b);
    }
}

pub proof fn lemma_lex_asymmetric(a: Seq<char>, b: Seq<char>)
    ensures
        !(lex_lt(a, b) && lex_lt(b, a)),
{
    if lex_lt(a, b) && lex_lt(b, a) {
        lemma_lex_transitive(a, b, a);
        lemma_lex_irreflexive(a);
    }
}

/// The order of `str`, as `lex_lt` states it: a text comes before every
/// longer text that it begins, never after one, and otherwise the first
/// character where two texts differ decides.
pub proof fn law_lex_is_str_order(common: Seq<char>, rest: Seq<char>, x: char, y: char, after_x: Seq<char>, after_y: Seq<char>)
    ensures
        rest.len() > 0 ==> lex_lt(common, common + rest),
        !lex_lt(common + rest, common),
        (x as int) < (y as int) ==> lex_lt(common + seq![x] + after_x, common + seq![y] + after_y),
        (x as int) < (y as int) ==> !lex_lt(common + seq![y] + after_y, common + seq![x] + after_x),
    decreases common.len(),
{
    if common.len() > 0 {
        law_lex_is_str_order(common.drop_first(), rest, x, y, after_x, after_y);
        assert((common + rest).drop_first() =~= common.drop_first() + rest);
        assert((common + rest)[0] == common[0]);
        assert((common + seq![x] + after_x).drop_first() =~= common.drop_first() + seq![x] + after_x);
        assert((common + seq![y] + after_y).drop_first() =~= common.drop_first() + seq![y] + after_y);
        assert((common + seq![x] + after_x)[0] == common[0]);
        assert((common + seq![y] + after_y)[0] == common[0]);
    } else {
        assert(common + rest =~= rest);
        assert(common + seq![x] + after_x =~= seq![x] + after_x);
        assert(common + seq![y] + after_y =~= seq![y] + after_y);
        assert((seq![x] + after_x)[0] == x);
        assert((seq![y] + after_y)[0] == y);
    }
}

/// The empty text comes before every other text.
pub proof fn law_lex_empty_first(a: Seq<char>)
    ensures
        lex_lt(Seq::empty(), a) == (a.len() > 0),
        !lex_lt(a, Seq::empty()),
{
}

/// Whether `a` comes before `b` in the order of `str`.
pub fn lex_less(a: &Vec<char>, b: &Vec<char>) -> (less: bool)
    ensures
        less == lex_lt(a@, b@),
{
    let mut i: usize = 0;
    proof {
        assert(a@.subrange(0, a.len() as int) =~= a@);
        assert(b@.subrange(0, b.len() as int) =~= b@);
    }
    while i < a.len() && i < b.len() && a[i] == b[i]
        invariant
            i <= a.len(),
            i <= b.len(),
            lex_lt(a@, b@) == lex_lt(
                a@.subrange(i as int, a.len() as int),
                b@.subrange(i as int, b.len() as int),
            ),
        decreases a.len() - i,
    {
        proof {
            let ra = a@.subrange(i as int, a.len() as int);
            let rb = b@.subrange(i as int, b.len() as int);
            assert(ra.drop_first() =~= a@.subrange(i + 1, a.len() as int));
            assert(rb.drop_first() =~= b@.subrange(i + 1, b.len() as int));
        }
        i = i + 1;
    }
    if i == b.len() {
        false
    } else if i == a.len() {
        true
    } else {
        a[i] < b[i]
    }
}

/// Whether `c` is an ASCII decimal digit.
pub open spec fn is_digit(c: char) -> bool {
    48 <= (c as u32) && (c as u32) <= 57
}

/// The value of a decimal digit.
pub open spec fn digit_value(c: char) -> nat {
    ((c as u32) - 48) as nat
}

/// The value of a string of decimal digits.
pub open spec fn digits_value(s: Seq<char>) -> nat
    decreases s.len(),
{
    if s.len() == 0 {
        0
    } else {
        digits_value(s.drop_last()) * 10 + digit_value(s.last())
    }
}

/// The digits of `s` without a leading plus sign.
pub open spec fn unsigned_digits(s: Seq<char>) -> Seq<char> {
    if s.len() > 0 && s[0] == '+' {
        s.drop_first()
    } else {
        s
    }
}

/// The `usize` that `str::parse::<usize>` reads from `s`: an optional `+`
/// followed by at least one decimal digit, whose value fits in `usize`.
pub open spec fn parse_usize(s: Seq<char>) -> Option<nat> {
    let digits = unsigned_digits(s);
    if digits.len() > 0 && (forall|i: int| 0 <= i < digits.len() ==> is_digit(digits[i]))
        && digits_value(digits) <= usize::MAX {
        Some(digits_value(digits))
    } else {
        None
    }
}

proof fn lemma_digits_value_grows(s: Seq<char>, n: int)
    requires
        0 <= n <= s.len(),
    ensures
        digits_value(s.take(n)) <= digits_value(s),
    decreases s.len() - n,
{
    if n < s.len() {
        lemma_digits_value_grows(s, n + 1);
        assert(s.take(n + 1).drop_last() =~= s.take(n));
        assert(digits_value(s.take(n + 1)) == digits_value(s.take(n)) * 10 + digit_value(
            s.take(n + 1).last(),
        ));
        assert(digits_value(s.take(n)) <= digits_value(s.take(n)) * 10) by (nonlinear_arith);
    } else {
        assert(s.take(n) =~= s);
    }
}

/// Reads a `usize` as `str::parse::<usize>` does.
pub fn parse_usize_exec(s: &Vec<char>) -> (value: Option<usize>)
    ensures
        value matches Some(v) ==> parse_usize(s@) == Some(v as nat),
        value is None ==> parse_usize(s@) is None,
{
    let start: usize = if s.len() > 0 && s[0] == '+' {
        1
    } else {
        0
    };
    let ghost digits = unsigned_digits(s@);
    proof {
        assert(digits =~= s@.subrange(start as int, s.len() as int));
    }
    if start == s.len() {
        return None;
    }
    let mut value: usize = 0;
    let mut i: usize = start;
    while i < s.len()
        invariant
            start <= i <= s.len(),
            digits == unsigned_digits(s@),
            digits == s@.subrange(start as int, s.len() as int),
            forall|j: int| 0 <= j < i - start ==> is_digit(digits[j]),
            value as nat == digits_value(digits.take(i - start)),
        decreases s.len() - i,
    {
        let c = s[i];
        let code = c as u32;
        if code < 48 || code > 57 {
            proof {
                assert(digits[i - start] == c);
                assert(!is_digit(digits[i - start]));
                assert(!(forall|j: int| 0 <= j < digits.len() ==> is_digit(digits[j])));
            }
            return None;
        }
        let d = (code - 48) as usize;
        proof {
            assert(digits.take(i + 1 - start).drop_last() =~= digits.take(i - start));
            assert(digits.take(i + 1 - start).last() == c);
            assert(digits_value(digits.take(i + 1 - start)) == value * 10 + d);
        }
        if value > (usize::MAX - d) / 10 {
            proof {
                assert(value * 10 + d > usize::MAX) by (nonlinear_arith)
                    requires
                        value > (usize::MAX - d) / 10,
                        d <= 9,
                ;
                lemma_digits_value_grows(digits, i + 1 - start);
            }
            return None;
        }
        proof {
            assert(value * 10 + d <= usize::MAX) by (nonlinear_arith)
                requires
                    value <= (usize::MAX - d) / 10,
                    d <= 9,
            ;
        }
        value = value * 10 + d;
        i = i + 1;
    }
    proof {
        assert(digits.take(i - start) =~= digits);
    }
    Some(value)
}

/// Appends `c` to `s`, as `String::push` does.
#[verifier::external_body]
pub(crate) fn push_char(s: &mut String, c: char)
    ensures
        final(s)@ == old(s)@.push(c),
{
    s.push(c);
}

/// Appends the characters of `chars` to `s`.
pub fn push_chars(s: &mut String, chars: &Vec<char>)
    ensures
        final(s)@ == old(s)@ + chars@,
{
    let ghost start = s@;
    let mut i: usize = 0;
    while i < chars.len()
        invariant
            i <= chars.len(),
            s@ == start + chars@.take(i as int),
        decreases chars.len() - i,
    {
        proof {
            assert(chars@.take(i + 1) =~= chars@.take(i as int).push(chars@[i as int]));
        }
        push_char(s, chars[i]);
        i = i + 1;
    }
    proof {
        assert(chars@.take(i as int) =~= chars@);
    }
}

/// Appends the characters of `t` to `s`.
pub fn push_str(s: &mut String, t: &str)
    ensures
        final(s)@ == old(s)@ + t@,
{
    let chars = chars_of(t);
    push_chars(s, &chars);
}

/// A string holding the characters of `chars`.
pub fn string_of(chars: &Vec<char>) -> (s: String)
    ensures
        s@ == chars@,
{
    let mut s = String::new();
    push_chars(&mut s, chars);
    s
}

/// The character of a decimal digit.
pub open spec fn digit_char(d: nat) -> char {
    ((d + 48) as u32) as char
}

/// The decimal digits of `n`, without leading zeros.
pub open spec fn decimal(n: nat) -> Seq<char>
    decreases n,
{
    if n < 10 {
        seq![digit_char(n)]
    } else {
        decimal(n / 10).push(digit_char(n % 10))
    }
}

/// Appends the decimal digits of `n` to `s`, as formatting `n` with `{}` does.
pub fn push_decimal(s: &mut String, n: usize)
    ensures
        final(s)@ == old(s)@ + decimal(n as nat),
    decreases n,
{
    if n >= 10 {
        push_decimal(s, n / 10);
    }
    let d = (n % 10) as u8;
    let c = (48u8 + d) as char;
    proof {
        assert(c == digit_char((n % 10) as nat));
    }
    push_char(s, c);
    proof {
        if n >= 10 {
            assert(old(s)@ + decimal(n as nat) =~= old(s)@ + decimal((n / 10) as nat) + seq![c]);
        }
    }
}


/// Whether two character vectors hold the same characters.
pub fn chars_eq(a: &Vec<char>, b: &Vec<char>) -> (same: bool)
    ensures
        same == (a@ == b@),
{
    if a.len() != b.len() {
        return false;
    }
    let mut i: usize = 0;
    while i < a.len()
        invariant
            a.len() == b.len(),
            i <= a.len(),
            forall|j: int| 0 <= j < i ==> a@[j] == b@[j],
        decreases a.len() - i,
    {
        if a[i] != b[i] {
            return false;
        }
        i = i + 1;
    }
    assert(a@ =~= b@);
    true
}

/// Whether two strings hold the same characters.
pub fn str_eq(a: &str, b: &str) -> (same: bool)
    ensures
        same == (a@ == b@),
{
    chars_eq(&chars_of(a), &chars_of(b))
}

/// The records `records`, each followed by a line feed.
pub open spec fn join_terminated(records: Seq<Seq<char>>) -> Seq<char>
    decreases records.len(),
{
    if records.len() == 0 {
        Seq::empty()
    } else {
        records[0] + seq!['\n'] + join_terminated(records.drop_first())
    }
}

/// Appending a record appends its line.
pub proof fn lemma_join_terminated_push(records: Seq<Seq<char>>, record: Seq<char>)
    ensures
        join_terminated(records.push(record)) == join_terminated(records) + record + seq!['\n'],
    decreases records.len(),
{
    if records.len() == 0 {
        let one = records.push(record);
        assert(one[0] == record);
        assert(one.drop_first() =~= Seq::<Seq<char>>::empty());
        assert(join_terminated(one.drop_first()) =~= Seq::<char>::empty());
        assert(join_terminated(records) =~= Seq::<char>::empty());
        assert(join_terminated(one) =~= record + seq!['\n']);
    } else {
        lemma_join_terminated_push(records.drop_first(), record);
        assert(records.push(record).drop_first() =~= records.drop_first().push(record));
        assert(join_terminated(records.push(record)) =~= join_terminated(records) + record + seq![
            '\n',
        ]);
    }
}

/// A record that reads back as itself when it stands on a line of its own:
/// it holds no line feed and does not end in a carriage return.
pub open spec fn is_line_record(record: Seq<char>) -> bool {
    !has_char(record, '\n') && strip_cr(record) == record
}

pub proof fn lemma_split_from_plain(cur: Seq<char>, a: Seq<char>, rest: Seq<char>, sep: char)
    requires
        !has_char(a, sep),
    ensures
        split_from(cur, a + rest, sep) == split_from(cur + a, rest, sep),
    decreases a.len(),
{
    if a.len() > 0 {
        assert((a + rest)[0] == a[0]);
        assert((a + rest).drop_first() =~= a.drop_first() + rest);
        assert(!has_char(a.drop_first(), sep)) by {
            if has_char(a.drop_first(), sep) {
                let i = choose|i: int| 0 <= i < a.drop_first().len() && a.drop_first()[i] == sep;
                assert(a[i + 1] == sep);
            }
        }
        lemma_split_from_plain(cur.push(a[0]), a.drop_first(), rest, sep);
        assert(cur.push(a[0]) + a.drop_first() =~= cur + a);
    } else {
        assert(a + rest =~= rest);
        assert(cur + a =~= cur);
    }
}

proof fn lemma_split_terminated(records: Seq<Seq<char>>)
    requires
        forall|i: int| 0 <= i < records.len() ==> !has_char(#[trigger] records[i], '\n'),
    ensures
        split_on(join_terminated(records), '\n') == records.push(Seq::empty()),
    decreases records.len(),
{
    if records.len() == 0 {
        assert(split_on(Seq::empty(), '\n') =~= seq![Seq::<char>::empty()]);
        assert(records.push(Seq::empty()) =~= seq![Seq::<char>::empty()]);
    } else {
        let first = records[0];
        let rest = records.drop_first();
        let tail = join_terminated(rest);
        assert forall|i: int| 0 <= i < rest.len() implies !has_char(#[trigger] rest[i], '\n') by {
            assert(rest[i] == records[i + 1]);
        }
        lemma_split_terminated(rest);
        assert(join_terminated(records) =~= first + (seq!['\n'] + tail));
        lemma_split_from_plain(Seq::empty(), first, seq!['\n'] + tail, '\n');
        assert(Seq::<char>::empty() + first =~= first);
        assert((seq!['\n'] + tail)[0] == '\n');
        assert((seq!['\n'] + tail).drop_first() =~= tail);
        assert(records.push(Seq::empty()) =~= seq![first] + rest.push(Seq::empty()));
    }
}

/// Each record on a line of its own reads back as the same records.
pub proof fn lemma_lines_of_terminated(records: Seq<Seq<char>>)
    requires
        forall|i: int| 0 <= i < records.len() ==> is_line_record(#[trigger] records[i]),
    ensures
        lines(join_terminated(records)) == records,
{
    lemma_split_terminated(records);
    let parts = split_on(join_terminated(records), '\n');
    assert(parts.drop_last() =~= records);
    assert(parts.drop_last().map_values(|part: Seq<char>| strip_cr(part)) =~= records);
}

/// Whether `c` is white space, as `char::is_whitespace` tells it: the
/// characters of Unicode's `White_Space` property.
pub open spec fn is_white_space(c: char) -> bool {
    let n = c as u32;
    ||| 0x9 <= n <= 0xD
    ||| n == 0x20
    ||| n == 0x85
    ||| n == 0xA0
    ||| n == 0x1680
    ||| 0x2000 <= n <= 0x200A
    ||| n == 0x2028
    ||| n == 0x2029
    ||| n == 0x202F
    ||| n == 0x205F
    ||| n == 0x3000
}

pub fn white_space(c: char) -> (white: bool)
    ensures
        white == is_white_space(c),
{
    let n = c as u32;
    (0x9 <= n && n <= 0xD) || n == 0x20 || n == 0x85 || n == 0xA0 || n == 0x1680 || (0x2000 <= n
        && n <= 0x200A) || n == 0x2028 || n == 0x2029 || n == 0x202F || n == 0x205F || n == 0x3000
}

/// `s` without white space at its start.
pub open spec fn trim_start(s: Seq<char>) -> Seq<char>
    decreases s.len(),
{
    if s.len() > 0 && is_white_space(s[0]) {
        trim_start(s.drop_first())
    } else {
        s
    }
}

/// `s` without white space at its end.
pub open spec fn trim_end(s: Seq<char>) -> Seq<char>
    decreases s.len(),
{
    if s.len() > 0 && is_white_space(s.last()) {
        trim_end(s.drop_last())
    } else {
        s
    }
}

/// `s` without white space at either end, as `str::trim` leaves it.
pub open spec fn trimmed(s: Seq<char>) -> Seq<char> {
    trim_end(trim_start(s))
}

pub fn trim_white_space(s: &Vec<char>) -> (t: Vec<char>)
    ensures
        t@ == trimmed(s@),
{
    let n = s.len();
    let mut start: usize = 0;
    assert(s@.skip(0) =~= s@);
    while start < n && white_space(s[start])
        invariant
            start <= n,
            n == s.len(),
            trim_start(s@) == trim_start(s@.skip(start as int)),
        decreases n - start,
    {
        proof {
            assert(s@.skip(start as int).drop_first() =~= s@.skip(start + 1));
        }
        start = start + 1;
    }
    proof {
        assert(trim_start(s@.skip(start as int)) == s@.skip(start as int));
        assert(s@.skip(start as int) =~= s@.subrange(start as int, n as int));
    }
    let mut end: usize = n;
    while end > start && white_space(s[end - 1])
        invariant
            start <= end <= n,
            n == s.len(),
            trim_end(s@.subrange(start as int, n as int)) == trim_end(s@.subrange(start as int, end as int)),
        decreases end,
    {
        proof {
            assert(s@.subrange(start as int, end as int).drop_last() =~= s@.subrange(start as int, end - 1));
        }
        end = end - 1;
    }
    let mut t: Vec<char> = Vec::new();
    let mut i: usize = start;
    while i < end
        invariant
            start <= i <= end,
            end <= n,
            n == s.len(),
            t@ == s@.subrange(start as int, i as int),
        decreases end - i,
    {
        t.push(s[i]);
        i = i + 1;
    }
    t
}


/// Whether `s` starts with `prefix`.
pub open spec fn starts_with(s: Seq<char>, prefix: Seq<char>) -> bool {
    prefix.len() <= s.len() && s.take(prefix.len() as int) == prefix
}

pub fn starts_with_chars(s: &Vec<char>, prefix: &Vec<char>) -> (found: bool)
    ensures
        found == starts_with(s@, prefix@),
{
    if prefix.len() > s.len() {
        return false;
    }
    let mut i: usize = 0;
    while i < prefix.len()
        invariant
            i <= prefix.len(),
            prefix.len() <= s.len(),
            forall|j: int| 0 <= j < i ==> s@[j] == prefix@[j],
        decreases prefix.len() - i,
    {
        if s[i] != prefix[i] {
            return false;
        }
        i = i + 1;
    }
    assert(s@.take(prefix.len() as int) =~= prefix@);
    true
}

/// The characters `s[start..end]`.
pub fn slice_chars(s: &Vec<char>, start: usize, end: usize) -> (t: Vec<char>)
    requires
        start <= end <= s.len(),
    ensures
        t@ == s@.subrange(start as int, end as int),
{
    let mut t: Vec<char> = Vec::new();
    let mut i: usize = start;
    while i < end
        invariant
            start <= i <= end,
            end <= s.len(),
            t@ == s@.subrange(start as int, i as int),
        decreases end - i,
    {
        t.push(s[i]);
        i = i + 1;
    }
    t
}

pub fn trim_start_white_space(s: &Vec<char>) -> (t: Vec<char>)
    ensures
        t@ == trim_start(s@),
{
    let n = s.len();
    let mut start: usize = 0;
    assert(s@.skip(0) =~= s@);
    while start < n && white_space(s[start])
        invariant
            start <= n,
            n == s.len(),
            trim_start(s@) == trim_start(s@.skip(start as int)),
        decreases n - start,
    {
        proof {
            assert(s@.skip(start as int).drop_first() =~= s@.skip(start + 1));
        }
        start = start + 1;
    }
    proof {
        assert(s@.skip(start as int) =~= s@.subrange(start as int, n as int));
    }
    slice_chars(s, start, n)
}

/// `s` without every `c` at its start.
pub open spec fn strip_leading(s: Seq<char>, c: char) -> Seq<char>
    decreases s.len(),
{
    if s.len() > 0 && s[0] == c {
        strip_leading(s.drop_first(), c)
    } else {
        s
    }
}

/// `s` without every `c` at its end.
pub open spec fn strip_trailing(s: Seq<char>, c: char) -> Seq<char>
    decreases s.len(),
{
    if s.len() > 0 && s.last() == c {
        strip_trailing(s.drop_last(), c)
    } else {
        s
    }
}

/// `s` without `c` at either end, as `str::trim_matches` with a character
/// leaves it.
pub open spec fn trim_char(s: Seq<char>, c: char) -> Seq<char> {
    strip_trailing(strip_leading(s, c), c)
}

pub fn trim_char_chars(s: &Vec<char>, c: char) -> (t: Vec<char>)
    ensures
        t@ == trim_char(s@, c),
{
    let n = s.len();
    let mut start: usize = 0;
    assert(s@.skip(0) =~= s@);
    while start < n && s[start] == c
        invariant
            start <= n,
            n == s.len(),
            strip_leading(s@, c) == strip_leading(s@.skip(start as int), c),
        decreases n - start,
    {
        proof {
            assert(s@.skip(start as int).drop_first() =~= s@.skip(start + 1));
        }
        start = start + 1;
    }
    proof {
        assert(strip_leading(s@.skip(start as int), c) == s@.skip(start as int));
        assert(s@.skip(start as int) =~= s@.subrange(start as int, n as int));
    }
    let mut end: usize = n;
    while end > start && s[end - 1] == c
        invariant
            start <= end <= n,
            n == s.len(),
            strip_trailing(s@.subrange(start as int, n as int), c) == strip_trailing(
                s@.subrange(start as int, end as int),
                c,
            ),
        decreases end,
    {
        proof {
            assert(s@.subrange(start as int, end as int).drop_last() =~= s@.subrange(
                start as int,
                end - 1,
            ));
        }
        end = end - 1;
    }
    slice_chars(s, start, end)
}

/// `items` with `sep` between each two, as `join` makes them.
pub open spec fn joined(items: Seq<Seq<char>>, sep: Seq<char>) -> Seq<char>
    decreases items.len(),
{
    if items.len() == 0 {
        Seq::empty()
    } else if items.len() == 1 {
        items[0]
    } else {
        joined(items.drop_last(), sep) + sep + items.last()
    }
}

/// Appends `items`, with `sep` between each two, to `s`.
pub fn push_joined(s: &mut String, items: &Vec<String>, sep: &str)
    ensures
        final(s)@ == old(s)@ + joined(items@.map_values(|item: String| item@), sep@),
{
    let ghost start = s@;
    let ghost all = items@.map_values(|item: String| item@);
    let mut i: usize = 0;
    while i < items.len()
        invariant
            i <= items.len(),
            all == items@.map_values(|item: String| item@),
            s@ == start + joined(all.take(i as int), sep@),
        decreases items.len() - i,
    {
        proof {
            assert(all.take(i + 1).drop_last() =~= all.take(i as int));
            assert(all.take(i + 1).last() == items@[i as int]@);
            if i == 0 {
                assert(all.take(1) =~= seq![items@[0]@]);
            }
        }
        if i > 0 {
            push_str(s, sep);
        }
        push_str(s, items[i].as_str());
        proof {
            if i == 0 {
                assert(joined(all.take(1), sep@) == items@[0]@);
                assert(joined(all.take(0), sep@) =~= Seq::<char>::empty());
                assert(s@ =~= start + joined(all.take(1), sep@));
            } else {
                assert(s@ =~= start + joined(all.take(i + 1), sep@));
            }
        }
        i = i + 1;
    }
    proof {
        assert(all.take(i as int) =~= all);
    }
}

/// A name that a history line holds and reads back before another field:
/// non-empty, with no tab or line feed.
pub open spec fn is_field(name: Seq<char>) -> bool {
    name.len() > 0 && !has_char(name, '\t') && !has_char(name, '\n')
}

/// A name that a history line holds and reads back as its last field: a
/// field that does not end in a carriage return, which reading a line drops.
pub open spec fn is_last_field(name: Seq<char>) -> bool {
    is_field(name) && strip_cr(name) == name
}

/// Two fields joined by a tab split back into the two fields.
pub proof fn lemma_split_two_fields(a: Seq<char>, b: Seq<char>)
    requires
        !has_char(a, '\t'),
        !has_char(b, '\t'),
    ensures
        split_on(a + seq!['\t'] + b, '\t') == seq![a, b],
{
    let rest = seq!['\t'] + b;
    assert(a + seq!['\t'] + b =~= a + rest);
    lemma_split_from_plain(Seq::empty(), a, rest, '\t');
    assert(Seq::<char>::empty() + a =~= a);
    assert(rest[0] == '\t');
    assert(rest.drop_first() =~= b);
    lemma_split_from_plain(Seq::empty(), b, Seq::empty(), '\t');
    assert(b + Seq::<char>::empty() =~= b);
    assert(Seq::<char>::empty() + b =~= b);
    assert(split_from(b, Seq::empty(), '\t') =~= seq![b]);
    assert(seq![a] + seq![b] =~= seq![a, b]);
}


/// The digits that `decimal` writes read back as the number.
pub proof fn lemma_decimal_digits(n: nat)
    ensures
        decimal(n).len() > 0,
        forall|i: int| 0 <= i < decimal(n).len() ==> is_digit(#[trigger] decimal(n)[i]),
        digits_value(decimal(n)) == n,
    decreases n,
{
    if n < 10 {
        assert(decimal(n) =~= seq![digit_char(n)]);
        assert(decimal(n).drop_last() =~= Seq::<char>::empty());
        assert(digit_value(digit_char(n)) == n);
        assert(digits_value(decimal(n)) == digits_value(decimal(n).drop_last()) * 10 + digit_value(
            decimal(n).last(),
        ));
    } else {
        lemma_decimal_digits(n / 10);
        let d = decimal(n);
        assert(d.drop_last() =~= decimal(n / 10));
        assert(d.last() == digit_char(n % 10));
        assert(digit_value(digit_char(n % 10)) == n % 10);
        assert forall|i: int| 0 <= i < d.len() implies is_digit(#[trigger] d[i]) by {
            if i < d.len() - 1 {
                assert(d[i] == decimal(n / 10)[i]);
            }
        }
        assert(n == (n / 10) * 10 + n % 10);
        assert(digits_value(d) == digits_value(d.drop_last()) * 10 + digit_value(d.last()));
    }
}

/// A number written with `decimal` parses back as itself.
pub proof fn lemma_decimal_parses(n: nat)
    requires
        n <= usize::MAX,
    ensures
        parse_usize(decimal(n)) == Some(n),
        !has_char(decimal(n), '\t'),
{
    lemma_decimal_digits(n);
    assert(decimal(n)[0] != '+') by {
        assert(is_digit(decimal(n)[0]));
    }
    assert(unsigned_digits(decimal(n)) == decimal(n));
    assert(!has_char(decimal(n), '\t')) by {
        if has_char(decimal(n), '\t') {
            let i = choose|i: int| 0 <= i < decimal(n).len() && decimal(n)[i] == '\t';
            assert(is_digit(decimal(n)[i]));
        }
    }
}

/// A field and a tab in front of the rest split off as the first field.
pub proof fn lemma_split_first_field(a: Seq<char>, rest: Seq<char>)
    requires
        !has_char(a, '\t'),
    ensures
        split_on(a + seq!['\t'] + rest, '\t') == seq![a] + split_on(rest, '\t'),
{
    let tail = seq!['\t'] + rest;
    assert(a + seq!['\t'] + rest =~= a + tail);
    lemma_split_from_plain(Seq::empty(), a, tail, '\t');
    assert(Seq::<char>::empty() + a =~= a);
    assert(tail[0] == '\t');
    assert(tail.drop_first() =~= rest);
}
} // verus!
