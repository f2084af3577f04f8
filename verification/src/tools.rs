//! Installing a directory of Rust tools: reading each tool's package name,
//! judging what a build did, planning the shell aliases to add, and the
//! summary at the end.

use vstd::prelude::*;

use crate::text::{
    chars_eq, chars_of, joined, lines, lines_of, push_joined, push_str, slice_chars,
    starts_with, starts_with_chars, string_of, trim_char, trim_char_chars, trim_start,
    trim_start_white_space, trim_white_space, trimmed, views,
};

verus! {

/// The value of a `name = "..."` line of a manifest: what follows `name` and,
/// after white space, `=`, trimmed, without surrounding double and then
/// single quotes; none when that is empty.
pub open spec fn name_value(line: Seq<char>) -> Option<Seq<char>> {
    if starts_with(line, "name"@) {
        let rest = trim_start(line.skip("name"@.len() as int));
        if rest.len() > 0 && rest[0] == '=' {
            let value = trim_char(trim_char(trimmed(rest.skip(1)), '"'), '\'');
            if value.len() > 0 {
                Some(value)
            } else {
                None
            }
        } else {
            None
        }
    } else {
        None
    }
}

/// The package name that `lines` give, where `in_package` tells whether they
/// start inside the `[package]` section: the first name line of that section
/// that has a value.
pub open spec fn package_name_from(lines: Seq<Seq<char>>, in_package: bool) -> Option<Seq<char>>
    decreases lines.len(),
{
    if lines.len() == 0 {
        None
    } else {
        let line = trimmed(lines[0]);
        if line.len() > 0 && line[0] == '[' {
            package_name_from(lines.drop_first(), line == "[package]"@)
        } else if in_package && name_value(line) is Some {
            name_value(line)
        } else {
            package_name_from(lines.drop_first(), in_package)
        }
    }
}

/// The package name of a manifest with `content`.
pub open spec fn package_name_in(content: Seq<char>) -> Option<Seq<char>> {
    package_name_from(lines(content), false)
}

fn name_value_of(line: &Vec<char>) -> (value: Option<Vec<char>>)
    ensures
        match value {
            Some(v) => name_value(line@) == Some(v@),
            None => name_value(line@) is None,
        },
{
    let key = chars_of("name");
    if !starts_with_chars(line, &key) {
        return None;
    }
    let rest = trim_start_white_space(&slice_chars(line, key.len(), line.len()));
    proof {
        assert(line@.subrange(key@.len() as int, line@.len() as int) =~= line@.skip(key@.len() as int));
    }
    if rest.len() == 0 || rest[0] != '=' {
        return None;
    }
    let after = slice_chars(&rest, 1, rest.len());
    proof {
        assert(rest@.subrange(1, rest@.len() as int) =~= rest@.skip(1));
    }
    let value = trim_char_chars(&trim_char_chars(&trim_white_space(&after), '"'), '\'');
    if value.len() > 0 {
        Some(value)
    } else {
        None
    }
}

/// The package name of a manifest with `content`, read by hand from the
/// `[package]` section.
pub fn package_name(content: &str) -> (name: Option<String>)
    ensures
        match name {
            Some(n) => package_name_in(content@) == Some(n@),
            None => package_name_in(content@) is None,
        },
{
    let all = lines_of(&chars_of(content));
    let header = chars_of("[package]");
    let ghost ls = views(all@);
    let mut in_package = false;
    let mut i: usize = 0;
    assert(ls.skip(0) =~= ls);
    while i < all.len()
        invariant
            i <= all.len(),
            ls == views(all@),
            ls == lines(content@),
            header@ == "[package]"@,
            package_name_in(content@) == package_name_from(ls.skip(i as int), in_package),
        decreases all.len() - i,
    {
        let line = trim_white_space(&all[i]);
        proof {
            assert(ls.skip(i as int)[0] == all@[i as int]@);
            assert(ls.skip(i as int).drop_first() =~= ls.skip(i + 1));
        }
        if line.len() > 0 && line[0] == '[' {
            in_package = chars_eq(&line, &header);
        } else if in_package {
            match name_value_of(&line) {
                Some(value) => {
                    return Some(string_of(&value));
                },
                None => {},
            }
        }
        i = i + 1;
    }
    None
}

/// The line of a shell profile that defines an alias for `name`.
pub open spec fn alias_prefix(name: Seq<char>) -> Seq<char> {
    "alias "@ + name + "="@
}

/// Whether a profile with `profile` already defines `alias <name>=` on a line,
/// white space before it allowed.
pub open spec fn has_alias(profile: Seq<char>, name: Seq<char>) -> bool {
    exists|i: int|
        0 <= i < lines(profile).len() && starts_with(
            trim_start(#[trigger] lines(profile)[i]),
            alias_prefix(name),
        )
}

/// Whether `zshrc` already defines an alias for `name`.
pub fn alias_exists(zshrc: &str, name: &str) -> (exists: bool)
    ensures
        exists == has_alias(zshrc@, name@),
{
    let mut prefix = String::new();
    push_str(&mut prefix, "alias ");
    push_str(&mut prefix, name);
    push_str(&mut prefix, "=");
    let prefix = chars_of(prefix.as_str());
    let all = lines_of(&chars_of(zshrc));
    let mut i: usize = 0;
    while i < all.len()
        invariant
            i <= all.len(),
            views(all@) == lines(zshrc@),
            prefix@ == alias_prefix(name@),
            forall|j: int| 0 <= j < i ==> !starts_with(trim_start(#[trigger] lines(zshrc@)[j]), alias_prefix(name@)),
        decreases all.len() - i,
    {
        proof {
            assert(lines(zshrc@)[i as int] == all@[i as int]@);
        }
        if starts_with_chars(&trim_start_white_space(&all[i]), &prefix) {
            return true;
        }
        i = i + 1;
    }
    false
}

/// The message of a tool whose manifest gives no package name.
pub const UNREADABLE_PACKAGE: &'static str = "could not parse package name from Cargo.toml";

/// The message of a build that succeeded but left no binary.
pub const MISSING_BINARY: &'static str = "build succeeded but binary not found";

/// What happened to a tool.
#[derive(Debug, PartialEq, Eq)]
pub enum Outcome {
    NewlyInstalled,
    Updated,
    Unchanged,
    Failed(String),
}

/// What a successful build did, judged by the binary's hash before and
/// after: a binary that is missing afterwards is a failure, one that was
/// missing before is new, and otherwise it changed or did not.
pub fn build_outcome(before: Option<u64>, after: Option<u64>) -> (outcome: Outcome)
    ensures
        match (before, after) {
            (_, None) => outcome matches Outcome::Failed(message) && message@ == MISSING_BINARY@,
            (None, Some(_)) => outcome == Outcome::NewlyInstalled,
            (Some(b), Some(a)) => outcome == if b != a {
                Outcome::Updated
            } else {
                Outcome::Unchanged
            },
        },
{
    match (before, after) {
        (_, None) => Outcome::Failed(MISSING_BINARY.to_owned()),
        (None, Some(_)) => Outcome::NewlyInstalled,
        (Some(b), Some(a)) => if b != a {
            Outcome::Updated
        } else {
            Outcome::Unchanged
        },
    }
}

/// A tool with what happened to it and where its binary is, when known.
pub struct ToolResult {
    pub name: String,
    pub outcome: Outcome,
    pub binary: Option<String>,
}

/// Whether a tool gets a new alias: it built, its binary is known, and the
/// profile has no alias of its name yet.
pub open spec fn gets_alias(profile: Seq<char>, result: ToolResult) -> bool {
    &&& !(result.outcome is Failed)
    &&& result.binary is Some
    &&& !has_alias(profile, result.name@)
}

/// The alias line for a tool.
pub open spec fn alias_line(result: ToolResult) -> Seq<char> {
    "alias "@ + result.name@ + "=\""@ + result.binary.unwrap()@ + "\""@
}

/// The names of the tools that get a new alias, in order.
pub open spec fn aliased_names(profile: Seq<char>, results: Seq<ToolResult>) -> Seq<Seq<char>>
    decreases results.len(),
{
    if results.len() == 0 {
        Seq::empty()
    } else {
        aliased_names(profile, results.drop_last()) + if gets_alias(profile, results.last()) {
            seq![results.last().name@]
        } else {
            Seq::empty()
        }
    }
}

/// The alias lines for the tools that get a new alias, in order.
pub open spec fn alias_lines(profile: Seq<char>, results: Seq<ToolResult>) -> Seq<Seq<char>>
    decreases results.len(),
{
    if results.len() == 0 {
        Seq::empty()
    } else {
        alias_lines(profile, results.drop_last()) + if gets_alias(profile, results.last()) {
            seq![alias_line(results.last())]
        } else {
            Seq::empty()
        }
    }
}

/// What is appended to the profile: nothing when no tool gets an alias;
/// else a line feed when the profile does not end in one, a blank line, a
/// comment, and the alias lines.
pub open spec fn alias_block(profile: Seq<char>, results: Seq<ToolResult>) -> Seq<char> {
    let added = alias_lines(profile, results);
    if added.len() == 0 {
        Seq::empty()
    } else {
        (if profile.len() > 0 && profile.last() != '\n' {
            "\n"@
        } else {
            Seq::<char>::empty()
        }) + "\n# toolinstall managed aliases\n"@ + joined(added, "\n"@) + "\n"@
    }
}

/// The aliases to add to a profile: the text to append, and the names of the
/// tools that get an alias.
pub struct AliasPlan {
    pub block: String,
    pub created: Vec<String>,
}

/// Plans the aliases for `results` in a profile with `existing`.
pub fn plan_aliases(existing: &str, results: &Vec<ToolResult>) -> (plan: AliasPlan)
    ensures
        plan.block@ == alias_block(existing@, results@),
        plan.created@.map_values(|name: String| name@) == aliased_names(existing@, results@),
{
    let mut new_lines: Vec<String> = Vec::new();
    let mut created: Vec<String> = Vec::new();
    let mut i: usize = 0;
    while i < results.len()
        invariant
            i <= results.len(),
            new_lines@.map_values(|line: String| line@) == alias_lines(existing@, results@.take(i as int)),
            created@.map_values(|name: String| name@) == aliased_names(existing@, results@.take(i as int)),
        decreases results.len() - i,
    {
        let result = &results[i];
        proof {
            assert(results@.take(i + 1).drop_last() =~= results@.take(i as int));
            assert(results@.take(i + 1).last() == results@[i as int]);
        }
        let failed = match &result.outcome {
            Outcome::Failed(_) => true,
            _ => false,
        };
        match &result.binary {
            Some(binary) => {
                if !failed && !alias_exists(existing, result.name.as_str()) {
                    let mut line = String::new();
                    push_str(&mut line, "alias ");
                    push_str(&mut line, result.name.as_str());
                    push_str(&mut line, "=\"");
                    push_str(&mut line, binary.as_str());
                    push_str(&mut line, "\"");
                    let name = result.name.clone();
                    proof {
                        assert(new_lines@.push(line).map_values(|line: String| line@) =~= new_lines@.map_values(
                            |line: String| line@,
                        ).push(line@));
                        assert(created@.push(name).map_values(|name: String| name@)
                            =~= created@.map_values(|name: String| name@).push(name@));
                    }
                    new_lines.push(line);
                    created.push(name);
                }
            },
            None => {},
        }
        proof {
            assert(new_lines@.map_values(|line: String| line@) =~= alias_lines(existing@, results@.take(i + 1)));
            assert(created@.map_values(|name: String| name@) =~= aliased_names(existing@, results@.take(i + 1)));
        }
        i = i + 1;
    }
    proof {
        assert(results@.take(i as int) =~= results@);
    }
    let mut block = String::new();
    if new_lines.len() > 0 {
        if !existing.is_empty() && !ends_with_line_feed(existing) {
            push_str(&mut block, "\n");
        }
        let ghost lead = block@;
        push_str(&mut block, "\n# toolinstall managed aliases\n");
        push_joined(&mut block, &new_lines, "\n");
        push_str(&mut block, "\n");
        proof {
            let added = alias_lines(existing@, results@);
            assert(added.len() > 0);
            assert(lead =~= (if existing@.len() > 0 && existing@.last() != '\n' {
                "\n"@
            } else {
                Seq::<char>::empty()
            }));
            assert(block@ =~= lead + "\n# toolinstall managed aliases\n"@ + joined(added, "\n"@) + "\n"@);
        }
    } else {
        proof {
            assert(block@ =~= alias_block(existing@, results@));
        }
    }
    AliasPlan { block, created }
}

fn ends_with_line_feed(s: &str) -> (ends: bool)
    ensures
        ends == (s@.len() > 0 && s@.last() == '\n'),
{
    let chars = chars_of(s);
    chars.len() > 0 && chars[chars.len() - 1] == '\n'
}

/// Which group of the summary an outcome belongs to.
pub open spec fn outcome_group(outcome: Outcome) -> int {
    match outcome {
        Outcome::NewlyInstalled => 0,
        Outcome::Updated => 1,
        Outcome::Unchanged => 2,
        Outcome::Failed(_) => 3,
    }
}

/// The names of the tools whose outcome is in `group`, in order.
pub open spec fn names_in_group(results: Seq<ToolResult>, group: int) -> Seq<Seq<char>>
    decreases results.len(),
{
    if results.len() == 0 {
        Seq::empty()
    } else {
        names_in_group(results.drop_last(), group) + if outcome_group(results.last().outcome)
            == group {
            seq![results.last().name@]
        } else {
            Seq::empty()
        }
    }
}

/// The summary lines of the failed tools, in order.
pub open spec fn failure_lines(results: Seq<ToolResult>) -> Seq<Seq<char>>
    decreases results.len(),
{
    if results.len() == 0 {
        Seq::empty()
    } else {
        failure_lines(results.drop_last()) + match results.last().outcome {
            Outcome::Failed(message) => seq!["  - "@ + results.last().name@ + ": "@ + message@],
            _ => Seq::empty(),
        }
    }
}

/// A summary line for a group: its label and the names, or `none`.
pub open spec fn group_line(label: Seq<char>, names: Seq<Seq<char>>) -> Seq<char> {
    label + ": "@ + if names.len() == 0 {
        "none"@
    } else {
        joined(names, ", "@)
    }
}

/// The lines of the summary.
pub open spec fn summary(results: Seq<ToolResult>, created: Seq<Seq<char>>) -> Seq<Seq<char>> {
    let failures = failure_lines(results);
    seq![
        "==================== Summary ===================="@,
        group_line("Newly installed"@, names_in_group(results, 0)),
        group_line("Updated"@, names_in_group(results, 1)),
        group_line("Unchanged"@, names_in_group(results, 2)),
    ] + (if failures.len() > 0 {
        seq!["Failed:"@] + failures
    } else {
        Seq::empty()
    }) + if created.len() == 0 {
        seq!["Aliases created: none"@]
    } else {
        seq![
            "Aliases created: "@ + joined(created, ", "@),
            "  Run `source ~/.zshrc` (or open a new shell) to use them."@,
        ]
    }
}

fn group_of(outcome: &Outcome) -> (group: u8)
    ensures
        group == outcome_group(*outcome),
{
    match outcome {
        Outcome::NewlyInstalled => 0,
        Outcome::Updated => 1,
        Outcome::Unchanged => 2,
        Outcome::Failed(_) => 3,
    }
}

fn names_of_group(results: &Vec<ToolResult>, group: u8) -> (names: Vec<String>)
    ensures
        names@.map_values(|name: String| name@) == names_in_group(results@, group as int),
{
    let mut names: Vec<String> = Vec::new();
    let mut i: usize = 0;
    while i < results.len()
        invariant
            i <= results.len(),
            names@.map_values(|name: String| name@) == names_in_group(results@.take(i as int), group as int),
        decreases results.len() - i,
    {
        proof {
            assert(results@.take(i + 1).drop_last() =~= results@.take(i as int));
            assert(results@.take(i + 1).last() == results@[i as int]);
        }
        if group_of(&results[i].outcome) == group {
            let name = results[i].name.clone();
            proof {
                assert(names@.push(name).map_values(|name: String| name@) =~= names@.map_values(
                    |name: String| name@,
                ).push(name@));
            }
            names.push(name);
        }
        proof {
            assert(names@.map_values(|name: String| name@) =~= names_in_group(results@.take(i + 1), group as int));
        }
        i = i + 1;
    }
    proof {
        assert(results@.take(i as int) =~= results@);
    }
    names
}

fn group_text(label: &str, names: &Vec<String>) -> (line: String)
    ensures
        line@ == group_line(label@, names@.map_values(|name: String| name@)),
{
    let mut line = String::new();
    push_str(&mut line, label);
    push_str(&mut line, ": ");
    if names.len() == 0 {
        push_str(&mut line, "none");
    } else {
        push_joined(&mut line, names, ", ");
    }
    line
}

/// The lines of the summary of `results`, with the aliases `created`.
pub fn summary_lines(results: &Vec<ToolResult>, created: &Vec<String>) -> (text: Vec<String>)
    ensures
        text@.map_values(|line: String| line@) == summary(results@, created@.map_values(|name: String| name@)),
{
    let mut text: Vec<String> = Vec::new();
    let ghost created_names = created@.map_values(|name: String| name@);
    text.push("==================== Summary ====================".to_owned());
    text.push(group_text("Newly installed", &names_of_group(results, 0)));
    text.push(group_text("Updated", &names_of_group(results, 1)));
    text.push(group_text("Unchanged", &names_of_group(results, 2)));
    let ghost head = text@.map_values(|line: String| line@);
    proof {
        assert(head =~= seq![
            "==================== Summary ===================="@,
            group_line("Newly installed"@, names_in_group(results@, 0)),
            group_line("Updated"@, names_in_group(results@, 1)),
            group_line("Unchanged"@, names_in_group(results@, 2)),
        ]);
    }
    let mut failures: Vec<String> = Vec::new();
    let mut i: usize = 0;
    while i < results.len()
        invariant
            i <= results.len(),
            failures@.map_values(|line: String| line@) == failure_lines(results@.take(i as int)),
        decreases results.len() - i,
    {
        proof {
            assert(results@.take(i + 1).drop_last() =~= results@.take(i as int));
            assert(results@.take(i + 1).last() == results@[i as int]);
        }
        match &results[i].outcome {
            Outcome::Failed(message) => {
                let mut line = String::new();
                push_str(&mut line, "  - ");
                push_str(&mut line, results[i].name.as_str());
                push_str(&mut line, ": ");
                push_str(&mut line, message.as_str());
                proof {
                    assert(failures@.push(line).map_values(|line: String| line@) =~= failures@.map_values(
                        |line: String| line@,
                    ).push(line@));
                }
                failures.push(line);
            },
            _ => {},
        }
        proof {
            assert(failures@.map_values(|line: String| line@) =~= failure_lines(results@.take(i + 1)));
        }
        i = i + 1;
    }
    proof {
        assert(results@.take(i as int) =~= results@);
    }
    let ghost before_failures = text@.map_values(|line: String| line@);
    if failures.len() > 0 {
        text.push("Failed:".to_owned());
        let mut k: usize = 0;
        while k < failures.len()
            invariant
                k <= failures.len(),
                text@.map_values(|line: String| line@) == before_failures + seq!["Failed:"@]
                    + failures@.map_values(|line: String| line@).take(k as int),
            decreases failures.len() - k,
        {
            let line = failures[k].clone();
            proof {
                assert(failures@.map_values(|line: String| line@).take(k + 1) =~= failures@.map_values(
                    |line: String| line@,
                ).take(k as int).push(line@));
                assert(text@.push(line).map_values(|line: String| line@) =~= text@.map_values(
                    |line: String| line@,
                ).push(line@));
            }
            text.push(line);
            k = k + 1;
        }
        proof {
            assert(failures@.map_values(|line: String| line@).take(k as int) =~= failures@.map_values(
                |line: String| line@,
            ));
        }
    }
    let ghost before_aliases = text@.map_values(|line: String| line@);
    proof {
        let failures_view = failure_lines(results@);
        assert(before_aliases =~= head + (if failures_view.len() > 0 {
            seq!["Failed:"@] + failures_view
        } else {
            Seq::empty()
        }));
    }
    if created.len() == 0 {
        text.push("Aliases created: none".to_owned());
    } else {
        let mut line = String::new();
        push_str(&mut line, "Aliases created: ");
        push_joined(&mut line, created, ", ");
        text.push(line);
        text.push("  Run `source ~/.zshrc` (or open a new shell) to use them.".to_owned());
    }
    proof {
        let aliases = if created_names.len() == 0 {
            seq!["Aliases created: none"@]
        } else {
            seq![
                "Aliases created: "@ + joined(created_names, ", "@),
                "  Run `source ~/.zshrc` (or open a new shell) to use them."@,
            ]
        };
        assert(text@.map_values(|line: String| line@) =~= before_aliases + aliases);
        assert(text@.map_values(|line: String| line@) =~= summary(results@, created_names));
    }
    text
}

/// The names of `results`, in order.
pub open spec fn tool_names(results: Seq<ToolResult>) -> Seq<Seq<char>> {
    results.map_values(|result: ToolResult| result.name@)
}

/// The names in a group of the summary are those of the tools that `keep`
/// picks, in order, for the `keep` that matches the group.
proof fn lemma_group_names(results: Seq<ToolResult>, group: int, keep: spec_fn(ToolResult) -> bool)
    requires
        forall|r: ToolResult| #[trigger] keep(r) == (outcome_group(r.outcome) == group),
    ensures
        names_in_group(results, group) == tool_names(results.filter(keep)),
    decreases results.len(),
{
    if results.len() > 0 {
        let init = results.drop_last();
        lemma_group_names(init, group, keep);
        assert(results =~= init.push(results.last()));
        init.lemma_filter_push(results.last(), keep);
        assert(results.filter(keep) == if keep(results.last()) {
            init.filter(keep).push(results.last())
        } else {
            init.filter(keep)
        });
        if keep(results.last()) {
            assert(tool_names(init.filter(keep).push(results.last())) =~= tool_names(init.filter(keep)).push(
                results.last().name@,
            ));
            assert(names_in_group(results, group) =~= names_in_group(init, group) + seq![results.last().name@]);
        }
    } else {
        assert(tool_names(results.filter(keep)) =~= Seq::<Seq<char>>::empty());
    }
}

/// The summary lists under "Newly installed", "Updated" and "Unchanged"
/// exactly the tools whose outcome is that, in the order they were built.
pub proof fn law_summary_lists_each_outcome(results: Seq<ToolResult>, created: Seq<Seq<char>>)
    ensures
        summary(results, created)[1] == group_line(
            "Newly installed"@,
            tool_names(results.filter(|r: ToolResult| r.outcome is NewlyInstalled)),
        ),
        summary(results, created)[2] == group_line(
            "Updated"@,
            tool_names(results.filter(|r: ToolResult| r.outcome is Updated)),
        ),
        summary(results, created)[3] == group_line(
            "Unchanged"@,
            tool_names(results.filter(|r: ToolResult| r.outcome is Unchanged)),
        ),
{
    lemma_group_names(results, 0, |r: ToolResult| r.outcome is NewlyInstalled);
    lemma_group_names(results, 1, |r: ToolResult| r.outcome is Updated);
    lemma_group_names(results, 2, |r: ToolResult| r.outcome is Unchanged);
}

} // verus!
