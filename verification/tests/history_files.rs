use gitflex::git::merge_history::{InvalidRecord, MergeHistory, MergeRecord};
use gitflex::git::rebase_history::{RebaseHistory, RebaseRecord};
use gitflex::git::switch_history::SwitchHistory;

#[test]
fn parses_destination_scoped_rankings() {
    let history =
        MergeHistory::parse("main\tfeature\t4\nrelease\tfeature\t2\n").expect("history should parse");

    assert_eq!(history.rank("main", "feature"), Some(4));
    assert_eq!(history.rank("release", "feature"), Some(2));
    assert_eq!(history.rank("main", "unknown"), None);
    assert_eq!(history.rank("unknown", "feature"), None);
}

#[test]
fn rejects_malformed_and_duplicate_records() {
    [
        "\tfeature\t0\n",
        "main\t\t0\n",
        "main\tfeature\n",
        "main\tfeature\trecent\n",
        "main\tfeature\t0\textra\n",
    ]
    .into_iter()
    .for_each(|contents| {
        assert_eq!(
            MergeHistory::parse(contents).expect_err("malformed history should be rejected"),
            InvalidRecord { line_number: 1 }
        );
    });
    assert_eq!(
        MergeHistory::parse("main\tfeature\t1\nmain\tfeature\t2\n")
            .expect_err("duplicate merge should be rejected"),
        InvalidRecord { line_number: 2 }
    );
    assert_eq!(
        MergeHistory::parse(&format!("main\tfeature\t{}\n", usize::MAX))
            .expect_err("maximum rank should be rejected"),
        InvalidRecord { line_number: 1 }
    );
}

#[test]
fn recording_assigns_global_recency_and_serializes_by_branch_names() {
    let history = MergeHistory::parse("release\tfeature\t1\nmain\treview\t4\nmain\tfeature\t2\n")
        .expect("history should parse");

    assert_eq!(
        history.record(MergeRecord::new("main", "feature")),
        "main\tfeature\t5\nmain\treview\t4\nrelease\tfeature\t1\n"
    );
}

#[test]
fn parses_and_records_history_in_source_branch_order() {
    let history =
        RebaseHistory::parse("feature-b\tdevelop\nfeature-a\tmain\n").expect("history should parse");

    assert_eq!(history.target_for("feature-a"), Some("main"));
    assert_eq!(history.target_for("feature-b"), Some("develop"));
    assert_eq!(
        history.record(RebaseRecord::new("feature-a", "release")),
        "feature-a\trelease\nfeature-b\tdevelop\n"
    );
}

#[test]
fn rejects_malformed_history_records() {
    let error = RebaseHistory::parse("feature\tmain\textra\n")
        .expect_err("a record with extra fields should be rejected");

    assert_eq!(error, InvalidRecord { line_number: 1 });
}

#[test]
fn parses_and_serializes_history_in_most_recent_order() {
    let history = SwitchHistory::parse("feature-b\nfeature-a\n").expect("history should parse");

    assert_eq!(history.rank("feature-b"), Some(0));
    assert_eq!(history.rank("feature-a"), Some(1));
    assert_eq!(history.rank("unknown"), None);
    assert_eq!(history.serialize(), "feature-b\nfeature-a\n");
}

#[test]
fn rejects_empty_and_duplicate_records() {
    assert_eq!(
        SwitchHistory::parse("feature\n\n").expect_err("empty record should be rejected"),
        gitflex::git::switch_history::InvalidRecord { line_number: 2 }
    );
    assert_eq!(
        SwitchHistory::parse("feature\nfeature\n").expect_err("duplicate record should be rejected"),
        gitflex::git::switch_history::InvalidRecord { line_number: 2 }
    );
}

#[test]
fn recording_a_switch_moves_the_branch_to_the_front() {
    let mut history = SwitchHistory::parse("a\nb\nc\n").expect("history should parse");
    history.record("c");
    assert_eq!(history.serialize(), "c\na\nb\n");
    history.record("new");
    assert_eq!(history.serialize(), "new\nc\na\nb\n");
    assert_eq!(history.rank("b"), Some(3));
}

#[test]
fn empty_history_files_are_empty_histories() {
    assert_eq!(SwitchHistory::parse("").expect("empty file").serialize(), "");
    assert_eq!(MergeHistory::parse("").expect("empty file").rank("a", "b"), None);
    assert_eq!(RebaseHistory::parse("").expect("empty file").target_for("a"), None);
}

#[test]
fn lines_without_a_final_line_feed_and_with_carriage_returns_are_read() {
    let history = SwitchHistory::parse("feature\r\nmain").expect("history should parse");
    assert_eq!(history.serialize(), "feature\nmain\n");
    let merges = MergeHistory::parse("main\tfeature\t7\r\n").expect("history should parse");
    assert_eq!(merges.rank("main", "feature"), Some(7));
}

#[test]
fn what_is_recorded_reads_back() {
    let rebases = RebaseHistory::parse("b\tdevelop\n").expect("history should parse");
    let written = rebases.record(RebaseRecord::new("a", "main"));
    let reread = RebaseHistory::parse(&written).expect("what is written should parse");
    assert_eq!(reread.target_for("a"), Some("main"));
    assert_eq!(reread.target_for("b"), Some("develop"));

    let merges = MergeHistory::parse("main\tb\t3\n").expect("history should parse");
    let written = merges.record(MergeRecord::new("main", "a"));
    let reread = MergeHistory::parse(&written).expect("what is written should parse");
    assert_eq!(reread.rank("main", "a"), Some(4));
    assert_eq!(reread.rank("main", "b"), Some(3));
}

#[test]
fn a_recorded_merge_reads_back_as_the_most_recent() {
    let merges = MergeHistory::parse("main\tb\t3\nrelease\tc\t9\nmain\ta\t1\n").expect("history should parse");
    let written = merges.record(MergeRecord::new("main", "a"));
    let reread = MergeHistory::parse(&written).expect("what is written should parse");
    assert_eq!(reread.rank("main", "a"), Some(10));
    assert_eq!(reread.rank("main", "b"), Some(3));
    assert_eq!(reread.rank("release", "c"), Some(9));
    assert_eq!(reread.rank("main", "c"), None);
}

#[test]
fn recording_a_switch_keeps_each_name_once() {
    let mut history = SwitchHistory::for_test(["a", "", "b"]);
    history.record("");
    assert_eq!(history.serialize(), "\na\nb\n");
    assert_eq!(history.rank(""), Some(0));
    history.record("c");
    assert_eq!(history.serialize(), "c\n\na\nb\n");
    assert_eq!(history.rank("c"), Some(0));
    assert_eq!(history.rank("b"), Some(3));
}

#[test]
fn names_with_carriage_returns_inside_read_back_in_merge_and_rebase_histories() {
    let merges = MergeHistory::parse("ma\rin\tb\t3\n").expect("history should parse");
    let written = merges.record(MergeRecord::new("main", "fe\ra"));
    let reread = MergeHistory::parse(&written).expect("what is written should parse");
    assert_eq!(reread.rank("ma\rin", "b"), Some(3));
    assert_eq!(reread.rank("main", "fe\ra"), Some(4));

    let rebases = RebaseHistory::parse("b\r\tdevelop\n").expect("history should parse");
    let written = rebases.record(RebaseRecord::new("a", "ma\rin"));
    let reread = RebaseHistory::parse(&written).expect("what is written should parse");
    assert_eq!(reread.target_for("a"), Some("ma\rin"));
    assert_eq!(reread.target_for("b\r"), Some("develop"));
}
