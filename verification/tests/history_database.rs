use gitflex::history::database::rank_from_database;
use gitflex::history::{Error, HistoryStore, MergeHistory, RebaseHistory, SwitchHistory};

#[test]
fn ranks_must_be_positive() {
    assert_eq!(rank_from_database(3), Ok(3));
    assert_eq!(rank_from_database(0), Err(Error::InvalidRank(0)));
    assert_eq!(rank_from_database(-4), Err(Error::InvalidRank(-4)));
}

#[test]
fn switch_rows_give_the_latest_rank_and_report_the_first_invalid_one() {
    let history = SwitchHistory::from_rows(vec![
        ("feature".to_string(), 1),
        ("review".to_string(), 2),
        ("feature".to_string(), 3),
    ])
    .expect("rows should be read");
    assert_eq!(history.rank("feature"), Some(3));
    assert_eq!(history.rank("review"), Some(2));
    assert_eq!(history.rank("unknown"), None);
    assert_eq!(
        SwitchHistory::from_rows(vec![
            ("a".to_string(), 1),
            ("b".to_string(), 0),
            ("c".to_string(), -1),
        ])
        .err(),
        Some(Error::InvalidRank(0))
    );
}

#[test]
fn merge_rows_are_ranked_per_destination_and_source() {
    let history = MergeHistory::from_rows(vec![
        ("main".to_string(), "feature".to_string(), 3),
        ("release".to_string(), "feature".to_string(), 2),
    ])
    .expect("rows should be read");
    assert_eq!(history.rank("main", "feature"), Some(3));
    assert_eq!(history.rank("release", "feature"), Some(2));
    assert_eq!(history.rank("main", "unknown"), None);
    assert_eq!(
        MergeHistory::from_rows(vec![("a".to_string(), "b".to_string(), -2)]).err(),
        Some(Error::InvalidRank(-2))
    );
}

#[test]
fn rebase_rows_give_the_last_target_of_each_source() {
    let history = RebaseHistory::from_rows(vec![
        ("feature".to_string(), "main".to_string()),
        ("other".to_string(), "develop".to_string()),
        ("feature".to_string(), "release".to_string()),
    ]);
    assert_eq!(history.target_for("feature"), Some("release"));
    assert_eq!(history.target_for("other"), Some("develop"));
    assert_eq!(history.target_for("missing"), None);
    assert_eq!(RebaseHistory::default().target_for("feature"), None);
}

#[test]
fn test_histories_rank_the_first_branch_highest() {
    let history = SwitchHistory::for_test(["newest", "middle", "oldest"]);
    assert_eq!(history.rank("newest"), Some(3));
    assert_eq!(history.rank("oldest"), Some(1));
    let merges = MergeHistory::for_test([("main", "a"), ("main", "b")]);
    assert_eq!(merges.rank("main", "a"), Some(2));
    assert_eq!(merges.rank("main", "b"), Some(1));
}

#[test]
fn the_database_lives_in_the_common_directory() {
    assert_eq!(
        HistoryStore::new("/repo/.git/").database_path(),
        "/repo/.git/gitflex-history.sqlite3"
    );
    assert_eq!(
        HistoryStore::new("/repo/.git").database_path(),
        "/repo/.git/gitflex-history.sqlite3"
    );
    assert_eq!(HistoryStore::new("").database_path(), "gitflex-history.sqlite3");
}
