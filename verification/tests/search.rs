use gitflex::ui::search::{name_segments, EditRequest, Search};

fn typed(text: &str) -> Search {
    let mut search = Search::new();
    for character in text.chars() {
        assert!(search.edit(EditRequest::InsertChar(character)));
    }
    search
}

#[test]
fn typing_inserts_at_the_cursor() {
    let mut search = typed("ab");
    assert_eq!(search.query(), "ab");
    assert_eq!(search.cursor(), 2);
    assert!(!search.edit(EditRequest::GoToStart));
    assert_eq!(search.cursor(), 0);
    assert!(search.edit(EditRequest::InsertChar('x')));
    assert_eq!(search.query(), "xab");
    assert_eq!(search.cursor(), 1);
    assert!(!search.edit(EditRequest::GoToStart));
    assert!(!search.edit(EditRequest::DeletePrevChar));
    assert_eq!(search.query(), "xab");
}

#[test]
fn deleting_words_and_lines_edits_the_text() {
    let mut search = typed("feature one");
    assert!(search.edit(EditRequest::DeletePrevWord));
    assert_eq!(search.query(), "feature ");
    assert!(search.edit(EditRequest::DeletePrevChar));
    assert_eq!(search.query(), "feature");
    assert!(search.edit(EditRequest::DeleteLine));
    assert_eq!(search.query(), "");
    assert_eq!(search.cursor(), 0);
    assert!(!search.is_active());
    assert!(!search.edit(EditRequest::DeleteLine));
}

#[test]
fn deleting_till_the_end_at_the_end_reports_a_change_of_an_unchanged_text() {
    let mut search = typed("main");
    assert!(search.edit(EditRequest::DeleteTillEnd));
    assert_eq!(search.query(), "main");
    assert!(search.edit(EditRequest::SetCursor(1)) == false);
    assert_eq!(search.cursor(), 1);
    assert!(search.edit(EditRequest::DeleteTillEnd));
    assert_eq!(search.query(), "m");
}

#[test]
fn yank_inserts_what_was_last_cut() {
    let mut search = typed("feature one");
    assert!(!search.edit(EditRequest::Yank));
    assert!(search.edit(EditRequest::DeletePrevWord));
    assert_eq!(search.query(), "feature ");
    assert!(search.edit(EditRequest::GoToStart) == false || search.cursor() == 0);
    assert!(search.edit(EditRequest::Yank));
    assert_eq!(search.query(), "onefeature ");
    assert_eq!(search.cursor(), 3);
}

#[test]
fn a_search_starts_with_the_cursor_after_its_text() {
    let search = Search::with_query("gam".to_owned());
    assert_eq!(search.query(), "gam");
    assert_eq!(search.cursor(), 3);
    assert!(search.is_active());
    let empty = Search::new();
    assert_eq!(empty.cursor(), 0);
    assert!(!empty.matches("main"));
}

#[test]
fn the_search_finds_literal_text_ignoring_case() {
    let search = Search::with_query("FEAT.".to_owned());
    assert!(search.matches("my-feat.x"));
    assert!(!search.matches("my-featx"));
    assert!(Search::with_query("feature".to_owned()).matches("FEATURE-two"));
}

#[test]
fn matches_are_highlighted_by_byte_range() {
    let search = Search::with_query("FEAT".to_owned());
    assert_eq!(search.match_ranges("my-feature-feat"), vec![(3, 7), (11, 15)]);
    assert_eq!(
        search.highlight("my-feature-feat"),
        vec![(0, 3, false), (3, 7, true), (7, 11, false), (11, 15, true)]
    );
    assert_eq!(search.highlight("main"), vec![(0, 4, false)]);
    assert_eq!(Search::new().highlight("main"), vec![(0, 4, false)]);
    assert_eq!(Search::new().highlight(""), vec![]);
    assert_eq!(Search::with_query("é".to_owned()).highlight("aÉb"), vec![(0, 1, false), (1, 3, true), (3, 4, false)]);
}

#[test]
fn segments_cover_the_name_around_the_ranges() {
    assert_eq!(name_segments(5, &vec![(0, 2)]), vec![(0, 2, true), (2, 5, false)]);
    assert_eq!(name_segments(5, &vec![(1, 2), (2, 5)]), vec![(0, 1, false), (1, 2, true), (2, 5, true)]);
    assert_eq!(name_segments(0, &vec![]), vec![]);
}
