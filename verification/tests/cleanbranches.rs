use gitflex::cleanbranches::{list_action, App, ListAction, RowColour};
use gitflex::git::{Checkout, LocalBranch};
use gitflex::ui::keys::{KeyName, KeyPress};

fn branch(name: &str, checkout: Checkout) -> LocalBranch {
    LocalBranch::new(name.to_string(), checkout)
}

fn names(branches: &[LocalBranch]) -> Vec<&str> {
    branches.iter().map(|branch| branch.name()).collect()
}

fn list() -> App {
    App::new(vec![
        branch("feature", Checkout::Available),
        branch("main", Checkout::CurrentWorktree),
        branch("review", Checkout::OtherWorktree),
        branch("topic", Checkout::Available),
    ])
}

#[test]
fn branches_checked_out_nowhere_start_marked() {
    let app = list();
    assert_eq!(app.len(), 4);
    assert_eq!(app.position(), 0);
    assert_eq!(names(&app.branches_to_delete()), ["feature", "topic"]);
    assert_eq!(app.row_text(0), "[x] feature");
    assert_eq!(app.row_text(1), "[-] main (current)");
    assert_eq!(app.row_text(2), "[-] review (other worktree)");
}

#[test]
fn navigation_stops_at_both_ends() {
    let mut app = list();
    app.prev();
    assert_eq!(app.position(), 0);
    for _ in 0..10 {
        app.next();
    }
    assert_eq!(app.position(), 3);
    app.prev();
    assert_eq!(app.position(), 2);
}

#[test]
fn toggling_flips_only_deletable_branches_and_twice_restores() {
    let mut app = list();
    app.toggle();
    assert_eq!(names(&app.branches_to_delete()), ["topic"]);
    assert_eq!(app.row_text(0), "[ ] feature");
    app.toggle();
    assert_eq!(names(&app.branches_to_delete()), ["feature", "topic"]);
    app.next();
    app.toggle();
    assert_eq!(names(&app.branches_to_delete()), ["feature", "topic"]);
}

#[test]
fn rows_are_coloured_by_mark_and_highlight() {
    let mut app = list();
    assert_eq!(app.row_colour(0), RowColour::Red);
    assert_eq!(app.row_colour(1), RowColour::DarkGray);
    app.next();
    assert_eq!(app.row_colour(1), RowColour::Gray);
    app.prev();
    app.toggle();
    assert_eq!(app.row_colour(0), RowColour::Gray);
}

#[test]
fn keys_of_the_list() {
    let press = |key| KeyPress { key, pressed: true, command: false, word: false };
    assert_eq!(list_action(press(KeyName::Char('q'))), Some(ListAction::Quit));
    assert_eq!(list_action(press(KeyName::Esc)), Some(ListAction::Quit));
    assert_eq!(list_action(press(KeyName::Char('j'))), Some(ListAction::Next));
    assert_eq!(list_action(press(KeyName::Down)), Some(ListAction::Next));
    assert_eq!(list_action(press(KeyName::Char('k'))), Some(ListAction::Previous));
    assert_eq!(list_action(press(KeyName::Up)), Some(ListAction::Previous));
    assert_eq!(list_action(press(KeyName::Char(' '))), Some(ListAction::Toggle));
    assert_eq!(list_action(press(KeyName::Enter)), None);
    assert_eq!(
        list_action(KeyPress { command: true, ..press(KeyName::Enter) }),
        Some(ListAction::Delete)
    );
    assert_eq!(list_action(KeyPress { pressed: false, ..press(KeyName::Esc) }), None);
    assert_eq!(list_action(press(KeyName::Char('x'))), None);
}
