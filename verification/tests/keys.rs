use gitflex::ui::app::{Action, Confirmation};
use gitflex::ui::keys::{action_for_key, KeyName, KeyPress};
use gitflex::ui::search::EditRequest;

fn press(key: KeyName) -> KeyPress {
    KeyPress { key, pressed: true, command: false, word: false }
}

#[test]
fn keys_move_toggle_confirm_and_cancel() {
    assert_eq!(action_for_key(press(KeyName::Esc), None), Some(Action::Cancel));
    assert_eq!(action_for_key(press(KeyName::Down), None), Some(Action::Next));
    assert_eq!(action_for_key(press(KeyName::Up), None), Some(Action::Previous));
    assert_eq!(
        action_for_key(press(KeyName::Char(' ')), Some(EditRequest::InsertChar(' '))),
        Some(Action::Toggle)
    );
    assert_eq!(action_for_key(press(KeyName::Enter), None), Some(Action::Confirm(Confirmation::Plain)));
    let modified = KeyPress { command: true, ..press(KeyName::Enter) };
    assert_eq!(action_for_key(modified, None), Some(Action::Confirm(Confirmation::Modified)));
}

#[test]
fn other_keys_edit_the_search() {
    assert_eq!(
        action_for_key(press(KeyName::Char('a')), Some(EditRequest::InsertChar('a'))),
        Some(Action::Search(EditRequest::InsertChar('a')))
    );
    assert_eq!(
        action_for_key(press(KeyName::Backspace), Some(EditRequest::DeletePrevChar)),
        Some(Action::Search(EditRequest::DeletePrevChar))
    );
    let word = KeyPress { word: true, ..press(KeyName::Backspace) };
    assert_eq!(
        action_for_key(word, Some(EditRequest::DeletePrevChar)),
        Some(Action::Search(EditRequest::DeletePrevWord))
    );
    let word_left = KeyPress { word: true, ..press(KeyName::Left) };
    assert_eq!(action_for_key(word_left, None), Some(Action::Search(EditRequest::GoToPrevWord)));
    assert_eq!(action_for_key(press(KeyName::Other), None), None);
}

#[test]
fn only_presses_count() {
    let released = KeyPress { pressed: false, ..press(KeyName::Esc) };
    assert_eq!(action_for_key(released, None), None);
}
