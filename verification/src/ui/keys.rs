//! Which action a key press asks of the picker.

use vstd::prelude::*;

use crate::ui::app::{Action, Confirmation};
use crate::ui::search::EditRequest;

verus! {

/// The keys that the picker tells apart.
#[derive(Clone, Copy, Debug, PartialEq, Eq, Structural)]
pub enum KeyName {
    Esc,
    Down,
    Up,
    Left,
    Right,
    Backspace,
    Delete,
    Enter,
    Char(char),
    Other,
}

/// A key event: the key, whether it was pressed (not released or repeated),
/// whether Super or Control was held, and whether Alt or Meta was held.
#[derive(Clone, Copy, Debug, PartialEq, Eq, Structural)]
pub struct KeyPress {
    pub key: KeyName,
    pub pressed: bool,
    pub command: bool,
    pub word: bool,
}

/// The search edit that a key held with Alt or Meta makes: a word at a time.
pub open spec fn word_edit(key: KeyName) -> Option<EditRequest> {
    match key {
        KeyName::Left => Some(EditRequest::GoToPrevWord),
        KeyName::Right => Some(EditRequest::GoToNextWord),
        KeyName::Backspace => Some(EditRequest::DeletePrevWord),
        KeyName::Delete => Some(EditRequest::DeleteNextWord),
        _ => None,
    }
}

/// The action that `press` asks for. Escape cancels, the arrows move, space
/// toggles, Enter confirms (a modified confirmation with Super or Control);
/// any other key edits the search, a word at a time with Alt or Meta, else
/// as `edit`, the input's own reading of the key, says. Only presses count.
pub open spec fn key_action(press: KeyPress, edit: Option<EditRequest>) -> Option<Action> {
    if !press.pressed {
        None
    } else {
        match press.key {
            KeyName::Esc => Some(Action::Cancel),
            KeyName::Down => Some(Action::Next),
            KeyName::Up => Some(Action::Previous),
            KeyName::Enter => Some(
                Action::Confirm(
                    if press.command {
                        Confirmation::Modified
                    } else {
                        Confirmation::Plain
                    },
                ),
            ),
            KeyName::Char(c) if c == ' ' => Some(Action::Toggle),
            _ => {
                let request = if press.word && word_edit(press.key) is Some {
                    word_edit(press.key)
                } else {
                    edit
                };
                match request {
                    Some(request) => Some(Action::Search(request)),
                    None => None,
                }
            },
        }
    }
}

/// The action that `press` asks for; `edit` is the search edit that the
/// input itself reads from the key, if any.
pub fn action_for_key(press: KeyPress, edit: Option<EditRequest>) -> (action: Option<Action>)
    ensures
        action == key_action(press, edit),
{
    if !press.pressed {
        return None;
    }
    match press.key {
        KeyName::Esc => Some(Action::Cancel),
        KeyName::Down => Some(Action::Next),
        KeyName::Up => Some(Action::Previous),
        KeyName::Enter => {
            let confirmation = if press.command {
                Confirmation::Modified
            } else {
                Confirmation::Plain
            };
            Some(Action::Confirm(confirmation))
        },
        KeyName::Char(' ') => Some(Action::Toggle),
        key => {
            let word = if press.word {
                match key {
                    KeyName::Left => Some(EditRequest::GoToPrevWord),
                    KeyName::Right => Some(EditRequest::GoToNextWord),
                    KeyName::Backspace => Some(EditRequest::DeletePrevWord),
                    KeyName::Delete => Some(EditRequest::DeleteNextWord),
                    _ => None,
                }
            } else {
                None
            };
            let request = match word {
                Some(request) => Some(request),
                None => edit,
            };
            match request {
                Some(request) => Some(Action::Search(request)),
                None => None,
            }
        },
    }
}

/// With Alt or Meta held, the arrows and the deleting keys work a word at a
/// time in their own direction: Left and Backspace towards the start, Right
/// and Delete towards the end, whatever the input would make of the key.
pub proof fn law_word_keys_keep_their_direction(press: KeyPress, edit: Option<EditRequest>)
    requires
        press.pressed,
        press.word,
    ensures
        press.key == KeyName::Left ==> key_action(press, edit) == Some(Action::Search(EditRequest::GoToPrevWord)),
        press.key == KeyName::Right ==> key_action(press, edit) == Some(Action::Search(EditRequest::GoToNextWord)),
        press.key == KeyName::Backspace ==> key_action(press, edit) == Some(
            Action::Search(EditRequest::DeletePrevWord),
        ),
        press.key == KeyName::Delete ==> key_action(press, edit) == Some(
            Action::Search(EditRequest::DeleteNextWord),
        ),
{
}

/// Without Alt or Meta, a key that does not move, toggle, confirm or cancel
/// edits the search as the input reads it.
pub proof fn law_plain_keys_edit_as_read(press: KeyPress, edit: EditRequest)
    requires
        press.pressed,
        !press.word,
        press.key != KeyName::Esc,
        press.key != KeyName::Down,
        press.key != KeyName::Up,
        press.key != KeyName::Enter,
        press.key != KeyName::Char(' '),
    ensures
        key_action(press, Some(edit)) == Some(Action::Search(edit)),
{
}

/// Escape cancels, Down and Up move, and Enter confirms, modified exactly
/// when Super or Control is held; a key that is not pressed does nothing.
pub proof fn law_keys_that_move_confirm_and_cancel(press: KeyPress, edit: Option<EditRequest>)
    ensures
        !press.pressed ==> key_action(press, edit) is None,
        press.pressed && press.key == KeyName::Esc ==> key_action(press, edit) == Some(Action::Cancel),
        press.pressed && press.key == KeyName::Down ==> key_action(press, edit) == Some(Action::Next),
        press.pressed && press.key == KeyName::Up ==> key_action(press, edit) == Some(Action::Previous),
        press.pressed && press.key == KeyName::Enter ==> key_action(press, edit) == Some(
            Action::Confirm(
                if press.command {
                    Confirmation::Modified
                } else {
                    Confirmation::Plain
                },
            ),
        ),
{
}

} // verus!
