//! The `cleanbranches` list: every local branch, those checked out nowhere
//! marked for deletion at the start, one highlighted row, and the marks the
//! user toggles.

use vstd::prelude::*;

use crate::git::{Checkout, LocalBranch};
use crate::text::push_str;
use crate::ui::keys::{KeyName, KeyPress};

verus! {

/// A row of the list: a branch and whether it is marked for deletion.
struct Row {
    branch: LocalBranch,
    selected: bool,
}

/// The colour a row is drawn in.
#[derive(Clone, Copy, Debug, PartialEq, Eq, Structural)]
pub enum RowColour {
    Red,
    Gray,
    DarkGray,
}

/// What a key asks of the list.
#[derive(Clone, Copy, Debug, PartialEq, Eq, Structural)]
pub enum ListAction {
    Quit,
    Next,
    Previous,
    Toggle,
    Delete,
}

/// The action that `press` asks for: `q` or Escape quits, Down or `j` and Up
/// or `k` move, space toggles, and Enter with Super or Control deletes the
/// marked branches. Only presses count.
pub open spec fn list_action_of(press: KeyPress) -> Option<ListAction> {
    if !press.pressed {
        None
    } else {
        match press.key {
            KeyName::Esc => Some(ListAction::Quit),
            KeyName::Down => Some(ListAction::Next),
            KeyName::Up => Some(ListAction::Previous),
            KeyName::Enter => if press.command {
                Some(ListAction::Delete)
            } else {
                None
            },
            KeyName::Char(c) => if c == 'q' {
                Some(ListAction::Quit)
            } else if c == 'j' {
                Some(ListAction::Next)
            } else if c == 'k' {
                Some(ListAction::Previous)
            } else if c == ' ' {
                Some(ListAction::Toggle)
            } else {
                None
            },
            _ => None,
        }
    }
}

/// The action that `press` asks of the list.
pub fn list_action(press: KeyPress) -> (action: Option<ListAction>)
    ensures
        action == list_action_of(press),
{
    if !press.pressed {
        return None;
    }
    match press.key {
        KeyName::Esc | KeyName::Char('q') => Some(ListAction::Quit),
        KeyName::Down | KeyName::Char('j') => Some(ListAction::Next),
        KeyName::Up | KeyName::Char('k') => Some(ListAction::Previous),
        KeyName::Char(' ') => Some(ListAction::Toggle),
        KeyName::Enter => if press.command {
            Some(ListAction::Delete)
        } else {
            None
        },
        _ => None,
    }
}

/// The branches that `rows` marks, in list order.
pub open spec fn marked(rows: Seq<(LocalBranch, bool)>) -> Seq<LocalBranch>
    decreases rows.len(),
{
    if rows.len() == 0 {
        Seq::empty()
    } else {
        marked(rows.drop_last()) + if rows.last().1 {
            seq![rows.last().0]
        } else {
            Seq::empty()
        }
    }
}

/// Whether `branch` can be deleted: it is checked out nowhere.
pub open spec fn deletable(branch: LocalBranch) -> bool {
    branch.checkout_view() == Checkout::Available
}

/// The text of a row: its mark and the branch name, with where the branch is
/// checked out when it is.
pub open spec fn row_text(branch: LocalBranch, selected: bool) -> Seq<char> {
    match branch.checkout_view() {
        Checkout::Available => (if selected {
            "[x] "@
        } else {
            "[ ] "@
        }) + branch.name_view(),
        Checkout::CurrentWorktree => "[-] "@ + branch.name_view() + " (current)"@,
        Checkout::OtherWorktree => "[-] "@ + branch.name_view() + " (other worktree)"@,
    }
}

/// The colour of a row: a branch that cannot be deleted is grey, lighter when
/// highlighted; a marked one red, another one grey.
pub open spec fn row_colour(branch: LocalBranch, selected: bool, highlighted: bool) -> RowColour {
    if !deletable(branch) {
        if highlighted {
            RowColour::Gray
        } else {
            RowColour::DarkGray
        }
    } else if selected {
        RowColour::Red
    } else {
        RowColour::Gray
    }
}

/// `rows` after a toggle of row `p`: its mark flips when its branch can be
/// deleted.
pub open spec fn toggled_rows(rows: Seq<(LocalBranch, bool)>, p: int) -> Seq<(LocalBranch, bool)> {
    rows.update(
        p,
        (rows[p].0, if deletable(rows[p].0) {
            !rows[p].1
        } else {
            rows[p].1
        }),
    )
}

/// The list of branches to clean and the highlighted row.
pub struct App {
    branches: Vec<Row>,
    position: usize,
}

impl App {
    /// Each row: the branch and whether it is marked.
    pub closed spec fn rows(&self) -> Seq<(LocalBranch, bool)> {
        self.branches@.map_values(|row: Row| (row.branch, row.selected))
    }

    /// The highlighted row.
    pub closed spec fn position_view(&self) -> int {
        self.position as int
    }

    /// The list has a row, the highlighted row is one of them, and only
    /// deletable branches are marked.
    pub open spec fn wf(&self) -> bool {
        &&& 0 <= self.position_view() < self.rows().len()
        &&& forall|i: int| 0 <= i < self.rows().len() && (#[trigger] self.rows()[i]).1 ==> deletable(self.rows()[i].0)
    }

    /// The list of `branches`, in their order, each one checked out nowhere
    /// marked, the first row highlighted.
    pub fn new(branches: Vec<LocalBranch>) -> (app: App)
        ensures
            app.rows().len() == branches.len(),
            forall|i: int|
                0 <= i < branches.len() ==> #[trigger] app.rows()[i] == (branches@[i], deletable(branches@[i])),
            app.position_view() == 0,
            branches.len() > 0 ==> app.wf(),
    {
        let ghost input = branches@;
        let total = branches.len();
        let mut rest = branches;
        let mut rows: Vec<Row> = Vec::new();
        let mut k: usize = 0;
        while rest.len() > 0
            invariant
                k + rest.len() == total,
                total == input.len(),
                rest@ == input.skip(k as int),
                rows.len() == k,
                forall|i: int|
                    0 <= i < k ==> (#[trigger] rows@[i]).branch == input[i] && rows@[i].selected == deletable(
                        input[i],
                    ),
            decreases rest.len(),
        {
            let branch = rest.remove(0);
            proof {
                assert(branch == input[k as int]);
                assert(rest@ =~= input.skip(k + 1));
            }
            let selected = branch.is_deletable();
            rows.push(Row { branch, selected });
            k = k + 1;
        }
        App { branches: rows, position: 0 }
    }

    /// Highlights the next row, staying on the last.
    pub fn next(&mut self)
        requires
            old(self).wf(),
        ensures
            final(self).wf(),
            final(self).rows() == old(self).rows(),
            final(self).position_view() == if old(self).position_view() + 1 < old(self).rows().len() {
                old(self).position_view() + 1
            } else {
                old(self).position_view()
            },
    {
        if self.position < self.branches.len() - 1 {
            self.position = self.position + 1;
        }
    }

    /// Highlights the previous row, staying on the first.
    pub fn prev(&mut self)
        requires
            old(self).wf(),
        ensures
            final(self).wf(),
            final(self).rows() == old(self).rows(),
            final(self).position_view() == if old(self).position_view() > 0 {
                old(self).position_view() - 1
            } else {
                0
            },
    {
        if self.position > 0 {
            self.position = self.position - 1;
        }
    }

    /// Flips the mark of the highlighted row, when its branch can be deleted.
    pub fn toggle(&mut self)
        requires
            old(self).wf(),
        ensures
            final(self).wf(),
            final(self).position_view() == old(self).position_view(),
            final(self).rows() == toggled_rows(old(self).rows(), old(self).position_view()),
    {
        let i = self.position;
        let ghost before = self.rows();
        if self.branches[i].branch.is_deletable() {
            let selected = !self.branches[i].selected;
            let mut row = self.branches.remove(i);
            row.selected = selected;
            self.branches.insert(i, row);
        }
        proof {
            assert(self.rows() =~= toggled_rows(before, i as int));
        }
    }

    /// The marked branches, in list order.
    pub fn branches_to_delete(&self) -> (branches: Vec<LocalBranch>)
        ensures
            branches@ == marked(self.rows()),
    {
        let mut result: Vec<LocalBranch> = Vec::new();
        let mut i: usize = 0;
        while i < self.branches.len()
            invariant
                i <= self.branches.len(),
                result@ == marked(self.rows().take(i as int)),
            decreases self.branches.len() - i,
        {
            proof {
                assert(self.rows().take(i + 1).drop_last() =~= self.rows().take(i as int));
                assert(self.rows().take(i + 1).last() == self.rows()[i as int]);
            }
            if self.branches[i].selected {
                result.push(self.branches[i].branch.clone());
            }
            proof {
                if self.branches@[i as int].selected {
                    assert(result@ =~= marked(self.rows().take(i as int)) + seq![self.rows()[i as int].0]);
                } else {
                    assert(result@ =~= marked(self.rows().take(i as int)) + Seq::<LocalBranch>::empty());
                }
            }
            i = i + 1;
        }
        proof {
            assert(self.rows().take(i as int) =~= self.rows());
        }
        result
    }

    /// The number of rows.
    pub fn len(&self) -> (n: usize)
        ensures
            n == self.rows().len(),
    {
        self.branches.len()
    }

    /// The highlighted row.
    pub fn position(&self) -> (position: usize)
        ensures
            position == self.position_view(),
    {
        self.position
    }

    /// The text of row `i`.
    pub fn row_text(&self, i: usize) -> (text: String)
        requires
            i < self.rows().len(),
        ensures
            text@ == row_text(self.rows()[i as int].0, self.rows()[i as int].1),
    {
        let row = &self.branches[i];
        let mut text = String::new();
        match row.branch.checkout() {
            Checkout::Available => {
                if row.selected {
                    push_str(&mut text, "[x] ");
                } else {
                    push_str(&mut text, "[ ] ");
                }
                push_str(&mut text, row.branch.name());
            },
            Checkout::CurrentWorktree => {
                push_str(&mut text, "[-] ");
                push_str(&mut text, row.branch.name());
                push_str(&mut text, " (current)");
            },
            Checkout::OtherWorktree => {
                push_str(&mut text, "[-] ");
                push_str(&mut text, row.branch.name());
                push_str(&mut text, " (other worktree)");
            },
        }
        text
    }

    /// The colour of row `i`.
    pub fn row_colour(&self, i: usize) -> (colour: RowColour)
        requires
            i < self.rows().len(),
        ensures
            colour == row_colour(self.rows()[i as int].0, self.rows()[i as int].1, i == self.position_view()),
    {
        let row = &self.branches[i];
        if !row.branch.is_deletable() {
            if i == self.position {
                RowColour::Gray
            } else {
                RowColour::DarkGray
            }
        } else if row.selected {
            RowColour::Red
        } else {
            RowColour::Gray
        }
    }
}

/// Toggling the same row twice leaves the list as it was.
pub proof fn law_toggle_twice_restores(rows: Seq<(LocalBranch, bool)>, p: int)
    requires
        0 <= p < rows.len(),
    ensures
        toggled_rows(toggled_rows(rows, p), p) == rows,
{
    assert(toggled_rows(toggled_rows(rows, p), p) =~= rows);
}

/// Only branches that can be deleted are ever handed back for deletion.
pub proof fn law_only_deletable_are_deleted(app: App)
    requires
        app.wf(),
    ensures
        forall|k: int| 0 <= k < marked(app.rows()).len() ==> deletable(#[trigger] marked(app.rows())[k]),
{
    lemma_marked_deletable(app.rows());
}

proof fn lemma_marked_deletable(rows: Seq<(LocalBranch, bool)>)
    requires
        forall|i: int| 0 <= i < rows.len() && (#[trigger] rows[i]).1 ==> deletable(rows[i].0),
    ensures
        forall|k: int| 0 <= k < marked(rows).len() ==> deletable(#[trigger] marked(rows)[k]),
    decreases rows.len(),
{
    if rows.len() > 0 {
        let init = rows.drop_last();
        assert forall|i: int| 0 <= i < init.len() && (#[trigger] init[i]).1 implies deletable(init[i].0) by {
            assert(init[i] == rows[i]);
        }
        lemma_marked_deletable(init);
        let tail: Seq<LocalBranch> = if rows.last().1 {
            seq![rows.last().0]
        } else {
            Seq::empty()
        };
        assert(marked(rows) == marked(init) + tail);
        assert(rows[rows.len() - 1] == rows.last());
        assert forall|k: int| 0 <= k < marked(rows).len() implies deletable(#[trigger] marked(rows)[k]) by {
            if k < marked(init).len() {
                assert(marked(rows)[k] == marked(init)[k]);
            } else {
                assert(marked(rows)[k] == tail[k - marked(init).len()]);
            }
        }
    }
}

} // verus!
