//! The branch picker's state machine: the branches in their canonical order,
//! the order the search shows them in, and the highlighted position.

use vstd::prelude::*;

use crate::git::{Checkout, CleanBranch, LocalBranch};
use crate::history::database::lookup;
use crate::history::{MergeHistory, SwitchHistory};
use crate::order::{
    lemma_permutation_onto, sort_by_keys, sorted_by_key, sorted_by_key_with, KeyView, SortKey,
};
use crate::text::{chars_of, push_str, str_eq};
use crate::ui::search::{edit_outcome, search_matches, EditRequest, Search};

verus! {

/// How the user confirmed: plainly, or with a modifier key held.
#[derive(Clone, Copy, Debug, PartialEq, Eq, Structural)]
pub enum Confirmation {
    Plain,
    Modified,
}

/// Instructions the UI sends to the app.
#[derive(Clone, Copy, Debug, PartialEq, Eq, Structural)]
pub enum Action {
    Next,
    Previous,
    Toggle,
    Search(EditRequest),
    Confirm(Confirmation),
    Cancel,
}

/// What an update tells the UI.
#[derive(Debug, PartialEq, Eq)]
pub enum Transition<T> {
    Continue,
    Complete(T),
    Cancel,
}

/// What a single-selection picker does with the branch it picks.
#[derive(Clone, Debug, PartialEq, Eq)]
pub enum SingleOperation {
    Switch,
    Rebase { last_target: Option<String> },
    Merge,
    Delete,
}

/// The mode of the clean picker: many branches are marked, then deleted.
pub struct CleanMode;

/// The mode of a picker that picks one branch.
pub struct SingleMode {
    operation: SingleOperation,
}

/// Whether a single-selection picker for `operation` offers `branch`.
pub open spec fn single_selectable(operation: SingleOperation, branch: LocalBranch) -> bool {
    match operation {
        SingleOperation::Switch | SingleOperation::Delete => branch.checkout_view()
            == Checkout::Available,
        _ => branch.checkout_view() != Checkout::CurrentWorktree,
    }
}

impl SingleMode {
    pub closed spec fn operation_view(&self) -> SingleOperation {
        self.operation
    }

}

/// Whether a single-selection picker for `operation` offers `branch`.
fn offers(operation: &SingleOperation, branch: &LocalBranch) -> (selectable: bool)
    ensures
        selectable == single_selectable(*operation, *branch),
{
    match operation {
        SingleOperation::Switch => branch.is_switchable(),
        SingleOperation::Rebase { .. } => branch.is_rebase_target(),
        SingleOperation::Merge => branch.is_merge_source(),
        SingleOperation::Delete => branch.is_deletable(),
    }
}

/// How a branch is coloured when drawn.
#[derive(Clone, Copy, Debug, PartialEq, Eq, Structural)]
pub enum Colour {
    Selected,
    Highlighted,
    Selectable,
    Unselectable,
}

/// A branch in the picker.
pub struct Branch {
    branch: LocalBranch,
    selectable: bool,
    selected: bool,
}

impl Branch {
    pub closed spec fn local(&self) -> LocalBranch {
        self.branch
    }

    pub closed spec fn selectable_view(&self) -> bool {
        self.selectable
    }

    pub closed spec fn selected_view(&self) -> bool {
        self.selected
    }

    pub open spec fn name_view(&self) -> Seq<char> {
        self.local().name_view()
    }

    /// The branch after a toggle: a selectable branch flips its selection.
    pub closed spec fn toggled(&self) -> Branch {
        Branch {
            selected: if self.selectable {
                !self.selected
            } else {
                self.selected
            },
            ..*self
        }
    }

    fn new(branch: LocalBranch, selectable: bool, selected: bool) -> (result: Branch)
        ensures
            result.local() == branch,
            result.selectable_view() == selectable,
            result.selected_view() == selected,
    {
        Branch { branch, selectable, selected }
    }

    pub fn name(&self) -> (name: &str)
        ensures
            name@ == self.name_view(),
    {
        self.branch.name()
    }

    pub fn branch(&self) -> (branch: &LocalBranch)
        ensures
            *branch == self.local(),
    {
        &self.branch
    }

    /// Whether the branch can be highlighted and chosen.
    pub fn is_selectable(&self) -> (selectable: bool)
        ensures
            selectable == self.selectable_view(),
    {
        self.selectable
    }

    /// Whether the branch is marked for the clean command.
    pub fn is_selected(&self) -> (selected: bool)
        ensures
            selected == self.selected_view(),
    {
        self.selected
    }

    fn toggle(&mut self)
        ensures
            *final(self) == old(self).toggled(),
    {
        if self.selectable {
            self.selected = !self.selected;
        }
    }

    /// The branch that the clean picker shows for `branch`: only a deletable
    /// branch that is not the trunk can be marked, and it starts marked when
    /// it is merged or someone else wrote it.
    pub closed spec fn clean_spec(branch: CleanBranch) -> Branch {
        let selectable = branch.branch_view().checkout_view() == Checkout::Available
            && !branch.trunk_view();
        Branch {
            branch: branch.branch_view(),
            selectable,
            selected: selectable && (branch.merged_view() || branch.authored_by_other_view()),
        }
    }

    /// The branch that a single-selection picker for `operation` shows for
    /// `branch`.
    pub closed spec fn single_spec(operation: SingleOperation, branch: LocalBranch) -> Branch {
        Branch { branch, selectable: single_selectable(operation, branch), selected: false }
    }

    fn clean(branch: CleanBranch) -> (result: Branch)
        ensures
            result == Branch::clean_spec(branch),
    {
        let selectable = branch.branch().is_deletable() && !branch.is_trunk();
        let selected = selectable && (branch.is_merged() || branch.is_authored_by_other());
        Branch::new(branch.into_branch(), selectable, selected)
    }

    /// The colour of the branch: marked, highlighted, selectable or not, in
    /// that order of precedence.
    pub fn colour(&self, highlighted: bool) -> (colour: Colour)
        ensures
            colour == (if self.selected_view() {
                Colour::Selected
            } else if highlighted {
                Colour::Highlighted
            } else if self.selectable_view() {
                Colour::Selectable
            } else {
                Colour::Unselectable
            }),
    {
        if self.selected {
            Colour::Selected
        } else if highlighted {
            Colour::Highlighted
        } else if self.selectable {
            Colour::Selectable
        } else {
            Colour::Unselectable
        }
    }
}

/// The words after a branch's name that tell where it is checked out.
pub open spec fn status_text(checkout: Checkout) -> Seq<char> {
    match checkout {
        Checkout::Available => ""@,
        Checkout::CurrentWorktree => " (current)"@,
        Checkout::OtherWorktree => " (other worktree)"@,
    }
}

/// Where a branch is checked out, as a branch's row shows it.
pub fn status_str(checkout: Checkout) -> (status: &'static str)
    ensures
        status@ == status_text(checkout),
{
    match checkout {
        Checkout::Available => "",
        Checkout::CurrentWorktree => " (current)",
        Checkout::OtherWorktree => " (other worktree)",
    }
}

/// The clean picker's mark for a branch.
pub open spec fn clean_marker(branch: Branch) -> Seq<char> {
    if !branch.selectable_view() {
        "[-] "@
    } else if branch.selected_view() {
        "[x] "@
    } else {
        "[ ] "@
    }
}

/// The note after a branch that a single-selection picker shows: the rebase
/// picker names the branch last rebased onto.
pub open spec fn single_annotation(operation: SingleOperation, name: Seq<char>) -> Seq<char> {
    match operation {
        SingleOperation::Rebase { last_target: Some(target) } => if target@ == name {
            " (last rebased onto)"@
        } else {
            ""@
        },
        _ => ""@,
    }
}

/// The text of a branch in the clean picker.
pub open spec fn clean_text(branch: Branch) -> Seq<char> {
    clean_marker(branch) + branch.name_view() + status_text(branch.local().checkout_view())
}

/// The text of a branch in a single-selection picker for `operation`.
pub open spec fn single_text(operation: SingleOperation, branch: Branch) -> Seq<char> {
    branch.name_view() + status_text(branch.local().checkout_view()) + single_annotation(
        operation,
        branch.name_view(),
    )
}

/// The order group of a branch in the clean picker: marked first, then
/// selectable, then the rest.
pub open spec fn clean_rank(branch: Branch) -> u8 {
    if branch.selectable_view() {
        if branch.selected_view() {
            0
        } else {
            1
        }
    } else {
        2
    }
}

/// What the clean picker sorts by: the group, then the name.
pub open spec fn clean_order_key() -> spec_fn(Branch) -> KeyView {
    |branch: Branch|
        KeyView {
            group: clean_rank(branch),
            recency: None,
            first: branch.name_view(),
            second: Seq::empty(),
        }
}

/// What a single-selection picker sorts by: selectable branches first, then
/// `recency` (more recent first), then the name when `by_name` holds.
pub open spec fn single_key(recency: Option<int>, by_name: bool, branch: Branch) -> KeyView {
    KeyView {
        group: if branch.selectable_view() {
            0
        } else {
            1
        },
        recency,
        first: if by_name {
            branch.name_view()
        } else {
            Seq::empty()
        },
        second: Seq::empty(),
    }
}

/// The switch picker's order: by the rank of the latest switch, then name.
pub open spec fn switch_order_key(entries: Seq<(Seq<char>, int)>) -> spec_fn(Branch) -> KeyView {
    |branch: Branch| single_key(lookup(entries, branch.name_view()), true, branch)
}

/// The merge picker's order: by the rank of the latest merge into
/// `destination`, then name.
pub open spec fn merge_order_key(
    entries: Seq<((Seq<char>, Seq<char>), int)>,
    destination: Seq<char>,
) -> spec_fn(Branch) -> KeyView {
    |branch: Branch| single_key(lookup(entries, (destination, branch.name_view())), true, branch)
}

/// The rebase picker's order: the last target first, then by name; with no
/// last target the order is kept.
pub open spec fn rebase_order_key(last_target: Option<Seq<char>>) -> spec_fn(Branch) -> KeyView {
    |branch: Branch|
        match last_target {
            Some(target) => single_key(
                if branch.name_view() == target {
                    Some(1int)
                } else {
                    None
                },
                true,
                branch,
            ),
            None => single_key(None, false, branch),
        }
}

/// The delete picker's order: the order given.
pub open spec fn delete_order_key() -> spec_fn(Branch) -> KeyView {
    |branch: Branch| single_key(None, false, branch)
}

/// The branches marked for deletion, in canonical order.
pub open spec fn marked_branches(branches: Seq<Branch>) -> Seq<LocalBranch>
    decreases branches.len(),
{
    if branches.len() == 0 {
        Seq::empty()
    } else {
        marked_branches(branches.drop_last()) + if branches.last().selected_view() {
            seq![branches.last().local()]
        } else {
            Seq::empty()
        }
    }
}

/// A rank as a value of specification.
pub open spec fn rank_int(rank: Option<usize>) -> Option<int> {
    match rank {
        Some(r) => Some(r as int),
        None => None,
    }
}

/// The text that an initial search starts with.
pub open spec fn initial_query(initial_search: Option<String>) -> Seq<char> {
    match initial_search {
        Some(query) => query@,
        None => Seq::empty(),
    }
}

fn initial_search_bar(initial_search: Option<String>) -> (search: Search)
    ensures
        search.query_view() == initial_query(initial_search),
{
    match initial_search {
        Some(query) => Search::with_query(query),
        None => Search::new(),
    }
}

/// Pairs each branch with its key for a single-selection picker.
fn keyed_single(
    branches: &Vec<LocalBranch>,
    operation: &SingleOperation,
    ranks: &Vec<Option<usize>>,
    by_name: bool,
) -> (items: Vec<(SortKey, Branch)>)
    requires
        ranks.len() == branches.len(),
    ensures
        items.len() == branches.len(),
        forall|i: int|
            0 <= i < branches.len() ==> (#[trigger] items@[i]).1 == Branch::single_spec(
                *operation,
                branches@[i],
            ) && items@[i].0.key_view() == single_key(rank_int(ranks@[i]), by_name, items@[i].1),
{
    let mut items: Vec<(SortKey, Branch)> = Vec::new();
    let mut i: usize = 0;
    while i < branches.len()
        invariant
            i <= branches.len(),
            ranks.len() == branches.len(),
            items.len() == i,
            forall|k: int|
                0 <= k < i ==> (#[trigger] items@[k]).1 == Branch::single_spec(
                    *operation,
                    branches@[k],
                ) && items@[k].0.key_view() == single_key(rank_int(ranks@[k]), by_name, items@[k].1),
        decreases branches.len() - i,
    {
        let branch = branches[i].clone();
        let selectable = offers(operation, &branch);
        let first = if by_name {
            chars_of(branch.name())
        } else {
            Vec::new()
        };
        let key = SortKey {
            group: if selectable {
                0
            } else {
                1
            },
            recency: ranks[i],
            first,
            second: Vec::new(),
        };
        let item = Branch::new(branch, selectable, false);
        proof {
            assert(key.first@ == (if by_name { item.name_view() } else { Seq::<char>::empty() }));
            assert(key.second@ =~= Seq::<char>::empty());
        }
        items.push((key, item));
        i = i + 1;
    }
    items
}

/// The indices `i < k` whose mark is `want`, in increasing order.
pub open spec fn indices_where(marks: Seq<bool>, want: bool, k: int) -> Seq<usize>
    decreases k,
{
    if k <= 0 {
        Seq::empty()
    } else {
        indices_where(marks, want, k - 1) + if marks[k - 1] == want {
            seq![(k - 1) as usize]
        } else {
            Seq::empty()
        }
    }
}

/// The order a search shows branches in: those it finds first, then the
/// others, each part in canonical order.
pub open spec fn search_order(marks: Seq<bool>) -> Seq<usize> {
    indices_where(marks, true, marks.len() as int) + indices_where(marks, false, marks.len() as int)
}

/// Which of `branches` the search for `query` finds.
pub open spec fn search_marks(branches: Seq<Branch>, query: Seq<char>) -> Seq<bool> {
    branches.map_values(|branch: Branch| search_matches(query, branch.name_view()))
}

/// Position `k` steps after `position` among `n`, wrapping around.
pub open spec fn forward(position: int, k: int, n: int) -> int {
    if position + k < n {
        position + k
    } else {
        position + k - n
    }
}

/// Position `k` steps before `position` among `n`, wrapping around.
pub open spec fn backward(position: int, k: int, n: int) -> int {
    if k <= position {
        position - k
    } else {
        position + n - k
    }
}

proof fn lemma_indices_where(marks: Seq<bool>, want: bool, k: int)
    requires
        0 <= k <= marks.len(),
        marks.len() <= usize::MAX,
    ensures
        forall|j: int|
            0 <= j < indices_where(marks, want, k).len() ==> #[trigger] indices_where(
                marks,
                want,
                k,
            )[j] < k && marks[indices_where(marks, want, k)[j] as int] == want,
        forall|a: int, b: int|
            0 <= a < b < indices_where(marks, want, k).len() ==> #[trigger] indices_where(
                marks,
                want,
                k,
            )[a] < #[trigger] indices_where(marks, want, k)[b],
        forall|i: int|
            0 <= i < k && marks[i] == want ==> #[trigger] indices_where(marks, want, k).contains(
                i as usize,
            ),
    decreases k,
{
    if k > 0 {
        lemma_indices_where(marks, want, k - 1);
        let prev = indices_where(marks, want, k - 1);
        let res = indices_where(marks, want, k);
        let last: Seq<usize> = if marks[k - 1] == want {
            seq![(k - 1) as usize]
        } else {
            Seq::empty()
        };
        assert(res == prev + last);
        assert forall|i: int| 0 <= i < k && marks[i] == want implies res.contains(i as usize) by {
            if i < k - 1 {
                assert(prev.contains(i as usize));
                let j = choose|j: int| 0 <= j < prev.len() && prev[j] == i as usize;
                assert(res[j] == prev[j]);
            } else {
                assert(res[prev.len() as int] == (k - 1) as usize);
            }
        }
    }
}

proof fn lemma_indices_len(marks: Seq<bool>, k: int)
    requires
        0 <= k <= marks.len(),
    ensures
        indices_where(marks, true, k).len() + indices_where(marks, false, k).len() == k,
    decreases k,
{
    if k > 0 {
        lemma_indices_len(marks, k - 1);
    }
}

/// The search order lists each branch index once.
proof fn lemma_search_order(marks: Seq<bool>)
    requires
        marks.len() <= usize::MAX,
    ensures
        search_order(marks).len() == marks.len(),
        forall|p: int| 0 <= p < marks.len() ==> #[trigger] search_order(marks)[p] < marks.len(),
        forall|p: int, q: int|
            0 <= p < q < marks.len() ==> #[trigger] search_order(marks)[p] != #[trigger] search_order(
                marks,
            )[q],
        forall|i: int| 0 <= i < marks.len() ==> #[trigger] search_order(marks).contains(i as usize),
{
    let n = marks.len() as int;
    let t = indices_where(marks, true, n);
    let f = indices_where(marks, false, n);
    let o = search_order(marks);
    lemma_indices_where(marks, true, n);
    lemma_indices_where(marks, false, n);
    lemma_indices_len(marks, n);
    assert forall|p: int| 0 <= p < n implies #[trigger] o[p] < n by {
        if p < t.len() {
            assert(o[p] == t[p]);
        } else {
            assert(o[p] == f[p - t.len()]);
        }
    }
    assert forall|p: int, q: int| 0 <= p < q < n implies #[trigger] o[p] != #[trigger] o[q] by {
        if q < t.len() {
            assert(o[p] == t[p] && o[q] == t[q]);
        } else if p >= t.len() {
            assert(o[p] == f[p - t.len()] && o[q] == f[q - t.len()]);
        } else {
            assert(o[p] == t[p] && o[q] == f[q - t.len()]);
            assert(marks[t[p] as int] && !marks[f[q - t.len()] as int]);
        }
    }
    assert forall|i: int| 0 <= i < n implies #[trigger] o.contains(i as usize) by {
        if marks[i] {
            assert(t.contains(i as usize));
            let j = choose|j: int| 0 <= j < t.len() && t[j] == i as usize;
            assert(o[j] == t[j]);
        } else {
            assert(f.contains(i as usize));
            let j = choose|j: int| 0 <= j < f.len() && f[j] == i as usize;
            assert(o[t.len() + j] == f[j]);
        }
    }
}

/// The order a search shows `branches` in.
fn search_order_of(branches: &Vec<Branch>, search: &Search) -> (order: Vec<usize>)
    ensures
        order@ == search_order(search_marks(branches@, search.query_view())),
{
    let ghost marks_all = search_marks(branches@, search.query_view());
    let n = branches.len();
    let mut marks: Vec<bool> = Vec::new();
    let mut i: usize = 0;
    while i < n
        invariant
            i <= n,
            n == branches.len(),
            marks_all == search_marks(branches@, search.query_view()),
            marks@ == marks_all.take(i as int),
        decreases n - i,
    {
        let found = search.matches(branches[i].name());
        proof {
            assert(marks_all.take(i + 1) =~= marks_all.take(i as int).push(found));
        }
        marks.push(found);
        i = i + 1;
    }
    assert(marks@ =~= marks_all);
    let mut order: Vec<usize> = Vec::new();
    let mut i: usize = 0;
    while i < n
        invariant
            i <= n,
            n == marks.len(),
            order@ == indices_where(marks@, true, i as int),
        decreases n - i,
    {
        if marks[i] {
            order.push(i);
        }
        i = i + 1;
    }
    let ghost matching = order@;
    let mut i: usize = 0;
    while i < n
        invariant
            i <= n,
            n == marks.len(),
            matching == indices_where(marks@, true, n as int),
            order@ == matching + indices_where(marks@, false, i as int),
        decreases n - i,
    {
        if !marks[i] {
            order.push(i);
        }
        i = i + 1;
    }
    order
}

/// The picker's state: the branches in canonical order, the order they are
/// shown in, the highlighted position, the first position shown, the search
/// and the mode.
pub struct AppImpl<M> {
    branches: Vec<Branch>,
    branch_order: Vec<usize>,
    mode: M,
    search: Search,
    position: usize,
    offset: usize,
}

impl<M> AppImpl<M> {
    /// The branches in canonical order.
    pub closed spec fn branches_view(&self) -> Seq<Branch> {
        self.branches@
    }

    /// The index of the branch shown at each position.
    pub closed spec fn order_view(&self) -> Seq<usize> {
        self.branch_order@
    }

    /// The highlighted position.
    pub closed spec fn position_view(&self) -> int {
        self.position as int
    }

    /// The first position shown.
    pub closed spec fn offset_view(&self) -> int {
        self.offset as int
    }

    /// The text of the search bar.
    pub closed spec fn query_view(&self) -> Seq<char> {
        self.search.query_view()
    }

    /// The number of characters before the search bar's cursor.
    pub closed spec fn cursor_view(&self) -> usize {
        self.search.cursor_view()
    }

    pub closed spec fn mode_view(&self) -> M {
        self.mode
    }

    pub closed spec fn search_view(&self) -> Search {
        self.search
    }

    /// The branch shown at position `p`.
    pub open spec fn branch_at(&self, p: int) -> Branch {
        self.branches_view()[self.order_view()[p] as int]
    }

    pub open spec fn selectable_at(&self, p: int) -> bool {
        self.branch_at(p).selectable_view()
    }

    /// Whether the search finds the branch shown at position `p`.
    pub open spec fn matches_at(&self, p: int) -> bool {
        search_matches(self.query_view(), self.branch_at(p).name_view())
    }

    /// Whether the order shows each branch once.
    pub open spec fn order_ok(&self) -> bool {
        let n = self.branches_view().len();
        &&& self.order_view().len() == n
        &&& n <= usize::MAX
        &&& forall|p: int| 0 <= p < n ==> #[trigger] self.order_view()[p] < n
        &&& forall|p: int, q: int|
            0 <= p < q < n ==> #[trigger] self.order_view()[p] != #[trigger] self.order_view()[q]
    }

    /// The state is well formed: the order shows each branch once, the
    /// highlighted branch is selectable and no branch that cannot be
    /// selected is marked.
    pub open spec fn wf(&self) -> bool {
        &&& self.order_ok()
        &&& 0 <= self.position_view() < self.branches_view().len()
        &&& self.selectable_at(self.position_view())
        &&& marks_selectable(self.branches_view())
    }

    /// The highlighted position is the first that the search finds among the
    /// selectable ones, or the first selectable one if the search finds none.
    pub open spec fn first_selection(&self) -> bool {
        let n = self.branches_view().len();
        let pos = self.position_view();
        if exists|p: int| 0 <= p < n && #[trigger] self.selectable_at(p) && self.matches_at(p) {
            &&& self.matches_at(pos)
            &&& forall|q: int| 0 <= q < pos ==> !(#[trigger] self.selectable_at(q) && self.matches_at(q))
        } else {
            forall|q: int| 0 <= q < pos ==> !#[trigger] self.selectable_at(q)
        }
    }

    /// The state right after the branches were ordered: the search order,
    /// scrolled to the top, with the first selection.
    pub open spec fn fresh(&self) -> bool {
        &&& self.order_view() == search_order(search_marks(self.branches_view(), self.query_view()))
        &&& self.offset_view() == 0
        &&& self.first_selection()
    }

    /// `after` is this state with the next selectable branch highlighted.
    pub open spec fn moved_next(self, after: Self) -> bool {
        &&& after.branches_view() == self.branches_view()
        &&& after.order_view() == self.order_view()
        &&& after.offset_view() == self.offset_view()
        &&& after.search_view() == self.search_view()
        &&& after.mode_view() == self.mode_view()
        &&& self.next_selectable(self.position_view(), after.position_view())
    }

    /// `after` is this state with the previous selectable branch highlighted.
    pub open spec fn moved_previous(self, after: Self) -> bool {
        &&& after.branches_view() == self.branches_view()
        &&& after.order_view() == self.order_view()
        &&& after.offset_view() == self.offset_view()
        &&& after.search_view() == self.search_view()
        &&& after.mode_view() == self.mode_view()
        &&& self.previous_selectable(self.position_view(), after.position_view())
    }

    /// `after` is this state with the highlighted branch toggled.
    pub open spec fn toggled_into(self, after: Self) -> bool {
        &&& after.branches_view() == self.branches_view().update(
            self.order_view()[self.position_view()] as int,
            self.branch_at(self.position_view()).toggled(),
        )
        &&& after.order_view() == self.order_view()
        &&& after.position_view() == self.position_view()
        &&& after.offset_view() == self.offset_view()
        &&& after.search_view() == self.search_view()
        &&& after.mode_view() == self.mode_view()
    }

    /// `after` is this state after `request` edited the search: its text
    /// and cursor are an outcome that `edit_outcome` allows. When that
    /// outcome changed the text, the branches were ordered anew; otherwise
    /// the text and what is shown are unchanged.
    pub open spec fn searched_into(self, after: Self, request: EditRequest) -> bool {
        &&& after.branches_view() == self.branches_view()
        &&& after.mode_view() == self.mode_view()
        &&& exists|changed: bool|
            #[trigger] edit_outcome(
                self.query_view(),
                self.cursor_view(),
                request,
                (after.query_view(), after.cursor_view(), changed),
            ) && if changed {
                after.fresh()
            } else {
                self.shows_as(after)
            }
    }

    /// `after` has this state's text and shows what it shows.
    pub open spec fn shows_as(self, after: Self) -> bool {
        &&& after.query_view() == self.query_view()
        &&& after.order_view() == self.order_view()
        &&& after.position_view() == self.position_view()
        &&& after.offset_view() == self.offset_view()
    }

    /// Whether `to` is the first selectable position after `from`, wrapping
    /// around.
    pub open spec fn next_selectable(&self, from: int, to: int) -> bool {
        let n = self.branches_view().len() as int;
        exists|k: int|
            1 <= k <= n && to == forward(from, k, n) && forall|j: int|
                1 <= j < k ==> !#[trigger] self.selectable_at(forward(from, j, n))
    }

    /// Whether `to` is the first selectable position before `from`, wrapping
    /// around.
    pub open spec fn previous_selectable(&self, from: int, to: int) -> bool {
        let n = self.branches_view().len() as int;
        exists|k: int|
            1 <= k <= n && to == backward(from, k, n) && forall|j: int|
                1 <= j < k ==> !#[trigger] self.selectable_at(backward(from, j, n))
    }

    /// The first position whose branch the search finds among the selectable
    /// ones.
    fn first_matching_position(&self) -> (found: Option<usize>)
        requires
            self.order_ok(),
        ensures
            match found {
                Some(p) => p < self.branches_view().len() && self.selectable_at(p as int)
                    && self.matches_at(p as int) && forall|q: int|
                    0 <= q < p ==> !(#[trigger] self.selectable_at(q) && self.matches_at(q)),
                None => forall|q: int|
                    0 <= q < self.branches_view().len() ==> !(#[trigger] self.selectable_at(q)
                        && self.matches_at(q)),
            },
    {
        let n = self.branch_order.len();
        let mut p: usize = 0;
        while p < n
            invariant
                p <= n,
                n == self.branches_view().len(),
                self.order_ok(),
                forall|q: int| 0 <= q < p ==> !(#[trigger] self.selectable_at(q) && self.matches_at(q)),
            decreases n - p,
        {
            let branch = &self.branches[self.branch_order[p]];
            if branch.selectable && self.search.matches(branch.name()) {
                return Some(p);
            }
            p = p + 1;
        }
        None
    }

    /// The first selectable position.
    fn first_selectable_position(&self) -> (found: Option<usize>)
        requires
            self.order_ok(),
        ensures
            match found {
                Some(p) => p < self.branches_view().len() && self.selectable_at(p as int)
                    && forall|q: int| 0 <= q < p ==> !#[trigger] self.selectable_at(q),
                None => forall|q: int|
                    0 <= q < self.branches_view().len() ==> !#[trigger] self.selectable_at(q),
            },
    {
        let n = self.branch_order.len();
        let mut p: usize = 0;
        while p < n
            invariant
                p <= n,
                n == self.branches_view().len(),
                self.order_ok(),
                forall|q: int| 0 <= q < p ==> !#[trigger] self.selectable_at(q),
            decreases n - p,
        {
            if self.branches[self.branch_order[p]].selectable {
                return Some(p);
            }
            p = p + 1;
        }
        None
    }

    /// Highlights the first selectable branch the search finds, or the first
    /// selectable branch, and scrolls to the top.
    fn select_first_matching_branch(&mut self)
        requires
            old(self).order_ok(),
            marks_selectable(old(self).branches_view()),
            exists|p: int| 0 <= p < old(self).branches_view().len() && #[trigger] old(self).selectable_at(p),
        ensures
            final(self).branches_view() == old(self).branches_view(),
            final(self).order_view() == old(self).order_view(),
            final(self).search_view() == old(self).search_view(),
            final(self).mode_view() == old(self).mode_view(),
            final(self).offset_view() == 0,
            final(self).wf(),
            final(self).first_selection(),
    {
        let ghost before = *self;
        let ghost n = self.branches_view().len();
        let found = self.first_matching_position();
        let position = match found {
            Some(p) => p,
            None => match self.first_selectable_position() {
                Some(p) => p,
                None => {
                    proof {
                        let w = choose|p: int| 0 <= p < n && #[trigger] self.selectable_at(p);
                        assert(!self.selectable_at(w));
                    }
                    0
                },
            },
        };
        self.offset = 0;
        self.position = position;
        proof {
            assert forall|q: int| 0 <= q < n implies #[trigger] self.selectable_at(q)
                == before.selectable_at(q) && self.matches_at(q) == before.matches_at(q) by {}
            if found is Some {
                assert(self.selectable_at(position as int) && self.matches_at(position as int));
            } else {
                assert(!exists|p: int| 0 <= p < n && #[trigger] self.selectable_at(p) && self.matches_at(p));
            }
        }
    }

    /// An app over `branches`, or `None` when no branch is selectable. The
    /// search order and the first selection follow `search`.
    fn from_branches(branches: Vec<Branch>, mode: M, search: Search) -> (app: Option<Self>)
        requires
            branches.len() <= usize::MAX,
            marks_selectable(branches@),
        ensures
            app is Some <==> exists|i: int| 0 <= i < branches.len() && (#[trigger] branches@[i]).selectable_view(),
            app matches Some(app) ==> {
                &&& app.wf()
                &&& app.branches_view() == branches@
                &&& app.mode_view() == mode
                &&& app.query_view() == search.query_view()
                &&& app.order_view() == search_order(search_marks(branches@, search.query_view()))
                &&& app.offset_view() == 0
                &&& app.first_selection()
            },
    {
        let mut i: usize = 0;
        let mut any_selectable = false;
        while i < branches.len()
            invariant
                i <= branches.len(),
                !any_selectable ==> forall|j: int| 0 <= j < i ==> !(#[trigger] branches@[j]).selectable_view(),
                any_selectable ==> exists|j: int| 0 <= j < branches.len() && (#[trigger] branches@[j]).selectable_view(),
            decreases branches.len() - i,
        {
            if branches[i].selectable {
                any_selectable = true;
            }
            i = i + 1;
        }
        if !any_selectable {
            return None;
        }
        let order = search_order_of(&branches, &search);
        let ghost marks = search_marks(branches@, search.query_view());
        let mut app = AppImpl { branches, branch_order: order, mode, search, position: 0, offset: 0 };
        proof {
            lemma_search_order(marks);
            let w = choose|j: int| 0 <= j < app.branches@.len() && (#[trigger] app.branches@[j]).selectable_view();
            assert(search_order(marks).contains(w as usize));
            let p = choose|p: int| 0 <= p < search_order(marks).len() && search_order(marks)[p] == w as usize;
            assert(app.selectable_at(p));
        }
        app.select_first_matching_branch();
        Some(app)
    }

    /// The highlighted position.
    pub fn position(&self) -> (position: usize)
        ensures
            position == self.position_view(),
    {
        self.position
    }

    /// The first position shown.
    pub fn offset(&self) -> (offset: usize)
        ensures
            offset == self.offset_view(),
    {
        self.offset
    }

    /// Records the first position shown, as drawing scrolled the list.
    pub fn set_offset(&mut self, offset: usize)
        ensures
            final(self).offset_view() == offset,
            final(self).branches_view() == old(self).branches_view(),
            final(self).order_view() == old(self).order_view(),
            final(self).position_view() == old(self).position_view(),
            final(self).search_view() == old(self).search_view(),
            final(self).mode_view() == old(self).mode_view(),
    {
        self.offset = offset;
    }

    /// The branches in canonical order.
    pub fn branches(&self) -> (branches: &Vec<Branch>)
        ensures
            branches@ == self.branches_view(),
    {
        &self.branches
    }

    /// The index of the branch shown at each position.
    pub fn branch_order(&self) -> (order: &Vec<usize>)
        ensures
            order@ == self.order_view(),
    {
        &self.branch_order
    }

    /// The search bar.
    pub fn search(&self) -> (search: &Search)
        ensures
            search.query_view() == self.query_view(),
    {
        &self.search
    }

    /// The index of the highlighted branch.
    pub fn branch_index(&self) -> (index: usize)
        requires
            self.wf(),
        ensures
            index == self.order_view()[self.position_view()],
    {
        self.branch_order[self.position]
    }

    /// Highlights the next selectable branch, wrapping around.
    fn next(&mut self)
        requires
            old(self).wf(),
        ensures
            final(self).wf(),
            final(self).branches_view() == old(self).branches_view(),
            final(self).order_view() == old(self).order_view(),
            final(self).offset_view() == old(self).offset_view(),
            final(self).search_view() == old(self).search_view(),
            final(self).mode_view() == old(self).mode_view(),
            old(self).next_selectable(old(self).position_view(), final(self).position_view()),
    {
        let ghost start = *self;
        let n = self.branch_order.len();
        let position = self.position;
        let mut k: usize = 1;
        while k <= n
            invariant
                1 <= k <= n + 1,
                n == self.branches_view().len(),
                position == self.position_view(),
                *self == start,
                start == *old(self),
                self.wf(),
                forall|j: int| 1 <= j < k ==> !#[trigger] self.selectable_at(forward(position as int, j, n as int)),
            decreases n + 1 - k,
        {
            let candidate = if k < n - position {
                position + k
            } else {
                k - (n - position)
            };
            assert(candidate == forward(position as int, k as int, n as int));
            if self.branches[self.branch_order[candidate]].selectable {
                self.position = candidate;
                return;
            }
            k = k + 1;
        }
        proof {
            assert(!self.selectable_at(forward(position as int, n as int, n as int)));
        }
    }

    /// Highlights the previous selectable branch, wrapping around.
    fn previous(&mut self)
        requires
            old(self).wf(),
        ensures
            final(self).wf(),
            final(self).branches_view() == old(self).branches_view(),
            final(self).order_view() == old(self).order_view(),
            final(self).offset_view() == old(self).offset_view(),
            final(self).search_view() == old(self).search_view(),
            final(self).mode_view() == old(self).mode_view(),
            old(self).previous_selectable(old(self).position_view(), final(self).position_view()),
    {
        let ghost start = *self;
        let n = self.branch_order.len();
        let position = self.position;
        let mut k: usize = 1;
        while k <= n
            invariant
                1 <= k <= n + 1,
                n == self.branches_view().len(),
                position == self.position_view(),
                *self == start,
                start == *old(self),
                self.wf(),
                forall|j: int| 1 <= j < k ==> !#[trigger] self.selectable_at(backward(position as int, j, n as int)),
            decreases n + 1 - k,
        {
            let candidate = if k <= position {
                position - k
            } else {
                position + (n - k)
            };
            assert(candidate == backward(position as int, k as int, n as int));
            if self.branches[self.branch_order[candidate]].selectable {
                self.position = candidate;
                return;
            }
            k = k + 1;
        }
        proof {
            assert(!self.selectable_at(backward(position as int, n as int, n as int)));
        }
    }

    /// Toggles the highlighted branch.
    fn toggle(&mut self)
        requires
            old(self).wf(),
        ensures
            final(self).wf(),
            final(self).branches_view() == old(self).branches_view().update(
                old(self).order_view()[old(self).position_view()] as int,
                old(self).branch_at(old(self).position_view()).toggled(),
            ),
            final(self).order_view() == old(self).order_view(),
            final(self).position_view() == old(self).position_view(),
            final(self).offset_view() == old(self).offset_view(),
            final(self).search_view() == old(self).search_view(),
            final(self).mode_view() == old(self).mode_view(),
    {
        let index = self.branch_order[self.position];
        self.branches[index].toggle();
    }

    /// Applies an editing request to the search. When the text changed, the
    /// branches it finds move to the front and the first selectable one is
    /// highlighted; otherwise nothing else changes.
    fn update_search(&mut self, request: EditRequest) -> (value_changed: bool)
        requires
            old(self).wf(),
        ensures
            final(self).wf(),
            old(self).searched_into(*final(self), request),
            value_changed ==> final(self).fresh(),
            !value_changed ==> old(self).shows_as(*final(self)),
    {
        let ghost before = *self;
        if !self.search.edit(request) {
            proof {
                assert(edit_outcome(
                    before.query_view(),
                    before.cursor_view(),
                    request,
                    (self.query_view(), self.cursor_view(), false),
                ));
            }
            return false;
        }
        let ghost edited_query = self.query_view();
        let ghost edited_cursor = self.cursor_view();
        proof {
            assert(edit_outcome(before.query_view(), before.cursor_view(), request, (edited_query, edited_cursor, true)));
        }
        let order = search_order_of(&self.branches, &self.search);
        let ghost marks = search_marks(self.branches@, self.search.query_view());
        let ghost kept = self.branch_order@[self.position as int];
        self.branch_order = order;
        proof {
            lemma_search_order(marks);
            assert(kept < self.branches@.len());
            assert(search_order(marks).contains((kept as int) as usize));
            let p = choose|p: int| 0 <= p < search_order(marks).len() && search_order(marks)[p] == kept;
            assert(self.selectable_at(p));
        }
        self.select_first_matching_branch();
        proof {
            assert(self.query_view() == edited_query && self.cursor_view() == edited_cursor);
            assert(edit_outcome(
                before.query_view(),
                before.cursor_view(),
                request,
                (self.query_view(), self.cursor_view(), true),
            ));
        }
        true
    }
}

/// Whether `after` offers the branches of `before`, in the same canonical
/// order, each as selectable as it was: only marks may differ.
pub open spec fn same_offer(before: Seq<Branch>, after: Seq<Branch>) -> bool {
    &&& after.len() == before.len()
    &&& forall|i: int|
        0 <= i < before.len() ==> (#[trigger] after[i]).local() == before[i].local()
            && after[i].selectable_view() == before[i].selectable_view()
}

/// Whether every marked branch of `branches` can be selected.
pub open spec fn marks_selectable(branches: Seq<Branch>) -> bool {
    forall|i: int| 0 <= i < branches.len() ==> (#[trigger] branches[i]).selected_view() ==> branches[i].selectable_view()
}

/// Sorting keeps which branches are selectable, and that only those are
/// marked.
proof fn lemma_sorted_selectable(sorted: Seq<Branch>, items: Seq<Branch>, key: spec_fn(Branch) -> KeyView)
    requires
        sorted_by_key(sorted, items, key),
    ensures
        (exists|i: int| 0 <= i < sorted.len() && (#[trigger] sorted[i]).selectable_view()) <==> (exists|j: int|
            0 <= j < items.len() && (#[trigger] items[j]).selectable_view()),
        marks_selectable(items) ==> marks_selectable(sorted),
{
    let p = choose|p: Seq<int>| sorted_by_key_with(sorted, items, key, p);
    if marks_selectable(items) {
        assert forall|i: int| 0 <= i < sorted.len() && (#[trigger] sorted[i]).selected_view() implies sorted[i].selectable_view() by {
            assert(sorted[i] == items[p[i]]);
        }
    }
    if exists|i: int| 0 <= i < sorted.len() && (#[trigger] sorted[i]).selectable_view() {
        let i = choose|i: int| 0 <= i < sorted.len() && (#[trigger] sorted[i]).selectable_view();
        assert(sorted[i] == items[p[i]]);
    }
    if exists|j: int| 0 <= j < items.len() && (#[trigger] items[j]).selectable_view() {
        let j = choose|j: int| 0 <= j < items.len() && (#[trigger] items[j]).selectable_view();
        lemma_permutation_onto(p, items.len() as int, j);
        let i = choose|i: int| 0 <= i < items.len() && p[i] == j;
        assert(sorted[i] == items[p[i]]);
    }
}

fn clean_marker_str(branch: &Branch) -> (marker: &'static str)
    ensures
        marker@ == clean_marker(*branch),
{
    if !branch.selectable {
        "[-] "
    } else if branch.selected {
        "[x] "
    } else {
        "[ ] "
    }
}

fn annotation_str(operation: &SingleOperation, name: &str) -> (annotation: &'static str)
    ensures
        annotation@ == single_annotation(*operation, name@),
{
    match operation {
        SingleOperation::Rebase { last_target: Some(target) } => {
            if str_eq(target.as_str(), name) {
                " (last rebased onto)"
            } else {
                ""
            }
        },
        _ => "",
    }
}

/// The key help line of the clean picker.
pub open spec fn clean_help() -> Seq<char> {
    "type search   ↑/↓ navigate   space toggle   cmd/ctrl+enter delete selected   esc quit"@
}

/// The key help line of a single-selection picker for `operation`.
pub open spec fn single_help(operation: SingleOperation) -> Seq<char> {
    match operation {
        SingleOperation::Switch => "type search   ↑/↓ navigate   enter switch to branch   esc quit"@,
        SingleOperation::Rebase { .. } => "type search   ↑/↓ navigate   enter rebase onto branch   esc quit"@,
        SingleOperation::Merge => "type search   ↑/↓ navigate   enter merge branch   esc quit"@,
        SingleOperation::Delete => "type search   ↑/↓ navigate   enter delete branch   esc quit"@,
    }
}

/// The targets of an optional name, as a value of specification.
pub open spec fn name_option(name: Option<String>) -> Option<Seq<char>> {
    match name {
        Some(n) => Some(n@),
        None => None,
    }
}

/// Whether the clean picker can mark any of `branches`.
pub open spec fn cleans_any(branches: Seq<CleanBranch>) -> bool {
    exists|i: int| 0 <= i < branches.len() && (#[trigger] Branch::clean_spec(branches[i])).selectable_view()
}

impl AppImpl<CleanMode> {
    /// Whether this picker can complete with `picked`: the marked branches,
    /// at least one, of a state that offers what this one offers with only
    /// selectable branches marked.
    pub open spec fn can_complete_with(self, picked: Seq<LocalBranch>) -> bool {
        exists|after: Seq<Branch>|
            #![trigger marked_branches(after)]
            same_offer(self.branches_view(), after) && marks_selectable(after) && marked_branches(after).len()
                > 0 && picked == marked_branches(after)
    }

    /// This is the clean picker over `branches` as it starts: sorted by the
    /// clean order, in the search order of an empty search, with the first
    /// selection.
    pub open spec fn is_clean_picker(self, branches: Seq<CleanBranch>) -> bool {
        &&& self.wf()
        &&& self.fresh()
        &&& self.query_view() == Seq::<char>::empty()
        &&& sorted_by_key(
            self.branches_view(),
            branches.map_values(|branch: CleanBranch| Branch::clean_spec(branch)),
            clean_order_key(),
        )
    }

    /// The clean picker over `branches`, marked ones first, then the other
    /// selectable ones, then the rest, each group by name. `None` when no
    /// branch can be deleted.
    pub fn clean(branches: Vec<CleanBranch>) -> (app: Option<Self>)
        ensures
            app is Some <==> cleans_any(branches@),
            app matches Some(app) ==> app.is_clean_picker(branches@),
    {
        let ghost input = branches@;
        let ghost expected = input.map_values(|branch: CleanBranch| Branch::clean_spec(branch));
        let total = branches.len();
        let mut rest = branches;
        let mut items: Vec<(SortKey, Branch)> = Vec::new();
        let mut k: usize = 0;
        while rest.len() > 0
            invariant
                k + rest.len() == total,
                total == input.len(),
                rest@ == input.skip(k as int),
                items.len() == k,
                expected == input.map_values(|branch: CleanBranch| Branch::clean_spec(branch)),
                forall|m: int|
                    0 <= m < k ==> (#[trigger] items@[m]).1 == expected[m] && items@[m].0.key_view()
                        == (clean_order_key())(items@[m].1),
            decreases rest.len(),
        {
            let clean = rest.remove(0);
            proof {
                assert(clean == input[k as int]);
                assert(rest@ =~= input.skip(k + 1));
            }
            let branch = Branch::clean(clean);
            let group: u8 = if branch.selectable {
                if branch.selected {
                    0
                } else {
                    1
                }
            } else {
                2
            };
            let key = SortKey { group, recency: None, first: chars_of(branch.name()), second: Vec::new() };
            proof {
                assert(key.second@ =~= Seq::<char>::empty());
            }
            items.push((key, branch));
            k = k + 1;
        }
        proof {
            assert(items@.map_values(|item: (SortKey, Branch)| item.1) =~= expected);
        }
        let sorted = sort_by_keys(items, Ghost(clean_order_key()));
        proof {
            lemma_sorted_selectable(sorted@, expected, clean_order_key());
            assert forall|i: int| 0 <= i < input.len() implies (#[trigger] Branch::clean_spec(input[i])).selectable_view()
                == expected[i].selectable_view() by {}
        }
        Self::from_branches(sorted, CleanMode, Search::new())
    }

    /// The marked branches in canonical order, or `None` when none is marked:
    /// an empty selection is taken to be an accident.
    pub fn output(&self) -> (branches: Option<Vec<LocalBranch>>)
        ensures
            match branches {
                Some(v) => v@ == marked_branches(self.branches_view()) && v.len() > 0,
                None => marked_branches(self.branches_view()).len() == 0,
            },
    {
        let mut marked: Vec<LocalBranch> = Vec::new();
        let mut i: usize = 0;
        while i < self.branches.len()
            invariant
                i <= self.branches.len(),
                marked@ == marked_branches(self.branches@.take(i as int)),
            decreases self.branches.len() - i,
        {
            proof {
                assert(self.branches@.take(i + 1).drop_last() =~= self.branches@.take(i as int));
            }
            if self.branches[i].selected {
                marked.push(self.branches[i].branch.clone());
            }
            i = i + 1;
        }
        proof {
            assert(self.branches@.take(i as int) =~= self.branches@);
        }
        if marked.len() == 0 {
            None
        } else {
            Some(marked)
        }
    }

    /// Handles an action of the user: moves, toggles, edits the search,
    /// completes with the marked branches on a modified confirmation when
    /// any is marked, or cancels.
    pub fn update(&mut self, action: Action) -> (transition: Transition<Vec<LocalBranch>>)
        requires
            old(self).wf(),
        ensures
            final(self).wf(),
            same_offer(old(self).branches_view(), final(self).branches_view()),
            match action {
                Action::Next => transition == Transition::<Vec<LocalBranch>>::Continue && old(
                    self,
                ).moved_next(*final(self)),
                Action::Previous => transition == Transition::<Vec<LocalBranch>>::Continue && old(
                    self,
                ).moved_previous(*final(self)),
                Action::Toggle => transition == Transition::<Vec<LocalBranch>>::Continue && old(
                    self,
                ).toggled_into(*final(self)),
                Action::Search(request) => transition == Transition::<Vec<LocalBranch>>::Continue
                    && old(self).searched_into(*final(self), request),
                Action::Confirm(confirmation) => {
                    &&& *final(self) == *old(self)
                    &&& if confirmation == Confirmation::Modified && marked_branches(
                        old(self).branches_view(),
                    ).len() > 0 {
                        transition matches Transition::Complete(v) && v@ == marked_branches(
                            old(self).branches_view(),
                        )
                    } else {
                        transition == Transition::<Vec<LocalBranch>>::Continue
                    }
                },
                Action::Cancel => *final(self) == *old(self) && transition
                    == Transition::<Vec<LocalBranch>>::Cancel,
            },
    {
        match action {
            Action::Next => {
                self.next();
                Transition::Continue
            },
            Action::Previous => {
                self.previous();
                Transition::Continue
            },
            Action::Toggle => {
                self.toggle();
                Transition::Continue
            },
            Action::Search(request) => {
                self.update_search(request);
                Transition::Continue
            },
            Action::Confirm(confirmation) => {
                if confirmation == Confirmation::Modified {
                    match self.output() {
                        Some(branches) => Transition::Complete(branches),
                        None => Transition::Continue,
                    }
                } else {
                    Transition::Continue
                }
            },
            Action::Cancel => Transition::Cancel,
        }
    }

    /// The text of each branch, in canonical order: its mark, name, and
    /// where it is checked out.
    pub fn branch_texts(&self) -> (texts: Vec<String>)
        ensures
            texts.len() == self.branches_view().len(),
            forall|i: int| 0 <= i < texts.len() ==> (#[trigger] texts@[i])@ == clean_text(self.branches_view()[i]),
    {
        let mut texts: Vec<String> = Vec::new();
        let mut i: usize = 0;
        while i < self.branches.len()
            invariant
                i <= self.branches.len(),
                texts.len() == i,
                forall|k: int| 0 <= k < i ==> (#[trigger] texts@[k])@ == clean_text(self.branches@[k]),
            decreases self.branches.len() - i,
        {
            let branch = &self.branches[i];
            let mut text = String::new();
            push_str(&mut text, clean_marker_str(branch));
            push_str(&mut text, branch.name());
            push_str(&mut text, status_str(branch.branch.checkout()));
            texts.push(text);
            i = i + 1;
        }
        texts
    }

    /// The clean picker's mark for `branch`.
    pub fn marker(&self, branch: &Branch) -> (marker: &'static str)
        ensures
            marker@ == clean_marker(*branch),
    {
        clean_marker_str(branch)
    }

    /// The key help line.
    pub fn help(&self) -> (help: &'static str)
        ensures
            help@ == clean_help(),
    {
        "type search   ↑/↓ navigate   space toggle   cmd/ctrl+enter delete selected   esc quit"
    }
}

/// Whether a single-selection picker for `operation` offers any of
/// `branches`.
pub open spec fn offers_any(operation: SingleOperation, branches: Seq<LocalBranch>) -> bool {
    exists|i: int| 0 <= i < branches.len() && single_selectable(operation, #[trigger] branches[i])
}

impl AppImpl<SingleMode> {
    /// Whether this picker can complete with `picked`: a selectable branch
    /// that it offers.
    pub open spec fn can_complete_with(self, picked: LocalBranch) -> bool {
        exists|i: int|
            0 <= i < self.branches_view().len() && (#[trigger] self.branches_view()[i]).selectable_view()
                && self.branches_view()[i].local() == picked
    }

    /// This is the picker for `operation` over `branches`, as it starts with
    /// the search `initial`: sorted by `key`, in the search order, with the
    /// first selection.
    pub open spec fn is_single_picker(
        self,
        branches: Seq<LocalBranch>,
        operation: SingleOperation,
        initial: Seq<char>,
        key: spec_fn(Branch) -> KeyView,
    ) -> bool {
        &&& self.wf()
        &&& self.fresh()
        &&& self.mode_view().operation_view() == operation
        &&& self.query_view() == initial
        &&& sorted_by_key(
            self.branches_view(),
            branches.map_values(|branch: LocalBranch| Branch::single_spec(operation, branch)),
            key,
        )
    }

    /// A single-selection picker for `operation` over `branches`, sorted by
    /// `key`, whose keys `ranks` and `by_name` give.
    fn single(
        branches: Vec<LocalBranch>,
        operation: SingleOperation,
        ranks: Vec<Option<usize>>,
        by_name: bool,
        initial_search: Option<String>,
        Ghost(key): Ghost<spec_fn(Branch) -> KeyView>,
    ) -> (app: Option<Self>)
        requires
            ranks.len() == branches.len(),
            forall|i: int|
                0 <= i < branches.len() ==> single_key(rank_int(#[trigger] ranks@[i]), by_name, Branch::single_spec(operation, branches@[i]))
                    == key(Branch::single_spec(operation, branches@[i])),
        ensures
            app is Some <==> offers_any(operation, branches@),
            app matches Some(app) ==> app.is_single_picker(
                branches@,
                operation,
                initial_query(initial_search),
                key,
            ),
    {
        let items = keyed_single(&branches, &operation, &ranks, by_name);
        let ghost expected = branches@.map_values(|branch: LocalBranch| Branch::single_spec(operation, branch));
        proof {
            assert(items@.map_values(|item: (SortKey, Branch)| item.1) =~= expected);
        }
        let sorted = sort_by_keys(items, Ghost(key));
        proof {
            lemma_sorted_selectable(sorted@, expected, key);
            assert forall|i: int| 0 <= i < branches.len() implies single_selectable(operation, #[trigger] branches@[i])
                == expected[i].selectable_view() by {}
        }
        Self::from_branches(sorted, SingleMode { operation }, initial_search_bar(initial_search))
    }

    /// The switch picker: switchable branches first, each group by the rank of
    /// the latest switch (most recent first), then by name.
    pub fn switch(branches: Vec<LocalBranch>, history: &SwitchHistory, initial_search: Option<String>) -> (app: Option<Self>)
        ensures
            app is Some <==> offers_any(SingleOperation::Switch, branches@),
            app matches Some(app) ==> app.is_single_picker(
                branches@,
                SingleOperation::Switch,
                initial_query(initial_search),
                switch_order_key(history.entries()),
            ),
    {
        let mut ranks: Vec<Option<usize>> = Vec::new();
        let mut i: usize = 0;
        while i < branches.len()
            invariant
                i <= branches.len(),
                ranks.len() == i,
                forall|k: int| 0 <= k < i ==> rank_int(#[trigger] ranks@[k]) == lookup(history.entries(), branches@[k].name_view()),
            decreases branches.len() - i,
        {
            let rank = history.rank(branches[i].name());
            ranks.push(rank);
            i = i + 1;
        }
        Self::single(branches, SingleOperation::Switch, ranks, true, initial_search, Ghost(switch_order_key(history.entries())))
    }

    /// The rebase picker: branches other than the current one first; the last
    /// target leads its group and the rest follow by name. With no last target
    /// the order given is kept.
    pub fn rebase(branches: Vec<LocalBranch>, last_target: Option<String>, initial_search: Option<String>) -> (app: Option<Self>)
        ensures
            app is Some <==> offers_any(SingleOperation::Rebase { last_target }, branches@),
            app matches Some(app) ==> app.is_single_picker(
                branches@,
                SingleOperation::Rebase { last_target },
                initial_query(initial_search),
                rebase_order_key(name_option(last_target)),
            ),
    {
        let mut ranks: Vec<Option<usize>> = Vec::new();
        let mut i: usize = 0;
        while i < branches.len()
            invariant
                i <= branches.len(),
                ranks.len() == i,
                forall|k: int| 0 <= k < i ==> rank_int(#[trigger] ranks@[k]) == match name_option(last_target) {
                    Some(target) => if branches@[k].name_view() == target { Some(1int) } else { None },
                    None => None,
                },
            decreases branches.len() - i,
        {
            let rank = match &last_target {
                Some(target) => if str_eq(target.as_str(), branches[i].name()) {
                    Some(1)
                } else {
                    None
                },
                None => None,
            };
            ranks.push(rank);
            i = i + 1;
        }
        let by_name = last_target.is_some();
        let ghost key = rebase_order_key(name_option(last_target));
        Self::single(branches, SingleOperation::Rebase { last_target }, ranks, by_name, initial_search, Ghost(key))
    }

    /// The merge picker: branches other than the current one first, each
    /// group by the rank of the latest merge into `destination` (most recent
    /// first), then by name.
    pub fn merge(
        branches: Vec<LocalBranch>,
        destination: &str,
        history: &MergeHistory,
        initial_search: Option<String>,
    ) -> (app: Option<Self>)
        ensures
            app is Some <==> offers_any(SingleOperation::Merge, branches@),
            app matches Some(app) ==> app.is_single_picker(
                branches@,
                SingleOperation::Merge,
                initial_query(initial_search),
                merge_order_key(history.entries(), destination@),
            ),
    {
        let mut ranks: Vec<Option<usize>> = Vec::new();
        let mut i: usize = 0;
        while i < branches.len()
            invariant
                i <= branches.len(),
                ranks.len() == i,
                forall|k: int| 0 <= k < i ==> rank_int(#[trigger] ranks@[k]) == lookup(
                    history.entries(),
                    (destination@, branches@[k].name_view()),
                ),
            decreases branches.len() - i,
        {
            let rank = history.rank(destination, branches[i].name());
            ranks.push(rank);
            i = i + 1;
        }
        Self::single(branches, SingleOperation::Merge, ranks, true, initial_search, Ghost(merge_order_key(history.entries(), destination@)))
    }

    /// The delete picker: branches checked out nowhere first, in the order
    /// given.
    pub fn delete(branches: Vec<LocalBranch>, initial_search: Option<String>) -> (app: Option<Self>)
        ensures
            app is Some <==> offers_any(SingleOperation::Delete, branches@),
            app matches Some(app) ==> app.is_single_picker(
                branches@,
                SingleOperation::Delete,
                initial_query(initial_search),
                delete_order_key(),
            ),
    {
        let mut ranks: Vec<Option<usize>> = Vec::new();
        let mut i: usize = 0;
        while i < branches.len()
            invariant
                i <= branches.len(),
                ranks.len() == i,
                forall|k: int| 0 <= k < i ==> (#[trigger] ranks@[k]) is None,
            decreases branches.len() - i,
        {
            ranks.push(None);
            i = i + 1;
        }
        Self::single(branches, SingleOperation::Delete, ranks, false, initial_search, Ghost(delete_order_key()))
    }

    /// The highlighted branch, when it is selectable, as it always is.
    pub fn output(&self) -> (branch: Option<LocalBranch>)
        requires
            self.wf(),
        ensures
            branch == Some(self.branch_at(self.position_view()).local()),
    {
        let branch = &self.branches[self.branch_order[self.position]];
        if branch.selectable {
            Some(branch.branch.clone())
        } else {
            None
        }
    }

    /// Handles an action of the user: moves, toggles, edits the search,
    /// completes with the highlighted branch on any confirmation, or cancels.
    pub fn update(&mut self, action: Action) -> (transition: Transition<LocalBranch>)
        requires
            old(self).wf(),
        ensures
            final(self).wf(),
            same_offer(old(self).branches_view(), final(self).branches_view()),
            match action {
                Action::Next => transition == Transition::<LocalBranch>::Continue && old(self).moved_next(
                    *final(self),
                ),
                Action::Previous => transition == Transition::<LocalBranch>::Continue && old(
                    self,
                ).moved_previous(*final(self)),
                Action::Toggle => transition == Transition::<LocalBranch>::Continue && old(
                    self,
                ).toggled_into(*final(self)),
                Action::Search(request) => transition == Transition::<LocalBranch>::Continue && old(
                    self,
                ).searched_into(*final(self), request),
                Action::Confirm(_) => *final(self) == *old(self) && transition == Transition::Complete(
                    old(self).branch_at(old(self).position_view()).local(),
                ),
                Action::Cancel => *final(self) == *old(self) && transition
                    == Transition::<LocalBranch>::Cancel,
            },
    {
        match action {
            Action::Next => {
                self.next();
                Transition::Continue
            },
            Action::Previous => {
                self.previous();
                Transition::Continue
            },
            Action::Toggle => {
                self.toggle();
                Transition::Continue
            },
            Action::Search(request) => {
                self.update_search(request);
                Transition::Continue
            },
            Action::Confirm(_) => match self.output() {
                Some(branch) => Transition::Complete(branch),
                None => Transition::Continue,
            },
            Action::Cancel => Transition::Cancel,
        }
    }

    /// The text of each branch, in canonical order: its name, where it is
    /// checked out, and the note of the operation.
    pub fn branch_texts(&self) -> (texts: Vec<String>)
        ensures
            texts.len() == self.branches_view().len(),
            forall|i: int|
                0 <= i < texts.len() ==> (#[trigger] texts@[i])@ == single_text(
                    self.mode_view().operation_view(),
                    self.branches_view()[i],
                ),
    {
        let mut texts: Vec<String> = Vec::new();
        let mut i: usize = 0;
        while i < self.branches.len()
            invariant
                i <= self.branches.len(),
                texts.len() == i,
                forall|k: int|
                    0 <= k < i ==> (#[trigger] texts@[k])@ == single_text(self.mode.operation, self.branches@[k]),
            decreases self.branches.len() - i,
        {
            let branch = &self.branches[i];
            let mut text = String::new();
            push_str(&mut text, branch.name());
            push_str(&mut text, status_str(branch.branch.checkout()));
            push_str(&mut text, annotation_str(&self.mode.operation, branch.name()));
            texts.push(text);
            i = i + 1;
        }
        texts
    }

    /// The note after `branch`: the rebase picker names the last target.
    pub fn annotation(&self, branch: &Branch) -> (annotation: &'static str)
        ensures
            annotation@ == single_annotation(self.mode_view().operation_view(), branch.name_view()),
    {
        annotation_str(&self.mode.operation, branch.name())
    }

    /// The key help line.
    pub fn help(&self) -> (help: &'static str)
        ensures
            help@ == single_help(self.mode_view().operation_view()),
    {
        match &self.mode.operation {
            SingleOperation::Switch => "type search   ↑/↓ navigate   enter switch to branch   esc quit",
            SingleOperation::Rebase { .. } => "type search   ↑/↓ navigate   enter rebase onto branch   esc quit",
            SingleOperation::Merge => "type search   ↑/↓ navigate   enter merge branch   esc quit",
            SingleOperation::Delete => "type search   ↑/↓ navigate   enter delete branch   esc quit",
        }
    }
}


/// Toggling a branch twice leaves it as it was.
pub proof fn law_toggle_twice(branch: Branch)
    ensures
        branch.toggled().toggled() == branch,
{
}

proof fn lemma_no_marks(marks: Seq<bool>, k: int)
    requires
        0 <= k <= marks.len(),
        marks.len() <= usize::MAX,
        forall|i: int| 0 <= i < marks.len() ==> !#[trigger] marks[i],
    ensures
        indices_where(marks, true, k) == Seq::<usize>::empty(),
        indices_where(marks, false, k) == Seq::new(k as nat, |i: int| i as usize),
    decreases k,
{
    if k > 0 {
        lemma_no_marks(marks, k - 1);
        assert(indices_where(marks, true, k) =~= Seq::<usize>::empty());
        assert(indices_where(marks, false, k) =~= Seq::new(k as nat, |i: int| i as usize));
    }
}

/// An empty search shows the branches in their canonical order.
pub proof fn law_empty_search_keeps_canonical_order(branches: Seq<Branch>)
    requires
        branches.len() <= usize::MAX,
    ensures
        search_order(search_marks(branches, Seq::empty())) == Seq::new(
            branches.len(),
            |i: int| i as usize,
        ),
{
    let marks = search_marks(branches, Seq::empty());
    assert forall|i: int| 0 <= i < marks.len() implies !#[trigger] marks[i] by {}
    lemma_no_marks(marks, marks.len() as int);
    assert(search_order(marks) =~= Seq::new(branches.len(), |i: int| i as usize));
}

/// Moving to the next selectable branch and back returns to where it started.
pub proof fn law_next_then_previous<M>(app: AppImpl<M>, from: int, to: int)
    requires
        app.wf(),
        0 <= from < app.branches_view().len(),
        app.selectable_at(from),
        app.next_selectable(from, to),
    ensures
        app.previous_selectable(to, from),
{
    let n = app.branches_view().len() as int;
    let k = choose|k: int|
        1 <= k <= n && to == forward(from, k, n) && forall|j: int|
            1 <= j < k ==> !#[trigger] app.selectable_at(forward(from, j, n));
    assert(backward(to, k, n) == from);
    assert forall|j: int| 1 <= j < k implies !#[trigger] app.selectable_at(backward(to, j, n)) by {
        assert(backward(to, j, n) == forward(from, k - j, n));
        assert(!app.selectable_at(forward(from, k - j, n)));
    }
}

/// Moving to the previous selectable branch and back returns to where it
/// started.
pub proof fn law_previous_then_next<M>(app: AppImpl<M>, from: int, to: int)
    requires
        app.wf(),
        0 <= from < app.branches_view().len(),
        app.selectable_at(from),
        app.previous_selectable(from, to),
    ensures
        app.next_selectable(to, from),
{
    let n = app.branches_view().len() as int;
    let k = choose|k: int|
        1 <= k <= n && to == backward(from, k, n) && forall|j: int|
            1 <= j < k ==> !#[trigger] app.selectable_at(backward(from, j, n));
    assert(forward(to, k, n) == from);
    assert forall|j: int| 1 <= j < k implies !#[trigger] app.selectable_at(forward(to, j, n)) by {
        assert(forward(to, j, n) == backward(from, k - j, n));
        assert(!app.selectable_at(backward(from, k - j, n)));
    }
}


/// The clean picker offers only branches it may delete, a branch checked out
/// nowhere that is not the trunk, and starts with those marked that are
/// merged into the trunk or written by someone else.
pub proof fn law_clean_marks_only_deletable(branch: CleanBranch)
    ensures
        Branch::clean_spec(branch).selectable_view() == (branch.branch_view().checkout_view()
            == Checkout::Available && !branch.trunk_view()),
        Branch::clean_spec(branch).selected_view() == (Branch::clean_spec(branch).selectable_view()
            && (branch.merged_view() || branch.authored_by_other_view())),
        Branch::clean_spec(branch).selected_view() ==> Branch::clean_spec(branch).selectable_view(),
{
}

/// Toggling never marks a branch that cannot be selected.
pub proof fn law_toggle_keeps_marks_selectable(branch: Branch)
    requires
        branch.selected_view() ==> branch.selectable_view(),
    ensures
        branch.toggled().selected_view() ==> branch.toggled().selectable_view(),
        branch.toggled().selectable_view() == branch.selectable_view(),
        branch.toggled().local() == branch.local(),
{
}

/// Each marked branch comes from a marked entry of `branches`.
proof fn lemma_marked_from(branches: Seq<Branch>, k: int)
    requires
        0 <= k < marked_branches(branches).len(),
    ensures
        exists|i: int|
            0 <= i < branches.len() && (#[trigger] branches[i]).selected_view() && branches[i].local()
                == marked_branches(branches)[k],
    decreases branches.len(),
{
    let init = branches.drop_last();
    let tail: Seq<LocalBranch> = if branches.last().selected_view() {
        seq![branches.last().local()]
    } else {
        Seq::empty()
    };
    assert(marked_branches(branches) == marked_branches(init) + tail);
    if k < marked_branches(init).len() {
        lemma_marked_from(init, k);
        let i = choose|i: int|
            0 <= i < init.len() && (#[trigger] init[i]).selected_view() && init[i].local() == marked_branches(
                init,
            )[k];
        assert(branches[i] == init[i]);
    } else {
        assert(marked_branches(branches)[k] == tail[k - marked_branches(init).len()]);
        assert(branches[branches.len() - 1] == branches.last());
    }
}

/// The picker offers the same branches in every state that updates reach
/// from another: offering the same is passed on from state to state.
pub proof fn law_same_offer_chains(first: Seq<Branch>, second: Seq<Branch>, third: Seq<Branch>)
    requires
        same_offer(first, second),
        same_offer(second, third),
    ensures
        same_offer(first, third),
{
}

/// A clean picker that offers what `start` offers, and that is well formed,
/// completes only with what `start` can complete with: when a confirmation
/// finds branches marked, they are a completion of `start`.
pub proof fn law_clean_completion_is_offered(start: AppImpl<CleanMode>, now: AppImpl<CleanMode>)
    requires
        now.wf(),
        same_offer(start.branches_view(), now.branches_view()),
        marked_branches(now.branches_view()).len() > 0,
    ensures
        start.can_complete_with(marked_branches(now.branches_view())),
{
}

/// A single-selection picker that offers what `start` offers, and that is
/// well formed, completes with a branch `start` can complete with: the
/// highlighted one.
pub proof fn law_single_completion_is_offered(start: AppImpl<SingleMode>, now: AppImpl<SingleMode>)
    requires
        now.wf(),
        same_offer(start.branches_view(), now.branches_view()),
    ensures
        start.can_complete_with(now.branch_at(now.position_view()).local()),
{
    let i = now.order_view()[now.position_view()] as int;
    assert(start.branches_view()[i].selectable_view());
}

/// The clean picker over `branches` completes only with branches it may
/// delete: at least one, each a branch of `branches` checked out nowhere
/// and not the trunk.
pub proof fn law_clean_pick_is_deletable(app: AppImpl<CleanMode>, branches: Seq<CleanBranch>, picked: Seq<LocalBranch>)
    requires
        app.is_clean_picker(branches),
        app.can_complete_with(picked),
    ensures
        picked.len() > 0,
        forall|k: int| 0 <= k < picked.len() ==> deletable_in(branches, #[trigger] picked[k]),
{
    let after = choose|after: Seq<Branch>|
        #![trigger marked_branches(after)]
        same_offer(app.branches_view(), after) && marks_selectable(after) && marked_branches(after).len() > 0
            && picked == marked_branches(after);
    let items = branches.map_values(|branch: CleanBranch| Branch::clean_spec(branch));
    let p = choose|p: Seq<int>| sorted_by_key_with(app.branches_view(), items, clean_order_key(), p);
    assert forall|k: int| 0 <= k < picked.len() implies deletable_in(branches, #[trigger] picked[k]) by {
        lemma_marked_from(after, k);
        let i = choose|i: int|
            0 <= i < after.len() && (#[trigger] after[i]).selected_view() && after[i].local()
                == marked_branches(after)[k];
        assert(after[i].selectable_view());
        assert(app.branches_view()[i] == items[p[i]]);
        let j = p[i];
        assert(items[j] == Branch::clean_spec(branches[j]));
        assert(branches[j].branch_view() == picked[k]);
    }
}

/// Whether `picked` is one of `branches` that is checked out nowhere and is
/// not the trunk.
pub open spec fn deletable_in(branches: Seq<CleanBranch>, picked: LocalBranch) -> bool {
    exists|j: int|
        0 <= j < branches.len() && (#[trigger] branches[j]).branch_view() == picked
            && branches[j].branch_view().checkout_view() == Checkout::Available && !branches[j].trunk_view()
}

/// A single-selection picker for `operation` over `branches` completes only
/// with a branch of `branches` that the operation offers.
pub proof fn law_single_pick_is_offered(
    app: AppImpl<SingleMode>,
    branches: Seq<LocalBranch>,
    operation: SingleOperation,
    initial: Seq<char>,
    key: spec_fn(Branch) -> KeyView,
    picked: LocalBranch,
)
    requires
        app.is_single_picker(branches, operation, initial, key),
        app.can_complete_with(picked),
    ensures
        exists|j: int| 0 <= j < branches.len() && #[trigger] branches[j] == picked,
        single_selectable(operation, picked),
{
    let items = branches.map_values(|branch: LocalBranch| Branch::single_spec(operation, branch));
    let p = choose|p: Seq<int>| sorted_by_key_with(app.branches_view(), items, key, p);
    let i = choose|i: int|
        0 <= i < app.branches_view().len() && (#[trigger] app.branches_view()[i]).selectable_view()
            && app.branches_view()[i].local() == picked;
    assert(app.branches_view()[i] == items[p[i]]);
    let j = p[i];
    assert(items[j] == Branch::single_spec(operation, branches[j]));
    assert(branches[j] == picked);
}

} // verus!
