use vstd::prelude::*;

use crate::order::{sort_by_keys, sorted_by_key, sorted_by_key_with, KeyView, SortKey};
use crate::text::{chars_of, law_lex_is_str_order, lex_lt};

verus! {

/// Where a local branch is checked out.
#[derive(Clone, Copy, Debug, PartialEq, Eq, Structural)]
pub enum Checkout {
    Available,
    CurrentWorktree,
    OtherWorktree,
}

/// A local branch and where it is checked out.
#[derive(Debug, PartialEq, Eq)]
pub struct LocalBranch {
    name: String,
    checkout: Checkout,
}

impl LocalBranch {
    /// The name of the branch, as a sequence of characters.
    pub closed spec fn name_view(&self) -> Seq<char> {
        self.name@
    }

    pub closed spec fn checkout_view(&self) -> Checkout {
        self.checkout
    }

    pub fn new(name: String, checkout: Checkout) -> (branch: LocalBranch)
        ensures
            branch.name_view() == name@,
            branch.checkout_view() == checkout,
    {
        LocalBranch { name, checkout }
    }

    pub fn name(&self) -> (name: &str)
        ensures
            name@ == self.name_view(),
    {
        self.name.as_str()
    }

    pub fn checkout(&self) -> (checkout: Checkout)
        ensures
            checkout == self.checkout_view(),
    {
        self.checkout
    }

    /// Whether the branch is checked out in the current worktree.
    pub fn is_current(&self) -> (current: bool)
        ensures
            current == (self.checkout_view() == Checkout::CurrentWorktree),
    {
        self.checkout == Checkout::CurrentWorktree
    }

    /// Whether the branch can be deleted: it is checked out nowhere.
    pub fn is_deletable(&self) -> (deletable: bool)
        ensures
            deletable == (self.checkout_view() == Checkout::Available),
    {
        self.checkout == Checkout::Available
    }

    /// Whether the current worktree can switch to the branch: it is checked
    /// out nowhere.
    pub fn is_switchable(&self) -> (switchable: bool)
        ensures
            switchable == (self.checkout_view() == Checkout::Available),
    {
        self.checkout == Checkout::Available
    }

    /// Whether the current branch can be rebased onto the branch: it is not
    /// the branch of the current worktree.
    pub fn is_rebase_target(&self) -> (target: bool)
        ensures
            target == (self.checkout_view() != Checkout::CurrentWorktree),
    {
        self.checkout != Checkout::CurrentWorktree
    }

    /// Whether the branch can be merged into the current branch: it is not
    /// the branch of the current worktree.
    pub fn is_merge_source(&self) -> (source: bool)
        ensures
            source == (self.checkout_view() != Checkout::CurrentWorktree),
    {
        self.checkout != Checkout::CurrentWorktree
    }
}

impl Clone for LocalBranch {
    fn clone(&self) -> (branch: LocalBranch)
        ensures
            branch == *self,
    {
        LocalBranch { name: self.name.clone(), checkout: self.checkout }
    }
}

/// A local branch with what the clean command decides it by.
#[derive(Clone, Debug, PartialEq, Eq)]
pub struct CleanBranch {
    branch: LocalBranch,
    is_trunk: bool,
    is_merged: bool,
    is_authored_by_other: bool,
}

impl CleanBranch {
    pub closed spec fn branch_view(&self) -> LocalBranch {
        self.branch
    }

    pub closed spec fn trunk_view(&self) -> bool {
        self.is_trunk
    }

    pub closed spec fn merged_view(&self) -> bool {
        self.is_merged
    }

    pub closed spec fn authored_by_other_view(&self) -> bool {
        self.is_authored_by_other
    }

    pub fn new(branch: LocalBranch, is_trunk: bool, is_merged: bool, is_authored_by_other: bool) -> (clean: CleanBranch)
        ensures
            clean.branch_view() == branch,
            clean.trunk_view() == is_trunk,
            clean.merged_view() == is_merged,
            clean.authored_by_other_view() == is_authored_by_other,
    {
        CleanBranch { branch, is_trunk, is_merged, is_authored_by_other }
    }

    pub fn name(&self) -> (name: &str)
        ensures
            name@ == self.branch_view().name_view(),
    {
        self.branch.name()
    }

    pub fn branch(&self) -> (branch: &LocalBranch)
        ensures
            *branch == self.branch_view(),
    {
        &self.branch
    }

    /// Whether the branch is the trunk, `main` or `master`.
    pub fn is_trunk(&self) -> (trunk: bool)
        ensures
            trunk == self.trunk_view(),
    {
        self.is_trunk
    }

    /// Whether the trunk holds the branch's work.
    pub fn is_merged(&self) -> (merged: bool)
        ensures
            merged == self.merged_view(),
    {
        self.is_merged
    }

    /// Whether someone other than the configured user wrote the branch's tip.
    pub fn is_authored_by_other(&self) -> (other: bool)
        ensures
            other == self.authored_by_other_view(),
    {
        self.is_authored_by_other
    }

    pub fn into_branch(self) -> (branch: LocalBranch)
        ensures
            branch == self.branch_view(),
    {
        self.branch
    }
}


/// Where a branch is checked out: in the current worktree when it is `HEAD`,
/// else in another worktree when one has it checked out, else nowhere.
pub fn checkout_of(is_head: bool, checked_out_elsewhere: bool) -> (checkout: Checkout)
    ensures
        checkout == if is_head {
            Checkout::CurrentWorktree
        } else if checked_out_elsewhere {
            Checkout::OtherWorktree
        } else {
            Checkout::Available
        },
{
    if is_head {
        Checkout::CurrentWorktree
    } else if checked_out_elsewhere {
        Checkout::OtherWorktree
    } else {
        Checkout::Available
    }
}

/// What branches are listed by: their names.
pub open spec fn name_key() -> spec_fn(LocalBranch) -> KeyView {
    |branch: LocalBranch|
        KeyView { group: 0, recency: None, first: branch.name_view(), second: Seq::empty() }
}

/// `branches` ordered by name.
pub fn branches_by_name(branches: Vec<LocalBranch>) -> (sorted: Vec<LocalBranch>)
    ensures
        sorted_by_key(sorted@, branches@, name_key()),
{
    let ghost input = branches@;
    let total = branches.len();
    let mut rest = branches;
    let mut items: Vec<(SortKey, LocalBranch)> = Vec::new();
    let mut k: usize = 0;
    while rest.len() > 0
        invariant
            k + rest.len() == total,
            total == input.len(),
            rest@ == input.skip(k as int),
            items.len() == k,
            forall|m: int|
                0 <= m < k ==> (#[trigger] items@[m]).1 == input[m] && items@[m].0.key_view()
                    == (name_key())(items@[m].1),
        decreases rest.len(),
    {
        let branch = rest.remove(0);
        proof {
            assert(branch == input[k as int]);
            assert(rest@ =~= input.skip(k + 1));
        }
        let key = SortKey { group: 0, recency: None, first: chars_of(branch.name()), second: Vec::new() };
        proof {
            assert(key.second@ =~= Seq::<char>::empty());
        }
        items.push((key, branch));
        k = k + 1;
    }
    proof {
        assert(items@.map_values(|item: (SortKey, LocalBranch)| item.1) =~= input);
    }
    sort_by_keys(items, Ghost(name_key()))
}

/// The names of `branches`, in order.
pub fn local_branch_names(branches: &Vec<LocalBranch>) -> (names: Vec<String>)
    ensures
        names@.map_values(|name: String| name@) == branches@.map_values(|branch: LocalBranch| branch.name_view()),
{
    let mut names: Vec<String> = Vec::new();
    let mut i: usize = 0;
    while i < branches.len()
        invariant
            i <= branches.len(),
            names@.map_values(|name: String| name@) == branches@.take(i as int).map_values(
                |branch: LocalBranch| branch.name_view(),
            ),
        decreases branches.len() - i,
    {
        let name = branches[i].name().to_owned();
        proof {
            assert(names@.push(name).map_values(|name: String| name@) =~= names@.map_values(
                |name: String| name@,
            ).push(name@));
            assert(branches@.take(i + 1).map_values(|branch: LocalBranch| branch.name_view()) =~= branches@.take(
                i as int,
            ).map_values(|branch: LocalBranch| branch.name_view()).push(branches@[i as int].name_view()));
        }
        names.push(name);
        i = i + 1;
    }
    proof {
        assert(branches@.take(i as int) =~= branches@);
    }
    names
}

/// Ordered by name, a branch comes before every branch whose name its own
/// name begins, and before every branch whose name has a later character
/// where the two names first differ.
pub proof fn law_branches_by_name_order(sorted: Seq<LocalBranch>, branches: Seq<LocalBranch>, i: int, j: int)
    requires
        sorted_by_key(sorted, branches, name_key()),
        0 <= i < sorted.len(),
        0 <= j < sorted.len(),
        lex_lt(sorted[i].name_view(), sorted[j].name_view()),
    ensures
        i < j,
{
    let p = choose|p: Seq<int>| sorted_by_key_with(sorted, branches, name_key(), p);
    crate::text::lemma_lex_irreflexive(sorted[i].name_view());
    assert(sorted[i].name_view() != sorted[j].name_view());
    let ki = name_key()(sorted[i]);
    let kj = name_key()(sorted[j]);
    assert(ki.first == sorted[i].name_view() && kj.first == sorted[j].name_view());
    assert(ki.group == kj.group && ki.recency == kj.recency);
    assert(crate::order::view_lt(ki, kj));
    if j < i {
        assert(!crate::order::view_lt(name_key()(sorted[i]), name_key()(sorted[j])));
    }
}

/// In the name order a name that another name begins comes first.
pub proof fn law_prefix_names_first(sorted: Seq<LocalBranch>, branches: Seq<LocalBranch>, i: int, j: int, rest: Seq<char>)
    requires
        sorted_by_key(sorted, branches, name_key()),
        0 <= i < sorted.len(),
        0 <= j < sorted.len(),
        rest.len() > 0,
        sorted[j].name_view() == sorted[i].name_view() + rest,
    ensures
        i < j,
{
    law_lex_is_str_order(sorted[i].name_view(), rest, 'a', 'a', Seq::empty(), Seq::empty());
    law_branches_by_name_order(sorted, branches, i, j);
}

} // verus!
