//! What the library decides about a repository: the operation in progress,
//! the trunk, how branches are judged for cleaning, which operations are
//! refused, and what a failed `git` command reports.

use vstd::prelude::*;

use crate::git::branch::{CleanBranch, LocalBranch};
use crate::text::{chars_of, str_eq, string_of, trim_white_space, trimmed};

verus! {

#[verifier::external_type_specification]
#[verifier::external_body]
pub struct ExRepositoryState(git2::RepositoryState);

/// The states a repository can be in, one for each of `git2::RepositoryState`.
#[derive(Clone, Copy, Debug, PartialEq, Eq, Structural)]
pub enum RepositoryStatus {
    Clean,
    Merge,
    Revert,
    RevertSequence,
    CherryPick,
    CherryPickSequence,
    Bisect,
    Rebase,
    RebaseInteractive,
    RebaseMerge,
    ApplyMailbox,
    ApplyMailboxOrRebase,
}

/// The variant of `RepositoryStatus` that stands for `state`, a variant of
/// `git2::RepositoryState`: the one of the same name.
pub uninterp spec fn status_of(state: git2::RepositoryState) -> RepositoryStatus;

/// Tells the variants of `git2::RepositoryState` apart, one for one: the
/// result is the variant of the same name.
#[verifier::external_body]
fn state_of(state: git2::RepositoryState) -> (status: RepositoryStatus)
    ensures
        status == status_of(state),
{
    match state {
        git2::RepositoryState::Clean => RepositoryStatus::Clean,
        git2::RepositoryState::Merge => RepositoryStatus::Merge,
        git2::RepositoryState::Revert => RepositoryStatus::Revert,
        git2::RepositoryState::RevertSequence => RepositoryStatus::RevertSequence,
        git2::RepositoryState::CherryPick => RepositoryStatus::CherryPick,
        git2::RepositoryState::CherryPickSequence => RepositoryStatus::CherryPickSequence,
        git2::RepositoryState::Bisect => RepositoryStatus::Bisect,
        git2::RepositoryState::Rebase => RepositoryStatus::Rebase,
        git2::RepositoryState::RebaseInteractive => RepositoryStatus::RebaseInteractive,
        git2::RepositoryState::RebaseMerge => RepositoryStatus::RebaseMerge,
        git2::RepositoryState::ApplyMailbox => RepositoryStatus::ApplyMailbox,
        git2::RepositoryState::ApplyMailboxOrRebase => RepositoryStatus::ApplyMailboxOrRebase,
    }
}

/// A git operation that is under way in the repository.
#[derive(Clone, Copy, Debug, PartialEq, Eq, Structural)]
pub enum InProgressOperation {
    Merge,
    Revert,
    CherryPick,
    Bisect,
    Rebase,
    MailboxApply,
    MailboxApplyOrRebase,
}

/// The operation under way in a repository in `state`, if any.
pub open spec fn in_progress(state: RepositoryStatus) -> Option<InProgressOperation> {
    match state {
        RepositoryStatus::Clean => None,
        RepositoryStatus::Merge => Some(InProgressOperation::Merge),
        RepositoryStatus::Revert | RepositoryStatus::RevertSequence => Some(InProgressOperation::Revert),
        RepositoryStatus::CherryPick | RepositoryStatus::CherryPickSequence => Some(
            InProgressOperation::CherryPick,
        ),
        RepositoryStatus::Bisect => Some(InProgressOperation::Bisect),
        RepositoryStatus::Rebase | RepositoryStatus::RebaseInteractive
        | RepositoryStatus::RebaseMerge => Some(InProgressOperation::Rebase),
        RepositoryStatus::ApplyMailbox => Some(InProgressOperation::MailboxApply),
        RepositoryStatus::ApplyMailboxOrRebase => Some(InProgressOperation::MailboxApplyOrRebase),
    }
}

/// How an operation is named in messages.
pub open spec fn operation_name(operation: InProgressOperation) -> Seq<char> {
    match operation {
        InProgressOperation::Merge => "merge"@,
        InProgressOperation::Revert => "revert"@,
        InProgressOperation::CherryPick => "cherry-pick"@,
        InProgressOperation::Bisect => "bisect"@,
        InProgressOperation::Rebase => "rebase"@,
        InProgressOperation::MailboxApply => "mailbox apply"@,
        InProgressOperation::MailboxApplyOrRebase => "mailbox apply or rebase"@,
    }
}

impl InProgressOperation {
    /// The operation under way in a repository in `state`.
    pub fn from_state(state: RepositoryStatus) -> (operation: Option<InProgressOperation>)
        ensures
            operation == in_progress(state),
    {
        match state {
            RepositoryStatus::Clean => None,
            RepositoryStatus::Merge => Some(InProgressOperation::Merge),
            RepositoryStatus::Revert | RepositoryStatus::RevertSequence => Some(
                InProgressOperation::Revert,
            ),
            RepositoryStatus::CherryPick | RepositoryStatus::CherryPickSequence => Some(
                InProgressOperation::CherryPick,
            ),
            RepositoryStatus::Bisect => Some(InProgressOperation::Bisect),
            RepositoryStatus::Rebase | RepositoryStatus::RebaseInteractive
            | RepositoryStatus::RebaseMerge => Some(InProgressOperation::Rebase),
            RepositoryStatus::ApplyMailbox => Some(InProgressOperation::MailboxApply),
            RepositoryStatus::ApplyMailboxOrRebase => Some(InProgressOperation::MailboxApplyOrRebase),
        }
    }

    /// The operation under way in a repository in the state that `git2`
    /// reports.
    pub fn from_repository_state(state: git2::RepositoryState) -> (operation: Option<
        InProgressOperation,
    >)
        ensures
            operation == in_progress(status_of(state)),
    {
        let state = state_of(state);
        InProgressOperation::from_state(state)
    }

    /// How the operation is named in messages.
    pub fn description(&self) -> (name: &'static str)
        ensures
            name@ == operation_name(*self),
    {
        match self {
            InProgressOperation::Merge => "merge",
            InProgressOperation::Revert => "revert",
            InProgressOperation::CherryPick => "cherry-pick",
            InProgressOperation::Bisect => "bisect",
            InProgressOperation::Rebase => "rebase",
            InProgressOperation::MailboxApply => "mailbox apply",
            InProgressOperation::MailboxApplyOrRebase => "mailbox apply or rebase",
        }
    }
}

/// How a `git` command that may stop on conflicts ended.
#[derive(Clone, Copy, Debug, PartialEq, Eq, Structural)]
pub enum ConflictableCommandOutcome {
    Completed,
    Conflicted,
}

/// How a command ended: it completed when it succeeded; it stopped on
/// conflicts when it failed and left conflicts where there were none; any
/// other failure is `None`.
pub fn command_outcome(succeeded: bool, had_conflicts: bool, has_conflicts: bool) -> (outcome: Option<
    ConflictableCommandOutcome,
>)
    ensures
        outcome == if succeeded {
            Some(ConflictableCommandOutcome::Completed)
        } else if !had_conflicts && has_conflicts {
            Some(ConflictableCommandOutcome::Conflicted)
        } else {
            None
        },
{
    if succeeded {
        Some(ConflictableCommandOutcome::Completed)
    } else if !had_conflicts && has_conflicts {
        Some(ConflictableCommandOutcome::Conflicted)
    } else {
        None
    }
}

/// Whether some branch is named `name`.
pub open spec fn has_branch(branches: Seq<LocalBranch>, name: Seq<char>) -> bool {
    exists|i: int| 0 <= i < branches.len() && (#[trigger] branches[i]).name_view() == name
}

/// The trunk: `main` when there is such a branch, else `master` when there is
/// such a branch.
pub open spec fn trunk_of(branches: Seq<LocalBranch>) -> Option<Seq<char>> {
    if has_branch(branches, "main"@) {
        Some("main"@)
    } else if has_branch(branches, "master"@) {
        Some("master"@)
    } else {
        None
    }
}

fn find_branch(branches: &Vec<LocalBranch>, name: &str) -> (found: bool)
    ensures
        found == has_branch(branches@, name@),
{
    let mut i: usize = 0;
    while i < branches.len()
        invariant
            i <= branches.len(),
            forall|j: int| 0 <= j < i ==> (#[trigger] branches@[j]).name_view() != name@,
        decreases branches.len() - i,
    {
        if str_eq(branches[i].name(), name) {
            return true;
        }
        i = i + 1;
    }
    false
}

/// The name of the trunk among `branches`.
pub fn trunk_name(branches: &Vec<LocalBranch>) -> (trunk: Option<&'static str>)
    ensures
        match trunk {
            Some(name) => trunk_of(branches@) == Some(name@),
            None => trunk_of(branches@) is None,
        },
{
    if find_branch(branches, "main") {
        Some("main")
    } else if find_branch(branches, "master") {
        Some("master")
    } else {
        None
    }
}

/// The e-mail address that a configured `user.email` gives: none when it is
/// empty.
pub fn configured_email(value: String) -> (email: Option<String>)
    ensures
        match email {
            Some(e) => e@ == value@ && value@.len() > 0,
            None => value@.len() == 0,
        },
{
    if value.as_str().is_empty() {
        None
    } else {
        Some(value)
    }
}

/// Whether someone other than the user wrote a commit: only when the user's
/// address is known, and the author's address can be read and differs.
pub open spec fn authored_by_other(author_email: Option<Seq<char>>, user_email: Option<Seq<char>>) -> bool {
    match (user_email, author_email) {
        (Some(user), Some(author)) => author != user,
        _ => false,
    }
}

/// The name of an optional string, as a value of specification.
pub open spec fn str_option(s: Option<&str>) -> Option<Seq<char>> {
    match s {
        Some(t) => Some(t@),
        None => None,
    }
}

/// Whether the trunk holds a branch's work: its tip is the trunk's tip, or
/// else the trunk descends from it, or else its commits were rewritten onto
/// the trunk. Each later check runs only when the earlier ones fail, and an
/// error of a check is the answer.
pub fn merged_into_trunk<E, D: FnOnce() -> Result<bool, E>, R: FnOnce() -> Result<bool, E>>(
    same_tip: bool,
    descends: D,
    rewritten: R,
) -> (merged: Result<bool, E>)
    requires
        call_requires(descends, ()),
        call_requires(rewritten, ()),
    ensures
        same_tip ==> merged == Ok::<bool, E>(true),
        !same_tip ==> exists|d: Result<bool, E>|
            #[trigger] call_ensures(descends, (), d) && match d {
                Ok(true) => merged == Ok::<bool, E>(true),
                Ok(false) => exists|r: Result<bool, E>| #[trigger] call_ensures(rewritten, (), r) && merged == r,
                Err(error) => merged == Err::<bool, E>(error),
            },
{
    if same_tip {
        return Ok(true);
    }
    let descent = descends();
    match descent {
        Ok(true) => Ok(true),
        Ok(false) => rewritten(),
        Err(error) => Err(error),
    }
}

/// What the clean command knows of `branch`: whether it is the trunk, whether
/// the trunk holds its work (`merged`, found from the commit graph), and
/// whether someone other than the user wrote its tip.
pub fn classify(
    branch: LocalBranch,
    trunk: Option<&str>,
    merged: bool,
    author_email: Option<&str>,
    user_email: Option<&str>,
) -> (clean: CleanBranch)
    ensures
        clean.branch_view() == branch,
        clean.trunk_view() == (str_option(trunk) == Some(branch.name_view())),
        clean.merged_view() == merged,
        clean.authored_by_other_view() == authored_by_other(str_option(author_email), str_option(user_email)),
{
    let is_trunk = match trunk {
        Some(name) => str_eq(name, branch.name()),
        None => false,
    };
    let is_authored_by_other = match (user_email, author_email) {
        (Some(user), Some(author)) => !str_eq(author, user),
        _ => false,
    };
    CleanBranch::new(branch, is_trunk, merged, is_authored_by_other)
}

/// An operation that the library refuses before running `git`.
#[derive(Clone, Copy, Debug, PartialEq, Eq, Structural)]
pub enum Refusal {
    DetachedHead,
    CurrentBranchAsRebaseTarget,
    DetachedHeadForMerge,
    CurrentBranchAsMergeSource,
}

/// The message of a refusal.
pub open spec fn refusal_message(refusal: Refusal) -> Seq<char> {
    match refusal {
        Refusal::DetachedHead => "cannot rebase while HEAD is detached"@,
        Refusal::CurrentBranchAsRebaseTarget => "the current branch cannot be its own rebase target"@,
        Refusal::DetachedHeadForMerge => "cannot merge while HEAD is detached"@,
        Refusal::CurrentBranchAsMergeSource => "the current branch cannot be merged into itself"@,
    }
}

impl Refusal {
    pub fn message(&self) -> (message: &'static str)
        ensures
            message@ == refusal_message(*self),
    {
        match self {
            Refusal::DetachedHead => "cannot rebase while HEAD is detached",
            Refusal::CurrentBranchAsRebaseTarget => "the current branch cannot be its own rebase target",
            Refusal::DetachedHeadForMerge => "cannot merge while HEAD is detached",
            Refusal::CurrentBranchAsMergeSource => "the current branch cannot be merged into itself",
        }
    }
}

/// Whether the current branch can be rebased onto `target`: there must be a
/// current branch, and it must not be `target`.
pub fn check_rebase_target(current: Option<&str>, target: &LocalBranch) -> (checked: Result<(), Refusal>)
    ensures
        checked == match current {
            None => Err(Refusal::DetachedHead),
            Some(name) => if name@ == target.name_view() {
                Err(Refusal::CurrentBranchAsRebaseTarget)
            } else {
                Ok(())
            },
        },
{
    match current {
        None => Err(Refusal::DetachedHead),
        Some(name) => if str_eq(name, target.name()) {
            Err(Refusal::CurrentBranchAsRebaseTarget)
        } else {
            Ok(())
        },
    }
}

/// Whether `source` can be merged into the current branch: there must be a
/// current branch, and it must not be `source`.
pub fn check_merge_source(current: Option<&str>, source: &LocalBranch) -> (checked: Result<(), Refusal>)
    ensures
        checked == match current {
            None => Err(Refusal::DetachedHeadForMerge),
            Some(name) => if name@ == source.name_view() {
                Err(Refusal::CurrentBranchAsMergeSource)
            } else {
                Ok(())
            },
        },
{
    match current {
        None => Err(Refusal::DetachedHeadForMerge),
        Some(name) => if str_eq(name, source.name()) {
            Err(Refusal::CurrentBranchAsMergeSource)
        } else {
            Ok(())
        },
    }
}

/// The text that `String::from_utf8_lossy` makes of `bytes`: invalid UTF-8
/// becomes replacement characters.
pub uninterp spec fn lossy_text(bytes: Seq<u8>) -> Seq<char>;

/// `String::from_utf8_lossy`, owned.
#[verifier::external_body]
fn utf8_lossy(bytes: &[u8]) -> (text: String)
    ensures
        text@ == lossy_text(bytes@),
{
    String::from_utf8_lossy(bytes).into_owned()
}

/// What a failed `git` command reports: its error output, else its standard
/// output, trimmed, or a fixed message when both are blank.
pub open spec fn reported_message(stdout: Seq<u8>, stderr: Seq<u8>) -> Seq<char> {
    if trimmed(lossy_text(stderr)).len() > 0 {
        trimmed(lossy_text(stderr))
    } else if trimmed(lossy_text(stdout)).len() > 0 {
        trimmed(lossy_text(stdout))
    } else {
        "git did not report an error"@
    }
}

/// The message a failed `git` command leaves.
pub fn command_message(stdout: &[u8], stderr: &[u8]) -> (message: String)
    ensures
        message@ == reported_message(stdout@, stderr@),
{
    let error = trim_white_space(&chars_of(utf8_lossy(stderr).as_str()));
    if error.len() > 0 {
        return string_of(&error);
    }
    let output = trim_white_space(&chars_of(utf8_lossy(stdout).as_str()));
    if output.len() > 0 {
        return string_of(&output);
    }
    "git did not report an error".to_owned()
}

} // verus!
