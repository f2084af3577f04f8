use git2::RepositoryState;
use gitflex::git::branch::{branches_by_name, checkout_of, local_branch_names};
use gitflex::git::cherry::RewriteCheck;
use gitflex::git::repository::{
    check_merge_source, check_rebase_target, classify, command_message, command_outcome,
    configured_email, merged_into_trunk, trunk_name, Refusal, RepositoryStatus,
};
use gitflex::git::{Checkout, ConflictableCommandOutcome, InProgressOperation, LocalBranch};

fn branch(name: &str, checkout: Checkout) -> LocalBranch {
    LocalBranch::new(name.to_string(), checkout)
}

#[test]
fn categorises_every_in_progress_repository_state() {
    let states = [
        (RepositoryState::Clean, None),
        (RepositoryState::Merge, Some(InProgressOperation::Merge)),
        (RepositoryState::Revert, Some(InProgressOperation::Revert)),
        (
            RepositoryState::RevertSequence,
            Some(InProgressOperation::Revert),
        ),
        (
            RepositoryState::CherryPick,
            Some(InProgressOperation::CherryPick),
        ),
        (
            RepositoryState::CherryPickSequence,
            Some(InProgressOperation::CherryPick),
        ),
        (RepositoryState::Bisect, Some(InProgressOperation::Bisect)),
        (RepositoryState::Rebase, Some(InProgressOperation::Rebase)),
        (
            RepositoryState::RebaseInteractive,
            Some(InProgressOperation::Rebase),
        ),
        (
            RepositoryState::RebaseMerge,
            Some(InProgressOperation::Rebase),
        ),
        (
            RepositoryState::ApplyMailbox,
            Some(InProgressOperation::MailboxApply),
        ),
        (
            RepositoryState::ApplyMailboxOrRebase,
            Some(InProgressOperation::MailboxApplyOrRebase),
        ),
    ];

    assert!(states.into_iter().all(|(state, expected)| {
        InProgressOperation::from_repository_state(state) == expected
    }));
}

#[test]
fn operations_are_named_in_messages() {
    assert_eq!(InProgressOperation::CherryPick.description(), "cherry-pick");
    assert_eq!(
        InProgressOperation::MailboxApplyOrRebase.description(),
        "mailbox apply or rebase"
    );
    assert_eq!(
        InProgressOperation::from_state(RepositoryStatus::RebaseMerge),
        Some(InProgressOperation::Rebase)
    );
}

#[test]
fn branch_predicates_follow_where_a_branch_is_checked_out() {
    let available = branch("a", Checkout::Available);
    let current = branch("b", Checkout::CurrentWorktree);
    let other = branch("c", Checkout::OtherWorktree);
    assert!(available.is_deletable() && available.is_switchable());
    assert!(available.is_rebase_target() && available.is_merge_source());
    assert!(!current.is_deletable() && !current.is_rebase_target() && current.is_current());
    assert!(!other.is_switchable() && other.is_merge_source() && !other.is_current());
}

#[test]
fn the_trunk_is_main_then_master() {
    let both = vec![
        branch("master", Checkout::Available),
        branch("main", Checkout::Available),
    ];
    assert_eq!(trunk_name(&both), Some("main"));
    let master = vec![branch("master", Checkout::Available), branch("x", Checkout::Available)];
    assert_eq!(trunk_name(&master), Some("master"));
    assert_eq!(trunk_name(&vec![branch("dev", Checkout::Available)]), None);
}

#[test]
fn clean_classification_follows_the_trunk_and_authorship() {
    let trunk = classify(branch("main", Checkout::CurrentWorktree), Some("main"), true, Some("me@x"), Some("me@x"));
    assert!(trunk.is_trunk() && trunk.is_merged() && !trunk.is_authored_by_other());
    assert_eq!(trunk.branch().checkout(), Checkout::CurrentWorktree);

    let foreign = classify(branch("f", Checkout::Available), Some("main"), false, Some("you@x"), Some("me@x"));
    assert!(!foreign.is_trunk() && !foreign.is_merged() && foreign.is_authored_by_other());

    let unknown_user = classify(branch("f", Checkout::Available), None, false, Some("you@x"), None);
    assert!(!unknown_user.is_authored_by_other());
    let unreadable_author = classify(branch("f", Checkout::Available), None, false, None, Some("me@x"));
    assert!(!unreadable_author.is_authored_by_other());
    assert_eq!(unreadable_author.name(), "f");
    assert_eq!(unreadable_author.into_branch().name(), "f");
}

#[test]
fn an_empty_configured_email_is_no_email() {
    assert_eq!(configured_email(String::new()), None);
    assert_eq!(configured_email("me@example.com".to_string()), Some("me@example.com".to_string()));
}

#[test]
fn rebase_and_merge_refuse_a_detached_head_and_the_current_branch() {
    let feature = branch("feature", Checkout::Available);
    assert_eq!(check_rebase_target(None, &feature), Err(Refusal::DetachedHead));
    assert_eq!(
        check_rebase_target(Some("feature"), &feature),
        Err(Refusal::CurrentBranchAsRebaseTarget)
    );
    assert_eq!(check_rebase_target(Some("main"), &feature), Ok(()));
    assert_eq!(check_merge_source(None, &feature), Err(Refusal::DetachedHeadForMerge));
    assert_eq!(
        check_merge_source(Some("feature"), &feature),
        Err(Refusal::CurrentBranchAsMergeSource)
    );
    assert_eq!(
        Refusal::CurrentBranchAsMergeSource.message(),
        "the current branch cannot be merged into itself"
    );
}

#[test]
fn command_outcomes_tell_conflicts_from_failures() {
    assert_eq!(command_outcome(true, true, true), Some(ConflictableCommandOutcome::Completed));
    assert_eq!(command_outcome(false, false, true), Some(ConflictableCommandOutcome::Conflicted));
    assert_eq!(command_outcome(false, true, true), None);
    assert_eq!(command_outcome(false, false, false), None);
}

#[test]
fn command_messages_prefer_error_output_and_are_trimmed() {
    assert_eq!(command_message(b"out\n", b"  fatal: bad\n"), "fatal: bad");
    assert_eq!(command_message(b"\tonly output \r\n", b" \n "), "only output");
    assert_eq!(command_message(b"", b""), "git did not report an error");
    assert_eq!(command_message(b"", &[0xff, b'x']), "\u{fffd}x");
}

fn patch(bytes: &[u8]) -> Option<Vec<u8>> {
    Some(bytes.to_vec())
}

#[test]
fn a_rewrite_check_is_done_when_every_branch_patch_was_seen() {
    let branch_commits = vec![patch(b"p1"), patch(b"p2"), None];
    let mut check = RewriteCheck::new(&branch_commits);
    assert!(!check.is_done());
    check.observe(b"p2");
    assert!(!check.is_done());
    check.observe(b"other");
    assert!(!check.is_done());
    check.observe(b"p1");
    assert!(check.is_done());
    assert!(RewriteCheck::new(&vec![None]).is_done());
    assert!(RewriteCheck::new(&Vec::new()).is_done());
}

#[test]
fn branches_are_listed_by_name_with_where_they_are_checked_out() {
    assert_eq!(checkout_of(true, true), Checkout::CurrentWorktree);
    assert_eq!(checkout_of(false, true), Checkout::OtherWorktree);
    assert_eq!(checkout_of(false, false), Checkout::Available);
    let sorted = branches_by_name(vec![
        branch("main", Checkout::CurrentWorktree),
        branch("Zeta", Checkout::Available),
        branch("feature", Checkout::OtherWorktree),
    ]);
    assert_eq!(local_branch_names(&sorted), ["Zeta", "feature", "main"]);
    assert_eq!(sorted[2].checkout(), Checkout::CurrentWorktree);
}

#[test]
fn a_branch_is_merged_by_the_first_check_that_holds() {
    let never = || -> Result<bool, String> { panic!("no later check should run") };
    assert_eq!(merged_into_trunk(true, never, never), Ok(true));
    assert_eq!(merged_into_trunk(false, || Ok(true), never), Ok(true));
    assert_eq!(merged_into_trunk(false, || Ok(false), || Ok(true)), Ok::<bool, String>(true));
    assert_eq!(merged_into_trunk(false, || Ok(false), || Ok(false)), Ok::<bool, String>(false));
    assert_eq!(merged_into_trunk(false, || Err("graph".to_string()), never), Err("graph".to_string()));
    assert_eq!(merged_into_trunk(false, || Ok(false), || Err("walk".to_string())), Err("walk".to_string()));
}
