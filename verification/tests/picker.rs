use gitflex::git::{Checkout, CleanBranch, LocalBranch};
use gitflex::history::{MergeHistory, SwitchHistory};
use gitflex::ui::app::{Action, AppImpl, Colour, Confirmation, Transition};
use gitflex::ui::search::EditRequest;

fn branch(name: &str, checkout: Checkout) -> LocalBranch {
    LocalBranch::new(name.to_string(), checkout)
}

fn selected(name: &str) -> CleanBranch {
    CleanBranch::new(branch(name, Checkout::Available), false, true, false)
}

fn unselected(name: &str) -> CleanBranch {
    CleanBranch::new(branch(name, Checkout::Available), false, false, false)
}

fn unselectable(name: &str, checkout: Checkout) -> CleanBranch {
    CleanBranch::new(branch(name, checkout), name == "main", false, false)
}

fn authored_by_other(name: &str) -> CleanBranch {
    CleanBranch::new(branch(name, Checkout::Available), false, false, true)
}

fn branch_names<M>(app: &AppImpl<M>) -> Vec<&str> {
    app.branches().iter().map(|branch| branch.name()).collect()
}

fn visible_branch_names<M>(app: &AppImpl<M>) -> Vec<&str> {
    app.branch_order()
        .iter()
        .map(|&index| app.branches()[index].name())
        .collect()
}

fn highlighted_branch_name<M>(app: &AppImpl<M>) -> &str {
    app.branches()[app.branch_index()].name()
}

fn type_single_query(app: &mut AppImpl<gitflex::ui::app::SingleMode>, query: &str) {
    query.chars().for_each(|character| {
        assert!(matches!(
            app.update(Action::Search(EditRequest::InsertChar(character))),
            Transition::Continue
        ));
    });
}

fn type_clean_query(app: &mut AppImpl<gitflex::ui::app::CleanMode>, query: &str) {
    query.chars().for_each(|character| {
        assert!(matches!(
            app.update(Action::Search(EditRequest::InsertChar(character))),
            Transition::Continue
        ));
    });
}

#[test]
fn clean_confirms_only_initially_selected_branches() {
    let mut app = AppImpl::clean(vec![
        selected("feature-a"),
        authored_by_other("review"),
        unselected("feature-b"),
        unselectable("main", Checkout::CurrentWorktree),
    ])
    .unwrap();

    let Transition::Complete(branches) = app.update(Action::Confirm(Confirmation::Modified)) else {
        panic!("a modified confirmation should complete clean selection");
    };
    assert_eq!(
        branches.iter().map(LocalBranch::name).collect::<Vec<_>>(),
        ["feature-a", "review"]
    );
}

#[test]
fn app_clean_requires_modified_confirmation_and_toggle_changes_selection() {
    let mut app = AppImpl::clean(vec![selected("feature-a"), selected("feature-b")]).unwrap();

    assert_eq!(
        app.update(Action::Confirm(Confirmation::Plain)),
        Transition::Continue
    );
    assert_eq!(app.update(Action::Toggle), Transition::Continue);

    let Transition::Complete(branches) = app.update(Action::Confirm(Confirmation::Modified)) else {
        panic!("a modified confirmation should complete clean selection");
    };
    assert_eq!(
        branches.iter().map(LocalBranch::name).collect::<Vec<_>>(),
        ["feature-b"]
    );
}

#[test]
fn app_single_selection_navigates_and_confirms_the_highlighted_branch() {
    let mut app = AppImpl::rebase(
        vec![
            branch("feature-a", Checkout::Available),
            branch("feature-b", Checkout::Available),
            branch("main", Checkout::CurrentWorktree),
        ],
        None,
        None,
    )
    .unwrap();
    assert_eq!(app.update(Action::Next), Transition::Continue);

    let Transition::Complete(branch) = app.update(Action::Confirm(Confirmation::Plain)) else {
        panic!("a valid single selection should complete");
    };
    assert_eq!(branch.name(), "feature-b");
}

#[test]
fn commands_put_unselectable_branches_last() {
    let branches = || {
        vec![
            branch("develop", Checkout::Available),
            branch("feature", Checkout::OtherWorktree),
            branch("main", Checkout::CurrentWorktree),
            branch("release", Checkout::Available),
        ]
    };

    let clean = AppImpl::clean(vec![
        unselectable("main", Checkout::Available),
        unselected("release"),
        unselectable("feature", Checkout::OtherWorktree),
        selected("develop"),
    ])
    .unwrap();
    assert_eq!(
        branch_names(&clean),
        ["develop", "release", "feature", "main"]
    );

    let switch = AppImpl::switch(branches(), &SwitchHistory::default(), None).unwrap();
    assert_eq!(
        branch_names(&switch),
        ["develop", "release", "feature", "main"]
    );

    let rebase = AppImpl::rebase(branches(), None, None).unwrap();
    assert_eq!(
        branch_names(&rebase),
        ["develop", "feature", "release", "main"]
    );

    let merge = AppImpl::merge(branches(), "main", &MergeHistory::default(), None).unwrap();
    assert_eq!(
        branch_names(&merge),
        ["develop", "feature", "release", "main"]
    );
}

#[test]
fn switch_ranks_each_checkout_group_by_history_then_name() {
    let history = SwitchHistory::for_test(["review", "main", "develop", "deleted", "feature"]);
    let app = AppImpl::switch(
        vec![
            branch("zeta", Checkout::Available),
            branch("feature", Checkout::OtherWorktree),
            branch("alpha", Checkout::Available),
            branch("main", Checkout::CurrentWorktree),
            branch("develop", Checkout::Available),
            branch("review", Checkout::Available),
        ],
        &history,
        None,
    )
    .unwrap();

    assert_eq!(
        branch_names(&app),
        ["review", "develop", "alpha", "zeta", "main", "feature"]
    );
    assert_eq!(app.position(), 0);
}

#[test]
fn merge_ranks_sources_for_the_current_destination_then_by_name() {
    let history = MergeHistory::for_test([
        ("main", "review"),
        ("release", "zeta"),
        ("main", "develop"),
        ("main", "deleted"),
        ("main", "feature"),
    ]);
    let app = AppImpl::merge(
        vec![
            branch("zeta", Checkout::Available),
            branch("feature", Checkout::OtherWorktree),
            branch("alpha", Checkout::Available),
            branch("main", Checkout::CurrentWorktree),
            branch("develop", Checkout::Available),
            branch("review", Checkout::Available),
        ],
        "main",
        &history,
        None,
    )
    .unwrap();

    assert_eq!(
        branch_names(&app),
        ["review", "develop", "feature", "alpha", "zeta", "main"]
    );
    assert_eq!(app.position(), 0);
}

#[test]
fn clean_sorts_each_group_alphabetically_and_never_reorders_after_toggles() {
    let mut app = AppImpl::clean(vec![
        unselectable("main", Checkout::CurrentWorktree),
        unselected("gamma"),
        selected("zeta"),
        unselected("beta"),
        selected("alpha"),
    ])
    .unwrap();
    let initial_order = ["alpha", "zeta", "beta", "gamma", "main"];
    assert_eq!(branch_names(&app), initial_order);

    assert_eq!(app.update(Action::Toggle), Transition::Continue);
    assert_eq!(branch_names(&app), initial_order);
    assert_eq!(app.update(Action::Next), Transition::Continue);
    assert_eq!(app.update(Action::Toggle), Transition::Continue);
    assert_eq!(branch_names(&app), initial_order);
    assert_eq!(app.update(Action::Next), Transition::Continue);
    assert_eq!(app.update(Action::Toggle), Transition::Continue);
    assert_eq!(branch_names(&app), initial_order);

    let Transition::Complete(branches) = app.update(Action::Confirm(Confirmation::Modified)) else {
        panic!("a modified confirmation should complete clean selection");
    };
    assert_eq!(
        branches.iter().map(LocalBranch::name).collect::<Vec<_>>(),
        ["beta"]
    );
}

#[test]
fn search_stably_promotes_case_insensitive_matches_from_the_canonical_order() {
    let mut app = AppImpl::rebase(
        vec![
            branch("alpha", Checkout::Available),
            branch("feature-one", Checkout::Available),
            branch("beta-feature", Checkout::Available),
            branch("FEATURE-two", Checkout::Available),
            branch("main", Checkout::CurrentWorktree),
        ],
        None,
        None,
    )
    .unwrap();
    let canonical_order = [
        "alpha",
        "feature-one",
        "beta-feature",
        "FEATURE-two",
        "main",
    ];
    assert_eq!(branch_names(&app), canonical_order);

    app.set_offset(3);
    type_single_query(&mut app, "feature");
    assert_eq!(app.offset(), 0);
    assert_eq!(
        visible_branch_names(&app),
        [
            "feature-one",
            "beta-feature",
            "FEATURE-two",
            "alpha",
            "main"
        ]
    );
    assert_eq!(highlighted_branch_name(&app), "feature-one");

    type_single_query(&mut app, "-t");
    assert_eq!(
        visible_branch_names(&app),
        [
            "FEATURE-two",
            "alpha",
            "feature-one",
            "beta-feature",
            "main"
        ]
    );
    assert_eq!(highlighted_branch_name(&app), "FEATURE-two");

    assert_eq!(
        app.update(Action::Search(EditRequest::DeleteLine)),
        Transition::Continue
    );
    assert_eq!(visible_branch_names(&app), canonical_order);
    assert_eq!(highlighted_branch_name(&app), "alpha");
}

#[test]
fn search_falls_back_to_the_first_selectable_branch_when_matches_are_unselectable() {
    let mut app = AppImpl::rebase(
        vec![
            branch("develop", Checkout::Available),
            branch("feature", Checkout::CurrentWorktree),
            branch("main", Checkout::Available),
        ],
        None,
        None,
    )
    .unwrap();

    type_single_query(&mut app, "FEATURE");

    assert_eq!(visible_branch_names(&app), ["feature", "develop", "main"]);
    assert_eq!(app.position(), 1);
    assert_eq!(highlighted_branch_name(&app), "develop");
}

#[test]
fn navigation_and_confirmation_follow_the_search_order() {
    let mut app = AppImpl::rebase(
        vec![
            branch("alpha", Checkout::Available),
            branch("release-one", Checkout::Available),
            branch("beta-release", Checkout::Available),
            branch("main", Checkout::CurrentWorktree),
        ],
        None,
        None,
    )
    .unwrap();
    type_single_query(&mut app, "release");

    assert_eq!(highlighted_branch_name(&app), "release-one");
    assert_eq!(app.update(Action::Next), Transition::Continue);
    assert_eq!(highlighted_branch_name(&app), "beta-release");

    let Transition::Complete(branch) = app.update(Action::Confirm(Confirmation::Plain)) else {
        panic!("the highlighted search result should be selectable");
    };
    assert_eq!(branch.name(), "beta-release");
}

#[test]
fn clean_toggles_the_highlighted_search_result_without_changing_output_order() {
    let mut app = AppImpl::clean(vec![
        selected("alpha"),
        unselected("feature"),
        selected("release"),
    ])
    .unwrap();
    type_clean_query(&mut app, "feature");

    assert_eq!(highlighted_branch_name(&app), "feature");
    assert_eq!(app.update(Action::Toggle), Transition::Continue);

    let Transition::Complete(branches) = app.update(Action::Confirm(Confirmation::Modified)) else {
        panic!("the clean selection should complete");
    };
    assert_eq!(
        branches.iter().map(LocalBranch::name).collect::<Vec<_>>(),
        ["alpha", "release", "feature"]
    );
}

#[test]
fn clean_navigation_includes_unselected_but_skips_unselectable_branches() {
    let mut app = AppImpl::clean(vec![
        unselectable("main", Checkout::CurrentWorktree),
        unselected("feature-b"),
        selected("feature-a"),
    ])
    .unwrap();

    assert_eq!(app.position(), 0);
    assert_eq!(app.update(Action::Next), Transition::Continue);
    assert_eq!(app.position(), 1);
    assert_eq!(app.update(Action::Next), Transition::Continue);
    assert_eq!(app.position(), 0);
    assert_eq!(app.update(Action::Previous), Transition::Continue);
    assert_eq!(app.position(), 1);
}

#[test]
fn navigation_wraps_without_highlighting_unselectable_branches() {
    let mut app = AppImpl::switch(
        vec![
            branch("develop", Checkout::Available),
            branch("feature", Checkout::Available),
            branch("main", Checkout::CurrentWorktree),
        ],
        &SwitchHistory::default(),
        None,
    )
    .unwrap();

    assert_eq!(app.position(), 0);
    assert_eq!(app.update(Action::Next), Transition::Continue);
    assert_eq!(app.position(), 1);
    assert_eq!(app.update(Action::Next), Transition::Continue);
    assert_eq!(app.position(), 0);

    assert_eq!(app.update(Action::Previous), Transition::Continue);
    assert_eq!(app.position(), 1);
    assert_eq!(app.update(Action::Previous), Transition::Continue);
    assert_eq!(app.position(), 0);
}

#[test]
fn app_merge_selects_a_branch_checked_out_in_another_worktree() {
    let mut app = AppImpl::merge(
        vec![
            branch("main", Checkout::CurrentWorktree),
            branch("feature", Checkout::OtherWorktree),
        ],
        "main",
        &MergeHistory::default(),
        None,
    )
    .unwrap();

    let Transition::Complete(branch) = app.update(Action::Confirm(Confirmation::Plain)) else {
        panic!("a branch in another worktree should be a merge source");
    };
    assert_eq!(branch.name(), "feature");
}

#[test]
fn app_cancellation_exits_without_a_selection() {
    let mut app = AppImpl::switch(
        vec![branch("feature", Checkout::Available)],
        &SwitchHistory::default(),
        None,
    )
    .unwrap();

    assert_eq!(app.update(Action::Cancel), Transition::Cancel);
}

#[test]
fn app_rebase_promotes_selects_and_labels_the_last_target() {
    let mut app = AppImpl::rebase(
        vec![
            branch("release", Checkout::Available),
            branch("feature", Checkout::CurrentWorktree),
            branch("main", Checkout::OtherWorktree),
            branch("develop", Checkout::Available),
        ],
        Some("main".to_string()),
        None,
    )
    .unwrap();

    assert_eq!(
        branch_names(&app),
        ["main", "develop", "release", "feature"]
    );
    assert_eq!(
        app.branch_texts()[0],
        "main (other worktree) (last rebased onto)"
    );

    let Transition::Complete(branch) = app.update(Action::Confirm(Confirmation::Plain)) else {
        panic!("the remembered target should be initially selected");
    };
    assert_eq!(branch.name(), "main");
}

#[test]
fn rebase_keeps_an_unselectable_last_target_at_the_bottom() {
    let app = AppImpl::rebase(
        vec![
            branch("develop", Checkout::Available),
            branch("feature", Checkout::Available),
            branch("main", Checkout::CurrentWorktree),
        ],
        Some("main".to_string()),
        None,
    )
    .unwrap();

    assert_eq!(branch_names(&app), ["develop", "feature", "main"]);
    assert_eq!(app.branch_texts()[2], "main (current) (last rebased onto)");
}

#[test]
fn app_rebase_ignores_a_stale_last_target() {
    let app = AppImpl::rebase(
        vec![
            branch("main", Checkout::Available),
            branch("feature", Checkout::CurrentWorktree),
            branch("develop", Checkout::Available),
        ],
        Some("deleted".to_string()),
        None,
    )
    .unwrap();

    assert_eq!(app.branch_texts(), ["develop", "main", "feature (current)"]);
}

#[test]
fn clean_marks_and_texts_follow_selection() {
    let mut app = AppImpl::clean(vec![
        selected("alpha"),
        unselected("beta"),
        unselectable("main", Checkout::CurrentWorktree),
    ])
    .unwrap();
    assert_eq!(
        app.branch_texts(),
        ["[x] alpha", "[ ] beta", "[-] main (current)"]
    );
    assert_eq!(app.update(Action::Toggle), Transition::Continue);
    assert_eq!(
        app.branch_texts(),
        ["[ ] alpha", "[ ] beta", "[-] main (current)"]
    );
    assert_eq!(
        app.update(Action::Confirm(Confirmation::Modified)),
        Transition::Continue
    );
}

#[test]
fn unavailable_pickers_are_not_created() {
    assert!(AppImpl::clean(vec![unselectable("main", Checkout::CurrentWorktree)]).is_none());
    assert!(AppImpl::switch(
        vec![branch("main", Checkout::CurrentWorktree)],
        &SwitchHistory::default(),
        None
    )
    .is_none());
    assert!(AppImpl::delete(vec![branch("feature", Checkout::OtherWorktree)], None).is_none());
    assert!(AppImpl::merge(vec![], "main", &MergeHistory::default(), None).is_none());
}

#[test]
fn delete_picker_offers_branches_checked_out_nowhere_and_starts_with_the_search() {
    let mut app = AppImpl::delete(
        vec![
            branch("alpha", Checkout::Available),
            branch("beta", Checkout::OtherWorktree),
            branch("gamma", Checkout::Available),
        ],
        Some("GAM".to_string()),
    )
    .unwrap();
    assert_eq!(branch_names(&app), ["alpha", "gamma", "beta"]);
    assert_eq!(visible_branch_names(&app), ["gamma", "alpha", "beta"]);
    assert_eq!(app.search().query(), "GAM");
    assert_eq!(
        app.help(),
        "type search   ↑/↓ navigate   enter delete branch   esc quit"
    );
    let Transition::Complete(branch) = app.update(Action::Confirm(Confirmation::Modified)) else {
        panic!("the delete picker should complete");
    };
    assert_eq!(branch.name(), "gamma");
}

#[test]
fn colours_follow_mark_highlight_and_selectability() {
    let app = AppImpl::clean(vec![
        selected("alpha"),
        unselected("beta"),
        unselectable("main", Checkout::CurrentWorktree),
    ])
    .unwrap();
    let branches = app.branches();
    assert_eq!(branches[0].colour(false), Colour::Selected);
    assert_eq!(branches[1].colour(true), Colour::Highlighted);
    assert_eq!(branches[1].colour(false), Colour::Selectable);
    assert_eq!(branches[2].colour(false), Colour::Unselectable);
}

#[test]
fn moving_down_then_up_returns_and_an_emptied_search_restores_the_order() {
    let mut app = AppImpl::switch(
        vec![
            branch("a", Checkout::Available),
            branch("b", Checkout::CurrentWorktree),
            branch("c", Checkout::Available),
            branch("d", Checkout::OtherWorktree),
        ],
        &SwitchHistory::default(),
        None,
    )
    .unwrap();
    let start = app.position();
    assert_eq!(app.update(Action::Next), Transition::Continue);
    assert_ne!(app.position(), start);
    assert_eq!(app.update(Action::Previous), Transition::Continue);
    assert_eq!(app.position(), start);

    type_single_query(&mut app, "c");
    assert_eq!(visible_branch_names(&app), ["c", "a", "b", "d"]);
    assert_eq!(
        app.update(Action::Search(EditRequest::DeletePrevChar)),
        Transition::Continue
    );
    assert_eq!(visible_branch_names(&app), branch_names(&app));
}

#[test]
fn toggling_twice_restores_the_marks() {
    let mut app = AppImpl::clean(vec![selected("a"), unselected("b")]).unwrap();
    let before = app.branch_texts();
    assert_eq!(app.update(Action::Toggle), Transition::Continue);
    assert_ne!(app.branch_texts(), before);
    assert_eq!(app.update(Action::Toggle), Transition::Continue);
    assert_eq!(app.branch_texts(), before);
}
