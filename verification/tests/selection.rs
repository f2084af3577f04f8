use std::cell::Cell;

use gitflex::git::{Checkout, CleanBranch, LocalBranch};
use gitflex::history::SwitchHistory;
use gitflex::ui::app::{Action, AppImpl, CleanMode, Confirmation, SingleMode, Transition};
use gitflex::ui::{run_clean_app, run_switch_app, Selection};

fn branch(name: &str, checkout: Checkout) -> LocalBranch {
    LocalBranch::new(name.to_string(), checkout)
}

fn never_run(_app: AppImpl<SingleMode>) -> Result<Option<LocalBranch>, String> {
    Err("the picker should not be shown".to_string())
}

#[test]
fn exact_matches_and_unavailable_uis_skip_the_start_callback() {
    let exact_started = Cell::new(false);
    let selection = run_switch_app(
        vec![branch("feature", Checkout::Available)],
        SwitchHistory::default(),
        Some("feature"),
        || exact_started.set(true),
        never_run,
    )
    .expect("an exact branch should be selected");
    assert!(!exact_started.get());
    assert!(matches!(selection, Selection::Selected(branch) if branch.name() == "feature"));

    let unavailable_started = Cell::new(false);
    let selection = run_switch_app(
        vec![branch("main", Checkout::CurrentWorktree)],
        SwitchHistory::default(),
        None,
        || unavailable_started.set(true),
        never_run,
    )
    .expect("an unavailable UI should return cleanly");
    assert!(!unavailable_started.get());
    assert!(matches!(selection, Selection::Unavailable));
}

#[test]
fn a_name_that_is_not_exact_starts_the_picker_with_that_search() {
    let started = Cell::new(false);
    let selection = run_switch_app(
        vec![
            branch("alpha", Checkout::Available),
            branch("feature-one", Checkout::Available),
        ],
        SwitchHistory::default(),
        Some("feat"),
        || started.set(true),
        |app: AppImpl<SingleMode>| -> Result<Option<LocalBranch>, String> {
            assert_eq!(app.search().query(), "feat");
            Ok(app.output())
        },
    )
    .expect("the picker should run");
    assert!(started.get());
    assert!(matches!(selection, Selection::Selected(branch) if branch.name() == "feature-one"));
}

#[test]
fn leaving_the_picker_cancels() {
    let selection = run_switch_app(
        vec![branch("alpha", Checkout::Available)],
        SwitchHistory::default(),
        None,
        || {},
        |_app: AppImpl<SingleMode>| -> Result<Option<LocalBranch>, String> { Ok(None) },
    )
    .expect("the picker should run");
    assert!(matches!(selection, Selection::Cancelled));
}

#[test]
fn a_clean_pick_holds_only_deletable_branches() {
    let branches = vec![
        CleanBranch::new(branch("main", Checkout::CurrentWorktree), true, true, false),
        CleanBranch::new(branch("merged", Checkout::Available), false, true, false),
        CleanBranch::new(branch("elsewhere", Checkout::OtherWorktree), false, true, false),
        CleanBranch::new(branch("open", Checkout::Available), false, false, false),
    ];
    let selection = run_clean_app(
        branches,
        |mut app: AppImpl<CleanMode>| -> Result<Option<Vec<LocalBranch>>, String> {
            match app.update(Action::Confirm(Confirmation::Modified)) {
                Transition::Complete(picked) => Ok(Some(picked)),
                _ => Ok(None),
            }
        },
    )
    .expect("the picker should run");
    match selection {
        Selection::Selected(picked) => {
            let names: Vec<&str> = picked.iter().map(|branch| branch.name()).collect();
            assert_eq!(names, ["merged"]);
        }
        _ => panic!("the merged branch should be picked"),
    }

    let nothing = run_clean_app(
        vec![CleanBranch::new(branch("main", Checkout::Available), true, true, false)],
        |_app: AppImpl<CleanMode>| -> Result<Option<Vec<LocalBranch>>, String> {
            Err("the picker should not be shown".to_string())
        },
    )
    .expect("an unavailable picker should return cleanly");
    assert!(matches!(nothing, Selection::Unavailable));
}
