//! The branch picker: its state machine, and the commands that offer it.

pub mod app;
pub mod keys;
pub mod search;

use vstd::prelude::*;

use crate::git::{CleanBranch, LocalBranch};
use crate::history::{MergeHistory, SwitchHistory};
use crate::text::str_eq;
use crate::ui::app::{
    cleans_any, deletable_in, delete_order_key, initial_query, law_clean_pick_is_deletable,
    law_single_pick_is_offered, merge_order_key, name_option, offers_any, rebase_order_key,
    single_selectable, switch_order_key, AppImpl, CleanMode, SingleMode, SingleOperation,
};

verus! {

/// What came of offering the user a picker.
pub enum Selection<T> {
    /// No branch could be picked, so no picker was shown.
    Unavailable,
    /// The user left the picker.
    Cancelled,
    Selected(T),
}

/// The selection that the picker's result gives: a branch, none when the user
/// left, or the picker's error.
pub open spec fn selection_of<T, E>(result: Result<Option<T>, E>) -> Result<Selection<T>, E> {
    match result {
        Ok(Some(picked)) => Ok(Selection::Selected(picked)),
        Ok(None) => Ok(Selection::Cancelled),
        Err(error) => Err(error),
    }
}

/// Whether some branch is named `name`.
pub open spec fn names(branches: Seq<LocalBranch>, name: Seq<char>) -> bool {
    exists|i: int| 0 <= i < branches.len() && (#[trigger] branches[i]).name_view() == name
}

/// Whether `branches[i]` is the first branch named `name`.
pub open spec fn is_first_named(branches: Seq<LocalBranch>, name: Seq<char>, i: int) -> bool {
    &&& 0 <= i < branches.len()
    &&& branches[i].name_view() == name
    &&& forall|j: int| 0 <= j < i ==> (#[trigger] branches[j]).name_view() != name
}

/// The search a picker starts with: the name that was asked for and matched
/// no branch exactly.
pub open spec fn initial_from(branch: Option<&str>) -> Seq<char> {
    match branch {
        Some(name) => name@,
        None => Seq::empty(),
    }
}

/// Whether `branch` names one of `branches`: that branch is picked without
/// asking.
pub open spec fn asks_exactly(branch: Option<&str>, branches: Seq<LocalBranch>) -> bool {
    branch is Some && names(branches, initial_from(branch))
}

/// Removes and returns the first branch named `name`.
fn take_exact(branches: &mut Vec<LocalBranch>, name: &str) -> (found: Option<LocalBranch>)
    ensures
        match found {
            Some(branch) => exists|i: int|
                is_first_named(old(branches)@, name@, i) && branch == old(branches)@[i]
                    && final(branches)@ == old(branches)@.remove(i),
            None => !names(old(branches)@, name@) && final(branches)@ == old(branches)@,
        },
{
    let mut i: usize = 0;
    while i < branches.len()
        invariant
            i <= branches.len(),
            branches@ == old(branches)@,
            forall|j: int| 0 <= j < i ==> (#[trigger] branches@[j]).name_view() != name@,
        decreases branches.len() - i,
    {
        if str_eq(branches[i].name(), name) {
            let branch = branches.remove(i);
            proof {
                assert(is_first_named(old(branches)@, name@, i as int));
            }
            return Some(branch);
        }
        i = i + 1;
    }
    None
}

fn initial_search(branch: Option<&str>) -> (search: Option<String>)
    ensures
        initial_query(search) == initial_from(branch),
{
    match branch {
        Some(name) => Some(name.to_owned()),
        None => None,
    }
}

/// Runs `run_ui` on the picker, after `on_ui_start`, when there is one.
fn run_app<A, T, E, S: FnOnce(), R: FnOnce(A) -> Result<Option<T>, E>>(
    app: Option<A>,
    on_ui_start: S,
    run_ui: R,
) -> (result: Result<Selection<T>, E>)
    requires
        call_requires(on_ui_start, ()),
        forall|a: A| call_requires(run_ui, (a,)),
    ensures
        app is None ==> result == Ok::<Selection<T>, E>(Selection::Unavailable),
        app matches Some(a) ==> {
            &&& call_ensures(on_ui_start, (), ())
            &&& exists|r: Result<Option<T>, E>| call_ensures(run_ui, (a,), r) && result == selection_of(r)
        },
{
    match app {
        None => Ok(Selection::Unavailable),
        Some(app) => {
            let ghost picker = app;
            on_ui_start();
            let picked = run_ui(app);
            let ghost outcome = picked;
            let result = match picked {
                Ok(Some(branch)) => Ok(Selection::Selected(branch)),
                Ok(None) => Ok(Selection::Cancelled),
                Err(error) => Err(error),
            };
            proof {
                assert(call_ensures(run_ui, (picker,), outcome) && result == selection_of(outcome));
            }
            result
        },
    }
}

/// Offers the clean picker over `branches`, run by `run_ui`; unavailable when
/// no branch can be marked.
pub fn run_clean_app<E, R: FnOnce(AppImpl<CleanMode>) -> Result<Option<Vec<LocalBranch>>, E>>(
    branches: Vec<CleanBranch>,
    run_ui: R,
) -> (result: Result<Selection<Vec<LocalBranch>>, E>)
    requires
        forall|a: AppImpl<CleanMode>| call_requires(run_ui, (a,)),
        forall|a: AppImpl<CleanMode>, r: Result<Option<Vec<LocalBranch>>, E>|
            a.wf() && #[trigger] call_ensures(run_ui, (a,), r) ==> match r {
                Ok(Some(picked)) => a.can_complete_with(picked@),
                _ => true,
            },
    ensures
        result matches Ok(Selection::Selected(picked)) ==> picked@.len() > 0 && forall|k: int|
            0 <= k < picked@.len() ==> deletable_in(branches@, #[trigger] picked@[k]),
        !cleans_any(branches@) ==> result == Ok::<Selection<Vec<LocalBranch>>, E>(Selection::Unavailable),
        cleans_any(branches@) ==> exists|app: AppImpl<CleanMode>, r: Result<Option<Vec<LocalBranch>>, E>|
            app.is_clean_picker(branches@) && call_ensures(run_ui, (app,), r) && result == selection_of(r),
{
    let ghost input = branches@;
    let app = AppImpl::clean(branches);
    let ghost picker = app;
    let result = run_app(app, || {}, run_ui);
    let ghost outcome = result;
    proof {
        match picker {
            Some(a) => match outcome {
                Ok(Selection::Selected(picked)) => {
                    let r = choose|r: Result<Option<Vec<LocalBranch>>, E>|
                        call_ensures(run_ui, (a,), r) && outcome == selection_of(r);
                    law_clean_pick_is_deletable(a, input, picked@);
                },
                _ => {},
            },
            None => {},
        }
    }
    result
}

/// Offers the delete picker. A branch named exactly `branch` is picked
/// without asking; otherwise `branch` starts the search.
pub fn run_delete_app<E, S: FnOnce(), R: FnOnce(AppImpl<SingleMode>) -> Result<Option<LocalBranch>, E>>(
    branches: Vec<LocalBranch>,
    branch: Option<&str>,
    on_ui_start: S,
    run_ui: R,
) -> (result: Result<Selection<LocalBranch>, E>)
    requires
        call_requires(on_ui_start, ()),
        forall|a: AppImpl<SingleMode>| call_requires(run_ui, (a,)),
        forall|a: AppImpl<SingleMode>, r: Result<Option<LocalBranch>, E>|
            a.wf() && #[trigger] call_ensures(run_ui, (a,), r) ==> match r {
                Ok(Some(picked)) => a.can_complete_with(picked),
                _ => true,
            },
    ensures
        result matches Ok(Selection::Selected(picked)) ==> exists|j: int|
            0 <= j < branches@.len() && #[trigger] branches@[j] == picked,
        !asks_exactly(branch, branches@) ==> (result matches Ok(Selection::Selected(picked))
            ==> single_selectable(SingleOperation::Delete, picked)),
        asks_exactly(branch, branches@) ==> exists|i: int|
            is_first_named(branches@, initial_from(branch), i) && result == Ok::<Selection<LocalBranch>, E>(
                Selection::Selected(branches@[i]),
            ),
        !asks_exactly(branch, branches@) ==> {
            &&& !offers_any(SingleOperation::Delete, branches@) ==> result == Ok::<
                Selection<LocalBranch>,
                E,
            >(Selection::Unavailable)
            &&& offers_any(SingleOperation::Delete, branches@) ==> call_ensures(on_ui_start, (), ())
            &&& offers_any(SingleOperation::Delete, branches@) ==> exists|
                app: AppImpl<SingleMode>,
                r: Result<Option<LocalBranch>, E>,
            |
                app.is_single_picker(
                    branches@,
                    SingleOperation::Delete,
                    initial_from(branch),
                    delete_order_key(),
                ) && call_ensures(run_ui, (app,), r) && result == selection_of(r)
        },
{
    let mut branches = branches;
    if let Some(name) = branch {
        if let Some(exact) = take_exact(&mut branches, name) {
            return Ok(Selection::Selected(exact));
        }
    }
    let ghost input = branches@;
    let app = AppImpl::delete(branches, initial_search(branch));
    let ghost picker = app;
    let result = run_app(app, on_ui_start, run_ui);
    let ghost outcome = result;
    proof {
        match picker {
            Some(a) => match outcome {
                Ok(Selection::Selected(picked)) => {
                    let r = choose|r: Result<Option<LocalBranch>, E>|
                        call_ensures(run_ui, (a,), r) && outcome == selection_of(r);
                    law_single_pick_is_offered(a, input, SingleOperation::Delete, initial_from(branch), delete_order_key(), picked);
                },
                _ => {},
            },
            None => {},
        }
    }
    result
}

/// Offers the merge picker for merges into `destination`. A branch named
/// exactly `branch` is picked without asking; otherwise `branch` starts the
/// search.
pub fn run_merge_app<E, S: FnOnce(), R: FnOnce(AppImpl<SingleMode>) -> Result<Option<LocalBranch>, E>>(
    branches: Vec<LocalBranch>,
    destination: &str,
    history: MergeHistory,
    branch: Option<&str>,
    on_ui_start: S,
    run_ui: R,
) -> (result: Result<Selection<LocalBranch>, E>)
    requires
        call_requires(on_ui_start, ()),
        forall|a: AppImpl<SingleMode>| call_requires(run_ui, (a,)),
        forall|a: AppImpl<SingleMode>, r: Result<Option<LocalBranch>, E>|
            a.wf() && #[trigger] call_ensures(run_ui, (a,), r) ==> match r {
                Ok(Some(picked)) => a.can_complete_with(picked),
                _ => true,
            },
    ensures
        result matches Ok(Selection::Selected(picked)) ==> exists|j: int|
            0 <= j < branches@.len() && #[trigger] branches@[j] == picked,
        !asks_exactly(branch, branches@) ==> (result matches Ok(Selection::Selected(picked))
            ==> single_selectable(SingleOperation::Merge, picked)),
        asks_exactly(branch, branches@) ==> exists|i: int|
            is_first_named(branches@, initial_from(branch), i) && result == Ok::<Selection<LocalBranch>, E>(
                Selection::Selected(branches@[i]),
            ),
        !asks_exactly(branch, branches@) ==> {
            &&& !offers_any(SingleOperation::Merge, branches@) ==> result == Ok::<
                Selection<LocalBranch>,
                E,
            >(Selection::Unavailable)
            &&& offers_any(SingleOperation::Merge, branches@) ==> call_ensures(on_ui_start, (), ())
            &&& offers_any(SingleOperation::Merge, branches@) ==> exists|
                app: AppImpl<SingleMode>,
                r: Result<Option<LocalBranch>, E>,
            |
                app.is_single_picker(
                    branches@,
                    SingleOperation::Merge,
                    initial_from(branch),
                    merge_order_key(history.entries(), destination@),
                ) && call_ensures(run_ui, (app,), r) && result == selection_of(r)
        },
{
    let mut branches = branches;
    if let Some(name) = branch {
        if let Some(exact) = take_exact(&mut branches, name) {
            return Ok(Selection::Selected(exact));
        }
    }
    let ghost input = branches@;
    let app = AppImpl::merge(branches, destination, &history, initial_search(branch));
    let ghost picker = app;
    let result = run_app(app, on_ui_start, run_ui);
    let ghost outcome = result;
    proof {
        match picker {
            Some(a) => match outcome {
                Ok(Selection::Selected(picked)) => {
                    let r = choose|r: Result<Option<LocalBranch>, E>|
                        call_ensures(run_ui, (a,), r) && outcome == selection_of(r);
                    law_single_pick_is_offered(a, input, SingleOperation::Merge, initial_from(branch), merge_order_key(history.entries(), destination@), picked);
                },
                _ => {},
            },
            None => {},
        }
    }
    result
}

/// Offers the rebase picker, with the branch last rebased onto first. A
/// branch named exactly `branch` is picked without asking; otherwise `branch`
/// starts the search.
pub fn run_rebase_app<E, S: FnOnce(), R: FnOnce(AppImpl<SingleMode>) -> Result<Option<LocalBranch>, E>>(
    branches: Vec<LocalBranch>,
    last_target: Option<String>,
    branch: Option<&str>,
    on_ui_start: S,
    run_ui: R,
) -> (result: Result<Selection<LocalBranch>, E>)
    requires
        call_requires(on_ui_start, ()),
        forall|a: AppImpl<SingleMode>| call_requires(run_ui, (a,)),
        forall|a: AppImpl<SingleMode>, r: Result<Option<LocalBranch>, E>|
            a.wf() && #[trigger] call_ensures(run_ui, (a,), r) ==> match r {
                Ok(Some(picked)) => a.can_complete_with(picked),
                _ => true,
            },
    ensures
        result matches Ok(Selection::Selected(picked)) ==> exists|j: int|
            0 <= j < branches@.len() && #[trigger] branches@[j] == picked,
        !asks_exactly(branch, branches@) ==> (result matches Ok(Selection::Selected(picked))
            ==> single_selectable(SingleOperation::Rebase { last_target }, picked)),
        asks_exactly(branch, branches@) ==> exists|i: int|
            is_first_named(branches@, initial_from(branch), i) && result == Ok::<Selection<LocalBranch>, E>(
                Selection::Selected(branches@[i]),
            ),
        !asks_exactly(branch, branches@) ==> {
            &&& !offers_any(SingleOperation::Rebase { last_target }, branches@) ==> result == Ok::<
                Selection<LocalBranch>,
                E,
            >(Selection::Unavailable)
            &&& offers_any(SingleOperation::Rebase { last_target }, branches@) ==> call_ensures(on_ui_start, (), ())
            &&& offers_any(SingleOperation::Rebase { last_target }, branches@) ==> exists|
                app: AppImpl<SingleMode>,
                r: Result<Option<LocalBranch>, E>,
            |
                app.is_single_picker(
                    branches@,
                    SingleOperation::Rebase { last_target },
                    initial_from(branch),
                    rebase_order_key(name_option(last_target)),
                ) && call_ensures(run_ui, (app,), r) && result == selection_of(r)
        },
{
    let mut branches = branches;
    if let Some(name) = branch {
        if let Some(exact) = take_exact(&mut branches, name) {
            return Ok(Selection::Selected(exact));
        }
    }
    let ghost input = branches@;
    let ghost target = last_target;
    let app = AppImpl::rebase(branches, last_target, initial_search(branch));
    let ghost picker = app;
    let result = run_app(app, on_ui_start, run_ui);
    let ghost outcome = result;
    proof {
        match picker {
            Some(a) => match outcome {
                Ok(Selection::Selected(picked)) => {
                    let r = choose|r: Result<Option<LocalBranch>, E>|
                        call_ensures(run_ui, (a,), r) && outcome == selection_of(r);
                    law_single_pick_is_offered(a, input, SingleOperation::Rebase { last_target: target }, initial_from(branch), rebase_order_key(name_option(target)), picked);
                },
                _ => {},
            },
            None => {},
        }
    }
    result
}

/// Offers the switch picker, most recent switches first. A branch named
/// exactly `branch` is picked without asking; otherwise `branch` starts the
/// search.
pub fn run_switch_app<E, S: FnOnce(), R: FnOnce(AppImpl<SingleMode>) -> Result<Option<LocalBranch>, E>>(
    branches: Vec<LocalBranch>,
    history: SwitchHistory,
    branch: Option<&str>,
    on_ui_start: S,
    run_ui: R,
) -> (result: Result<Selection<LocalBranch>, E>)
    requires
        call_requires(on_ui_start, ()),
        forall|a: AppImpl<SingleMode>| call_requires(run_ui, (a,)),
        forall|a: AppImpl<SingleMode>, r: Result<Option<LocalBranch>, E>|
            a.wf() && #[trigger] call_ensures(run_ui, (a,), r) ==> match r {
                Ok(Some(picked)) => a.can_complete_with(picked),
                _ => true,
            },
    ensures
        result matches Ok(Selection::Selected(picked)) ==> exists|j: int|
            0 <= j < branches@.len() && #[trigger] branches@[j] == picked,
        !asks_exactly(branch, branches@) ==> (result matches Ok(Selection::Selected(picked))
            ==> single_selectable(SingleOperation::Switch, picked)),
        asks_exactly(branch, branches@) ==> exists|i: int|
            is_first_named(branches@, initial_from(branch), i) && result == Ok::<Selection<LocalBranch>, E>(
                Selection::Selected(branches@[i]),
            ),
        !asks_exactly(branch, branches@) ==> {
            &&& !offers_any(SingleOperation::Switch, branches@) ==> result == Ok::<
                Selection<LocalBranch>,
                E,
            >(Selection::Unavailable)
            &&& offers_any(SingleOperation::Switch, branches@) ==> call_ensures(on_ui_start, (), ())
            &&& offers_any(SingleOperation::Switch, branches@) ==> exists|
                app: AppImpl<SingleMode>,
                r: Result<Option<LocalBranch>, E>,
            |
                app.is_single_picker(
                    branches@,
                    SingleOperation::Switch,
                    initial_from(branch),
                    switch_order_key(history.entries()),
                ) && call_ensures(run_ui, (app,), r) && result == selection_of(r)
        },
{
    let mut branches = branches;
    if let Some(name) = branch {
        if let Some(exact) = take_exact(&mut branches, name) {
            return Ok(Selection::Selected(exact));
        }
    }
    let ghost input = branches@;
    let app = AppImpl::switch(branches, &history, initial_search(branch));
    let ghost picker = app;
    let result = run_app(app, on_ui_start, run_ui);
    let ghost outcome = result;
    proof {
        match picker {
            Some(a) => match outcome {
                Ok(Selection::Selected(picked)) => {
                    let r = choose|r: Result<Option<LocalBranch>, E>|
                        call_ensures(run_ui, (a,), r) && outcome == selection_of(r);
                    law_single_pick_is_offered(a, input, SingleOperation::Switch, initial_from(branch), switch_order_key(history.entries()), picked);
                },
                _ => {},
            },
            None => {},
        }
    }
    result
}

} // verus!
