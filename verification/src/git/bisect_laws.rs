//! What bisections are for.

use super::bisect::session_report;
use super::complete::completed;
use super::execute::executed;
use super::history::{parent_range, resolved, StateErrorView};
use super::types::{
    ActionView, BisectView, BranchView, CommandView, GitCommitId, GitTransitionId, GitTreeRef,
    OutputView, ResultView, StateView,
};
use vstd::prelude::*;
use vstd::string::*;

verus! {

/// Commits of a range that may still be the first bad one and were not looked at: those
/// between its ends that are not skipped.
pub open spec fn open_commits(range: Seq<GitCommitId>, skipped: Set<GitCommitId>) -> Seq<
    GitCommitId,
> {
    if range.len() <= 2 {
        Seq::empty()
    } else {
        range.subrange(1, range.len() - 1).filter(|id: GitCommitId| !skipped.contains(id))
    }
}

/// Whether a step leads a session on: to the middle of the commits between the bad and the
/// good one that are not skipped, whose tree is to be restored, or, where there is none, to
/// the end, at which the bad commit is the first bad one.
pub open spec fn leads_on<E>(
    state: StateView,
    branch: BranchView,
    session: BisectView,
    range: Seq<GitCommitId>,
    output: Result<OutputView, StateErrorView>,
    after: StateView,
    transition: GitTransitionId,
    result: ResultView,
) -> bool {
    let left = open_commits(range, session.skipped);
    let middle = left[left.len() as int / 2];
    if left.len() == 0 {
        &&& output matches Ok(OutputView::Bisect(report)) && report.first_bad == Some(session.bad)
            && report.bad == Some(session.bad) && report.good == session.good && report.active
            && report.remaining == 0 && report.current is None
        &&& after == (StateView {
            bisect: Some(BisectView { current: None, ..session }),
            ..state
        })
    } else if state.commits.dom().contains(middle) {
        &&& output == Ok::<OutputView, StateErrorView>(
            OutputView::Prepared {
                transition,
                action: ActionView::RestoreGeneration {
                    tree: state.commits[middle].tree,
                    paths: Some(
                        branch.tracked_paths.union(state.commits[middle].tracked_paths),
                    ),
                },
            },
        )
        &&& after.pending matches Some(pending) && {
            let done = completed::<E>(state, pending.mutation, result);
            &&& done.state == (StateView {
                bisect: Some(BisectView { current: Some(middle), ..session }),
                ..state
            })
            &&& done.output matches Ok(OutputView::Bisect(report)) && report.active
                && report.current == Some(middle) && report.bad == Some(session.bad) && report.good
                == session.good && report.first_bad is None && report.remaining == (if left.len()
                <= u32::MAX {
                left.len() as u32
            } else {
                u32::MAX
            })
        }
    } else {
        output is Err && after == state
    }
}

/// Marking a commit good, bad or skipped, by name or the one that is looked at, and no
/// other, leads the session on.
pub proof fn marks_narrow_a_session<E>(
    state: StateView,
    branch: BranchView,
    workspace: GitTreeRef,
    transition: GitTransitionId,
    session: BisectView,
    word: Seq<char>,
    name: Option<Seq<char>>,
    id: GitCommitId,
    range: Seq<GitCommitId>,
    result: ResultView,
)
    requires
        state.branches.dom().contains(state.current_branch),
        state.branches[state.current_branch] == branch,
        state.bisect == Some(session),
        word == "good"@ || word == "bad"@ || word == "skip"@,
        match name {
            Some(name) => resolved(state, Some(name)) == Ok::<GitCommitId, StateErrorView>(id),
            None => session.current == Some(id),
        },
    ensures
        ({
            let marked = if word == "good"@ {
                BisectView { good: Some(id), ..session }
            } else if word == "bad"@ {
                BisectView { bad: id, ..session }
            } else {
                BisectView { skipped: session.skipped.insert(id), ..session }
            };
            let arguments = match name {
                Some(name) => seq![word, name],
                None => seq![word],
            };
            let step = executed(state, CommandView::Bisect { arguments }, workspace, transition);
            match marked.good {
                Some(good) => match parent_range(state.commits, marked.bad, good) {
                    Ok(range) => leads_on::<E>(
                        state,
                        branch,
                        marked,
                        range,
                        step.output,
                        step.state,
                        transition,
                        result,
                    ),
                    Err(problem) => step.output == Err::<OutputView, StateErrorView>(problem)
                        && step.state == state,
                },
                None => step.output is Ok && step.state == (StateView {
                    bisect: Some(BisectView { current: Some(marked.bad), ..marked }),
                    ..state
                }),
            }
        }),
{
    reveal_strlit("start");
    reveal_strlit("good");
    reveal_strlit("bad");
    reveal_strlit("skip");
    let arguments = match name {
        Some(name) => seq![word, name],
        None => seq![word],
    };
    assert(arguments[0] == word);
    assert(word[0] != "start"@[0] || word[1] != "start"@[1]);
    if word == "skip"@ {
        assert("skip"@.len() == 4);
        assert("good"@[0] != "skip"@[0]);
        assert("bad"@.len() == 3);
    }
    if word == "bad"@ {
        assert("good"@.len() == 4);
    }
    let marked = if word == "good"@ {
        BisectView { good: Some(id), ..session }
    } else if word == "bad"@ {
        BisectView { bad: id, ..session }
    } else {
        BisectView { skipped: session.skipped.insert(id), ..session }
    };
    lemma_advanced::<E>(state, branch, marked, transition, result);
}

proof fn lemma_advanced<E>(
    state: StateView,
    branch: BranchView,
    session: BisectView,
    transition: GitTransitionId,
    result: ResultView,
)
    ensures
        ({
            let step = super::bisect::advanced(state, branch, session, transition);
            match session.good {
                Some(good) => match parent_range(state.commits, session.bad, good) {
                    Ok(range) => leads_on::<E>(
                        state,
                        branch,
                        session,
                        range,
                        step.output,
                        step.state,
                        transition,
                        result,
                    ),
                    Err(problem) => step.output == Err::<OutputView, StateErrorView>(problem)
                        && step.state == state,
                },
                None => step.output is Ok && step.state == (StateView {
                    bisect: Some(BisectView { current: Some(session.bad), ..session }),
                    ..state
                }),
            }
        }),
{
    if let Some(good) = session.good {
        if let Ok(range) = parent_range(state.commits, session.bad, good) {
            assert(super::bisect::candidates(range, session.skipped) == open_commits(
                range,
                session.skipped,
            ));
        }
    }
}

/// A session starts at the bad commit named, or at the head, once the live tree is the
/// one recorded with it; one that runs is not started again.
pub proof fn sessions_start_at_the_bad_commit<E>(
    state: StateView,
    branch: BranchView,
    workspace: GitTreeRef,
    transition: GitTransitionId,
    bad_name: Seq<char>,
    good_name: Seq<char>,
    head: GitCommitId,
    bad: GitCommitId,
    good: GitCommitId,
    result: ResultView,
)
    requires
        state.branches.dom().contains(state.current_branch),
        state.branches[state.current_branch] == branch,
        branch.head == Some(head),
        resolved(state, Some(bad_name)) == Ok::<GitCommitId, StateErrorView>(bad),
        resolved(state, Some(good_name)) == Ok::<GitCommitId, StateErrorView>(good),
        state.commits.dom().contains(bad),
    ensures
        ({
            let arguments = seq!["start"@, bad_name, good_name];
            let step = executed(state, CommandView::Bisect { arguments }, workspace, transition);
            let session = BisectView {
                original_branch: state.current_branch,
                original_head: head,
                good: Some(good),
                bad,
                current: Some(bad),
                skipped: Set::empty(),
            };
            &&& state.bisect is Some || state.commits[bad].workspace_tree != workspace
                ==> step.output is Err && step.state == state
            &&& state.bisect is None && state.commits[bad].workspace_tree == workspace ==> (
            match parent_range(state.commits, bad, good) {
                Ok(range) => leads_on::<E>(
                    state,
                    branch,
                    session,
                    range,
                    step.output,
                    step.state,
                    transition,
                    result,
                ),
                Err(problem) => step.output == Err::<OutputView, StateErrorView>(problem)
                    && step.state == state,
            })
        }),
{
    let arguments = seq!["start"@, bad_name, good_name];
    assert(arguments[0] == "start"@);
    assert(arguments[1] == bad_name);
    assert(arguments[2] == good_name);
    let session = BisectView {
        original_branch: state.current_branch,
        original_head: head,
        good: Some(good),
        bad,
        current: Some(bad),
        skipped: Set::empty(),
    };
    lemma_advanced::<E>(state, branch, session, transition, result);
}

/// Ending a session restores the tree of the commit that was the head when it started,
/// after which no session runs.
pub proof fn sessions_end_where_they_started<E>(
    state: StateView,
    branch: BranchView,
    workspace: GitTreeRef,
    transition: GitTransitionId,
    session: BisectView,
    result: ResultView,
)
    requires
        state.branches.dom().contains(state.current_branch),
        state.branches[state.current_branch] == branch,
        state.bisect == Some(session),
        state.commits.dom().contains(session.original_head),
    ensures
        ({
            let arguments = seq!["reset"@];
            let step = executed(state, CommandView::Bisect { arguments }, workspace, transition);
            let first = state.commits[session.original_head];
            &&& step.output == Ok::<OutputView, StateErrorView>(
                OutputView::Prepared {
                    transition,
                    action: ActionView::RestoreGeneration {
                        tree: first.tree,
                        paths: Some(branch.tracked_paths.union(first.tracked_paths)),
                    },
                },
            )
            &&& step.state.pending matches Some(pending) && completed::<E>(
                state,
                pending.mutation,
                result,
            ).state == (StateView { bisect: None, ..state })
        }),
{
    reveal_strlit("start");
    reveal_strlit("good");
    reveal_strlit("bad");
    reveal_strlit("skip");
    reveal_strlit("reset");
    assert(seq!["reset"@][0] == "reset"@);
    assert("reset"@[0] != "start"@[0]);
    assert("reset"@.len() == 5);
    assert("good"@.len() == 4 && "bad"@.len() == 3 && "skip"@.len() == 4);
}

/// A report names the bad commit as the first bad one exactly where every later commit of
/// the range is good or skipped, and counts those that are not.
pub proof fn reports_count_what_is_left(
    state: StateView,
    session: BisectView,
    good: GitCommitId,
    range: Seq<GitCommitId>,
)
    requires
        session.good == Some(good),
        parent_range(state.commits, session.bad, good) == Ok::<Seq<GitCommitId>, StateErrorView>(
            range,
        ),
    ensures
        session_report(state.commits, Some(session)) matches Ok(report) && ({
            let left = range.skip(1).filter(
                |id: GitCommitId| id != good && !session.skipped.contains(id),
            );
            &&& report.active && report.good == Some(good) && report.bad == Some(session.bad)
                && report.current == session.current
            &&& report.remaining == (if left.len() <= u32::MAX {
                left.len() as u32
            } else {
                u32::MAX
            })
            &&& report.first_bad == (if left.len() == 0 {
                Some(session.bad)
            } else {
                None
            })
        }),
        session_report(state.commits, None) matches Ok(report) && !report.active
            && report.first_bad is None && report.remaining == 0,
{
    assert(super::bisect::still_open(good, session.skipped) == (|id: GitCommitId|
        id != good && !session.skipped.contains(id)));
}

} // verus!
