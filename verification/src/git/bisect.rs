//! First-parent bisection.

use super::history::{
    first_parent_range, parent_range, resolve_object, resolved, Commits, GitCompatStateError,
    StateErrorView,
};
use super::sequencer::{prepare_transition, prepared, Step};
use super::types::{
    ActionView, BisectView, BranchView, GitBisectResult, GitBisectState, GitBranch, GitCommit,
    GitCommitId, GitCommandOutput, GitCompatState, GitFilesystemAction, GitObjectName,
    GitPendingMutation, GitTransitionId, GitTreeRef, MutationView, OutputView, StateView,
};
use crate::order::{views, OrderedMap, OrderedSet, Replicate};
use crate::text::{text_is, text_triple};
use vstd::prelude::*;
use vstd::string::*;

verus! {

/// Commits strictly between the ends of a range that are not skipped.
pub open spec fn candidates(range: Seq<GitCommitId>, skipped: Set<GitCommitId>) -> Seq<
    GitCommitId,
> {
    if range.len() <= 2 {
        Seq::empty()
    } else {
        range.subrange(1, range.len() - 1).filter(|id: GitCommitId| !skipped.contains(id))
    }
}

/// Commits after the first of a range that are neither good nor skipped.
pub open spec fn unclassified(
    range: Seq<GitCommitId>,
    good: GitCommitId,
    skipped: Set<GitCommitId>,
) -> Seq<GitCommitId> {
    range.skip(1).filter(still_open(good, skipped))
}

/// Commits that are neither good nor skipped.
pub open spec fn still_open(good: GitCommitId, skipped: Set<GitCommitId>) -> spec_fn(
    GitCommitId,
) -> bool {
    |id: GitCommitId| id != good && !skipped.contains(id)
}

/// A count as it is reported.
pub open spec fn reported(count: nat) -> u32 {
    if count <= u32::MAX {
        count as u32
    } else {
        u32::MAX
    }
}

/// The report on a session.
pub open spec fn session_report(commits: Commits, session: Option<BisectView>) -> Result<
    GitBisectResult,
    StateErrorView,
> {
    match session {
        None => Ok(
            GitBisectResult {
                active: false,
                good: None,
                bad: None,
                current: None,
                remaining: 0,
                first_bad: None,
            },
        ),
        Some(session) => match session.good {
            None => Ok(
                GitBisectResult {
                    active: true,
                    good: None,
                    bad: Some(session.bad),
                    current: session.current,
                    remaining: 0,
                    first_bad: None,
                },
            ),
            Some(good) => match parent_range(commits, session.bad, good) {
                Err(problem) => Err(problem),
                Ok(range) => {
                    let remaining = unclassified(range, good, session.skipped).len();
                    Ok(
                        GitBisectResult {
                            active: true,
                            good: Some(good),
                            bad: Some(session.bad),
                            current: session.current,
                            remaining: reported(remaining),
                            first_bad: if remaining == 0 {
                                Some(session.bad)
                            } else {
                                None
                            },
                        },
                    )
                },
            },
        },
    }
}

/// A checkout of one commit that publishes a session once it is done.
pub open spec fn bisect_checkout(
    state: StateView,
    branch: BranchView,
    commit: GitCommitId,
    replacement: Option<BisectView>,
    result: GitBisectResult,
    transition: GitTransitionId,
) -> Step {
    if state.commits.dom().contains(commit) {
        let record = state.commits[commit];
        prepared(
            state,
            ActionView::RestoreGeneration {
                tree: record.tree,
                paths: Some(branch.tracked_paths.union(record.tracked_paths)),
            },
            MutationView::Bisect { state: replacement, result },
            transition,
        )
    } else {
        Step { output: Err(StateErrorView::Invalid), state }
    }
}

/// The next step of a session: the middle candidate, or the first bad commit.
pub open spec fn advanced(
    state: StateView,
    branch: BranchView,
    session: BisectView,
    transition: GitTransitionId,
) -> Step {
    match session.good {
        None => {
            let waiting = BisectView { current: Some(session.bad), ..session };
            match session_report(state.commits, Some(waiting)) {
                Err(problem) => Step { output: Err(problem), state },
                Ok(result) => Step {
                    output: Ok(OutputView::Bisect(result)),
                    state: StateView { bisect: Some(waiting), ..state },
                },
            }
        },
        Some(good) => match parent_range(state.commits, session.bad, good) {
            Err(problem) => Step { output: Err(problem), state },
            Ok(range) => {
                let left = candidates(range, session.skipped);
                if left.len() == 0 {
                    Step {
                        output: Ok(
                            OutputView::Bisect(
                                GitBisectResult {
                                    active: true,
                                    good: Some(good),
                                    bad: Some(session.bad),
                                    current: None,
                                    remaining: 0,
                                    first_bad: Some(session.bad),
                                },
                            ),
                        ),
                        state: StateView {
                            bisect: Some(BisectView { current: None, ..session }),
                            ..state
                        },
                    }
                } else {
                    let candidate = left[(left.len() / 2) as int];
                    bisect_checkout(
                        state,
                        branch,
                        candidate,
                        Some(BisectView { current: Some(candidate), ..session }),
                        GitBisectResult {
                            active: true,
                            good: Some(good),
                            bad: Some(session.bad),
                            current: Some(candidate),
                            remaining: reported(left.len()),
                            first_bad: None,
                        },
                        transition,
                    )
                }
            },
        },
    }
}

/// A failed step, which leaves the state alone.
pub open spec fn refused(state: StateView, problem: StateErrorView) -> Step {
    Step { output: Err(problem), state }
}

/// The commit that an argument of a subcommand names, if it is given.
pub open spec fn named_argument(state: StateView, arguments: Seq<Seq<char>>, at: int) -> Result<
    Option<GitCommitId>,
    StateErrorView,
> {
    if at < arguments.len() {
        match resolved(state, Some(arguments[at])) {
            Ok(id) => Ok(Some(id)),
            Err(problem) => Err(problem),
        }
    } else {
        Ok(None)
    }
}

/// The start of a session.
pub open spec fn bisect_start(
    state: StateView,
    branch: BranchView,
    workspace: GitTreeRef,
    arguments: Seq<Seq<char>>,
    transition: GitTransitionId,
) -> Step {
    if state.bisect is Some {
        refused(state, StateErrorView::Bisect("a bisect session is already active"@))
    } else {
        match named_argument(state, arguments, 1) {
            Err(problem) => refused(state, problem),
            Ok(named) => {
                let bad = match named {
                    Some(id) => Some(id),
                    None => branch.head,
                };
                match bad {
                    None => refused(state, StateErrorView::UnbornHead),
                    Some(bad) => match named_argument(state, arguments, 2) {
                        Err(problem) => refused(state, problem),
                        Ok(good) => if !state.commits.dom().contains(bad) {
                            refused(state, StateErrorView::Invalid)
                        } else if state.commits[bad].workspace_tree != workspace {
                            refused(
                                state,
                                StateErrorView::Bisect(
                                    "the working copy must match the bad commit before bisect starts"@,
                                ),
                            )
                        } else {
                            match branch.head {
                                None => refused(state, StateErrorView::UnbornHead),
                                Some(head) => advanced(
                                    state,
                                    branch,
                                    BisectView {
                                        original_branch: state.current_branch,
                                        original_head: head,
                                        good,
                                        bad,
                                        current: Some(bad),
                                        skipped: Set::empty(),
                                    },
                                    transition,
                                ),
                            }
                        },
                    },
                }
            },
        }
    }
}

/// A classification of one commit in a session.
pub open spec fn bisect_mark(
    state: StateView,
    branch: BranchView,
    subcommand: Seq<char>,
    arguments: Seq<Seq<char>>,
    transition: GitTransitionId,
) -> Step {
    match state.bisect {
        None => refused(state, StateErrorView::Bisect("start a bisect session first"@)),
        Some(session) => match named_argument(state, arguments, 1) {
            Err(problem) => refused(state, problem),
            Ok(named) => {
                let marked = match named {
                    Some(id) => Some(id),
                    None => session.current,
                };
                match marked {
                    None => refused(state, StateErrorView::Bisect("no current commit is selected"@)),
                    Some(marked) => advanced(
                        state,
                        branch,
                        if subcommand == "good"@ {
                            BisectView { good: Some(marked), ..session }
                        } else if subcommand == "bad"@ {
                            BisectView { bad: marked, ..session }
                        } else {
                            BisectView { skipped: session.skipped.insert(marked), ..session }
                        },
                        transition,
                    ),
                }
            },
        },
    }
}

/// One bisection subcommand.
pub open spec fn bisected(
    state: StateView,
    branch: BranchView,
    workspace: GitTreeRef,
    arguments: Seq<Seq<char>>,
    transition: GitTransitionId,
) -> Step {
    let subcommand = if arguments.len() > 0 {
        arguments[0]
    } else {
        "start"@
    };
    if subcommand == "start"@ {
        bisect_start(state, branch, workspace, arguments, transition)
    } else if subcommand == "good"@ || subcommand == "bad"@ || subcommand == "skip"@ {
        bisect_mark(state, branch, subcommand, arguments, transition)
    } else if subcommand == "reset"@ {
        match state.bisect {
            None => refused(state, StateErrorView::Bisect("no bisect session is active"@)),
            Some(session) => bisect_checkout(
                state,
                branch,
                session.original_head,
                None,
                GitBisectResult {
                    active: false,
                    good: session.good,
                    bad: Some(session.bad),
                    current: None,
                    remaining: 0,
                    first_bad: None,
                },
                transition,
            ),
        }
    } else if subcommand == "log"@ || subcommand == "visualize"@ {
        match session_report(state.commits, state.bisect) {
            Err(problem) => refused(state, problem),
            Ok(result) => Step { output: Ok(OutputView::Bisect(result)), state },
        }
    } else {
        refused(
            state,
            StateErrorView::Bisect("unsupported bisect operation '"@ + subcommand + "'"@),
        )
    }
}

proof fn lemma_filter_step(
    ids: Seq<GitCommitId>,
    property: spec_fn(GitCommitId) -> bool,
    from: int,
    i: int,
)
    requires
        0 <= from <= i < ids.len(),
    ensures
        ids.subrange(from, i + 1).filter(property) == if property(ids[i]) {
            ids.subrange(from, i).filter(property).push(ids[i])
        } else {
            ids.subrange(from, i).filter(property)
        },
{
    let next = ids.subrange(from, i + 1);
    assert(next.drop_last() =~= ids.subrange(from, i));
    assert(next.last() == ids[i]);
    reveal(Seq::filter);
}

/// Collects the commits between the ends of a range that are not skipped.
fn range_candidates(range: &Vec<GitCommitId>, skipped: &OrderedSet<GitCommitId>) -> (r: Vec<
    GitCommitId,
>)
    ensures
        r@ == candidates(range@, skipped@),
{
    let mut left: Vec<GitCommitId> = Vec::new();
    if range.len() <= 2 {
        return left;
    }
    let ghost property = |id: GitCommitId| !skipped@.contains(id);
    let mut i: usize = 1;
    proof {
        reveal(Seq::filter);
        assert(range@.subrange(1, 1).filter(property) =~= Seq::empty());
    }
    while i < range.len() - 1
        invariant
            1 <= i <= range@.len() - 1,
            range@.len() > 2,
            property == (|id: GitCommitId| !skipped@.contains(id)),
            left@ == range@.subrange(1, i as int).filter(property),
        decreases range@.len() - i,
    {
        proof {
            lemma_filter_step(range@, property, 1, i as int);
        }
        if !skipped.contains(&range[i]) {
            left.push(range[i]);
        }
        i = i + 1;
    }
    left
}

/// Counts the commits after the first that are neither good nor skipped.
fn count_unclassified(
    range: &Vec<GitCommitId>,
    good: GitCommitId,
    skipped: &OrderedSet<GitCommitId>,
) -> (r: usize)
    requires
        range@.len() > 0,
    ensures
        r == unclassified(range@, good, skipped@).len(),
{
    let ghost property = still_open(good, skipped@);
    let mut count: usize = 0;
    let mut i: usize = 1;
    proof {
        reveal(Seq::filter);
        assert(range@.subrange(1, 1).filter(property) =~= Seq::empty());
    }
    while i < range.len()
        invariant
            1 <= i <= range@.len(),
            count < i,
            property == still_open(good, skipped@),
            count == range@.subrange(1, i as int).filter(property).len(),
        decreases range@.len() - i,
    {
        proof {
            lemma_filter_step(range@, property, 1, i as int);
        }
        if range[i] != good && !skipped.contains(&range[i]) {
            count = count + 1;
        }
        i = i + 1;
    }
    assert(range@.subrange(1, i as int) =~= range@.skip(1));
    count
}

fn report_count(count: usize) -> (r: u32)
    ensures
        r == reported(count as nat),
{
    if count <= u32::MAX as usize {
        count as u32
    } else {
        u32::MAX
    }
}

/// Reports on a session.
pub fn bisect_result(
    commits: &OrderedMap<GitCommitId, GitCommit>,
    session: Option<&GitBisectState>,
) -> (r: Result<GitBisectResult, GitCompatStateError>)
    ensures
        session_report(
            commits@,
            match session {
                Some(session) => Some(session@),
                None => None,
            },
        ) == match r {
            Ok(result) => Ok::<GitBisectResult, StateErrorView>(result),
            Err(error) => Err(error@),
        },
{
    let session = match session {
        None => {
            return Ok(
                GitBisectResult {
                    active: false,
                    good: None,
                    bad: None,
                    current: None,
                    remaining: 0,
                    first_bad: None,
                },
            );
        },
        Some(session) => session,
    };
    match session.good {
        None => Ok(
            GitBisectResult {
                active: true,
                good: None,
                bad: Some(session.bad),
                current: session.current,
                remaining: 0,
                first_bad: None,
            },
        ),
        Some(good) => match first_parent_range(commits, session.bad, good) {
            Err(error) => Err(error),
            Ok(range) => {
                let remaining = count_unclassified(&range, good, &session.skipped);
                Ok(
                    GitBisectResult {
                        active: true,
                        good: Some(good),
                        bad: Some(session.bad),
                        current: session.current,
                        remaining: report_count(remaining),
                        first_bad: if remaining == 0 {
                            Some(session.bad)
                        } else {
                            None
                        },
                    },
                )
            },
        },
    }
}

fn prepare_bisect_checkout(
    state: &mut GitCompatState,
    branch: &GitBranch,
    commit: GitCommitId,
    replacement: Option<GitBisectState>,
    result: GitBisectResult,
    transition: GitTransitionId,
) -> (r: Result<GitCommandOutput, GitCompatStateError>)
    ensures
        Step::of(r, final(state)@) == bisect_checkout(
            old(state)@,
            branch@,
            commit,
            match replacement {
                Some(session) => Some(session@),
                None => None,
            },
            result,
            transition,
        ),
{
    match state.commits.get(&commit) {
        None => Err(GitCompatStateError::Invalid),
        Some(record) => {
            let paths = branch.tracked_paths.union(&record.tracked_paths);
            let action = GitFilesystemAction::RestoreGeneration {
                tree: record.tree,
                paths: Some(paths),
            };
            let mutation = GitPendingMutation::Bisect { state: replacement, result };
            Ok(prepare_transition(state, action, mutation, transition))
        },
    }
}

/// Advances a session by one step.
fn advance_bisect(
    state: &mut GitCompatState,
    branch: &GitBranch,
    session: GitBisectState,
    transition: GitTransitionId,
) -> (r: Result<GitCommandOutput, GitCompatStateError>)
    ensures
        Step::of(r, final(state)@) == advanced(old(state)@, branch@, session@, transition),
{
    let ghost before = state@;
    let ghost given = session@;
    let mut session = session;
    match session.good {
        None => {
            session.current = Some(session.bad);
            assert(session@ =~= (BisectView { current: Some(given.bad), ..given }));
            match bisect_result(&state.commits, Some(&session)) {
                Err(error) => Err(error),
                Ok(result) => {
                    state.bisect = Some(session);
                    assert(state@ =~= (StateView { bisect: Some(session@), ..before }));
                    Ok(GitCommandOutput::Bisect(result))
                },
            }
        },
        Some(good) => match first_parent_range(&state.commits, session.bad, good) {
            Err(error) => Err(error),
            Ok(range) => {
                let left = range_candidates(&range, &session.skipped);
                if left.len() == 0 {
                    session.current = None;
                    let result = GitBisectResult {
                        active: true,
                        good: Some(good),
                        bad: Some(session.bad),
                        current: None,
                        remaining: 0,
                        first_bad: Some(session.bad),
                    };
                    assert(session@ =~= (BisectView { current: None, ..given }));
                    state.bisect = Some(session);
                    assert(state@ =~= (StateView { bisect: Some(session@), ..before }));
                    Ok(GitCommandOutput::Bisect(result))
                } else {
                    let candidate = left[left.len() / 2];
                    session.current = Some(candidate);
                    let result = GitBisectResult {
                        active: true,
                        good: Some(good),
                        bad: Some(session.bad),
                        current: Some(candidate),
                        remaining: report_count(left.len()),
                        first_bad: None,
                    };
                    assert(session@ =~= (BisectView { current: Some(candidate), ..given }));
                    prepare_bisect_checkout(
                        state,
                        branch,
                        candidate,
                        Some(session),
                        result,
                        transition,
                    )
                }
            },
        },
    }
}

fn resolve_argument(state: &GitCompatState, arguments: &Vec<String>, at: usize) -> (r: Result<
    Option<GitCommitId>,
    GitCompatStateError,
>)
    ensures
        named_argument(state@, views(arguments@), at as int) == match r {
            Ok(named) => Ok::<Option<GitCommitId>, StateErrorView>(named),
            Err(error) => Err(error@),
        },
{
    if at < arguments.len() {
        let name = GitObjectName(arguments[at].clone());
        match resolve_object(state, Some(&name)) {
            Ok(id) => Ok(Some(id)),
            Err(error) => Err(error),
        }
    } else {
        Ok(None)
    }
}

fn start_bisect(
    state: &mut GitCompatState,
    branch: &GitBranch,
    workspace: GitTreeRef,
    arguments: &Vec<String>,
    transition: GitTransitionId,
) -> (r: Result<GitCommandOutput, GitCompatStateError>)
    ensures
        Step::of(r, final(state)@) == bisect_start(
            old(state)@,
            branch@,
            workspace,
            views(arguments@),
            transition,
        ),
{
    if state.bisect.is_some() {
        return Err(
            GitCompatStateError::Bisect("a bisect session is already active".to_owned()),
        );
    }
    let named = match resolve_argument(state, arguments, 1) {
        Err(error) => return Err(error),
        Ok(Some(id)) => Some(id),
        Ok(None) => branch.head,
    };
    let bad = match named {
        None => return Err(GitCompatStateError::UnbornHead),
        Some(bad) => bad,
    };
    let good = match resolve_argument(state, arguments, 2) {
        Err(error) => return Err(error),
        Ok(good) => good,
    };
    match state.commits.get(&bad) {
        None => return Err(GitCompatStateError::Invalid),
        Some(record) => {
            if record.workspace_tree != workspace {
                return Err(
                    GitCompatStateError::Bisect(
                        "the working copy must match the bad commit before bisect starts".to_owned(),
                    ),
                );
            }
        },
    }
    match branch.head {
        None => Err(GitCompatStateError::UnbornHead),
        Some(head) => {
            let session = GitBisectState {
                original_branch: state.current_branch.clone(),
                original_head: head,
                good,
                bad,
                current: Some(bad),
                skipped: OrderedSet::new(),
            };
            advance_bisect(state, branch, session, transition)
        },
    }
}

fn mark_bisect(
    state: &mut GitCompatState,
    branch: &GitBranch,
    subcommand: &str,
    arguments: &Vec<String>,
    transition: GitTransitionId,
) -> (r: Result<GitCommandOutput, GitCompatStateError>)
    ensures
        Step::of(r, final(state)@) == bisect_mark(
            old(state)@,
            branch@,
            subcommand@,
            views(arguments@),
            transition,
        ),
{
    let mut session = match &state.bisect {
        None => {
            return Err(GitCompatStateError::Bisect("start a bisect session first".to_owned()));
        },
        Some(session) => session.replicate(),
    };
    let ghost given = session@;
    let named = match resolve_argument(state, arguments, 1) {
        Err(error) => return Err(error),
        Ok(Some(id)) => Some(id),
        Ok(None) => session.current,
    };
    let marked = match named {
        None => {
            return Err(GitCompatStateError::Bisect("no current commit is selected".to_owned()));
        },
        Some(marked) => marked,
    };
    if text_is(subcommand, "good") {
        session.good = Some(marked);
        assert(session@ =~= (BisectView { good: Some(marked), ..given }));
    } else if text_is(subcommand, "bad") {
        session.bad = marked;
        assert(session@ =~= (BisectView { bad: marked, ..given }));
    } else {
        session.skipped.insert(marked);
        assert(session@ =~= (BisectView { skipped: given.skipped.insert(marked), ..given }));
    }
    advance_bisect(state, branch, session, transition)
}

/// Executes one bisection subcommand.
pub fn execute_bisect(
    state: &mut GitCompatState,
    branch: &GitBranch,
    workspace: GitTreeRef,
    arguments: &Vec<String>,
    transition: GitTransitionId,
) -> (r: Result<GitCommandOutput, GitCompatStateError>)
    ensures
        Step::of(r, final(state)@) == bisected(
            old(state)@,
            branch@,
            workspace,
            views(arguments@),
            transition,
        ),
{
    let subcommand = if arguments.len() > 0 {
        arguments[0].clone()
    } else {
        "start".to_owned()
    };
    let word = subcommand.as_str();
    if text_is(word, "start") {
        start_bisect(state, branch, workspace, arguments, transition)
    } else if text_is(word, "good") || text_is(word, "bad") || text_is(word, "skip") {
        mark_bisect(state, branch, word, arguments, transition)
    } else if text_is(word, "reset") {
        let session = match &state.bisect {
            None => {
                return Err(GitCompatStateError::Bisect("no bisect session is active".to_owned()));
            },
            Some(session) => session.replicate(),
        };
        let result = GitBisectResult {
            active: false,
            good: session.good,
            bad: Some(session.bad),
            current: None,
            remaining: 0,
            first_bad: None,
        };
        prepare_bisect_checkout(state, branch, session.original_head, None, result, transition)
    } else if text_is(word, "log") || text_is(word, "visualize") {
        match bisect_result(&state.commits, state.bisect.as_ref()) {
            Err(error) => Err(error),
            Ok(result) => Ok(GitCommandOutput::Bisect(result)),
        }
    } else {
        Err(
            GitCompatStateError::Bisect(
                text_triple("unsupported bisect operation '", word, "'"),
            ),
        )
    }
}

} // verus!
