//! Consistency of persisted compatibility state.

use super::ancestry::{parents_of, reached};
use super::commit::commit_authentic;
use super::history::{current_branch, Commits};
use super::types::{
    BisectView, BranchView, CommitView, GitBisectState, GitCommit, GitCommitId, GitCompatState,
    GitPendingMutation, MutationView, StateView,
};
use crate::foundation::WorkspaceId;
use crate::order::{ascending, enumerates, OrderKey, OrderedMap, OrderedSet, Replicate};
use vstd::prelude::*;
use vstd::string::*;

verus! {

/// Version of states that this library writes.
pub const STATE_VERSION: u32 = 8;

/// Whether a commit is its own ancestor.
pub open spec fn cyclic(commits: Commits) -> bool {
    exists|id: GitCommitId, steps: nat|
        steps > 0 && #[trigger] reached(commits, id, steps).contains(id)
}

/// Whether a branch is named by its key and agrees with its head.
pub open spec fn branch_valid(commits: Commits, name: Seq<char>, branch: BranchView) -> bool {
    &&& name.len() > 0
    &&& branch.name == name
    &&& match branch.head {
        Some(head) => commits.dom().contains(head) && commits[head].tracked_paths
            == branch.tracked_paths,
        None => branch.tracked_paths == Set::<Seq<char>>::empty(),
    }
}

/// Whether some branch lives in a workspace.
pub open spec fn workspace_known(state: StateView, workspace: WorkspaceId) -> bool {
    exists|name: Seq<char>| #[trigger]
        state.branches.dom().contains(name) && state.branches[name].workspace_id == workspace
}

/// Whether a commit is filed by its identity, authentic and connected.
pub open spec fn commit_valid(state: StateView, id: GitCommitId, commit: CommitView) -> bool {
    &&& commit.id == id
    &&& commit_authentic(commit)
    &&& commit.tree.owner() == commit.workspace_tree.owner()
    &&& workspace_known(state, commit.tree.owner())
    &&& forall|i: int|
        0 <= i < commit.parents.len() ==> state.commits.dom().contains(
            #[trigger] commit.parents[i],
        ) || state.external_parents.contains(commit.parents[i])
}

/// Whether a boundary parent is unrecorded and referred to.
pub open spec fn external_valid(state: StateView, id: GitCommitId) -> bool {
    &&& !state.commits.dom().contains(id)
    &&& exists|child: GitCommitId| #[trigger]
        state.commits.dom().contains(child) && state.commits[child].parents.contains(id)
}

/// Whether an optional identity is recorded.
pub open spec fn head_recorded(commits: Commits, head: Option<GitCommitId>) -> bool {
    match head {
        Some(id) => commits.dom().contains(id),
        None => true,
    }
}

/// Whether every commit of a session is recorded.
pub open spec fn session_valid(commits: Commits, session: BisectView) -> bool {
    &&& commits.dom().contains(session.original_head)
    &&& commits.dom().contains(session.bad)
    &&& head_recorded(commits, session.good)
    &&& head_recorded(commits, session.current)
    &&& session.skipped.subset_of(commits.dom())
}

/// Whether a deferred mutation refers to known things only.
pub open spec fn mutation_valid(state: StateView, mutation: MutationView) -> bool {
    match mutation {
        MutationView::CaptureCommit { workspace_tree, expected_head, .. } => {
            &&& current_branch(state) matches Some(branch) && workspace_tree.owner()
                == branch.workspace_id
            &&& head_recorded(state.commits, expected_head)
        },
        MutationView::ForkBranch { branch, head, .. } => {
            &&& branch.len() > 0
            &&& !state.branches.dom().contains(branch)
            &&& head_recorded(state.commits, head)
        },
        MutationView::Switch { branch } => state.branches.dom().contains(branch),
        MutationView::Reset { head } => state.commits.dom().contains(head),
        MutationView::ApplyCommit { commit, .. } => state.commits.dom().contains(commit),
        MutationView::Join { source_head, .. } => match source_head {
            Some(id) => state.commits.dom().contains(id) || state.external_parents.contains(id),
            None => true,
        },
        MutationView::NoOp => true,
        MutationView::StashPush { .. } => true,
        MutationView::StashPop { .. } => true,
        MutationView::Bisect { .. } => true,
    }
}

/// Whether every reference of a state leads to something known.
pub open spec fn references_valid(state: StateView) -> bool {
    &&& forall|id: GitCommitId| #[trigger]
        state.external_parents.contains(id) ==> external_valid(state, id)
    &&& forall|name: Seq<char>| #[trigger]
        state.tags.dom().contains(name) ==> state.commits.dom().contains(state.tags[name])
    &&& forall|i: int|
        0 <= i < state.reflog.len() ==> head_recorded(state.commits, #[trigger] state.reflog[i])
    &&& forall|i: int|
        0 <= i < state.stash.len() ==> workspace_known(state, (#[trigger] state.stash[i]).owner())
    &&& state.bisect matches Some(session) ==> session_valid(state.commits, session)
    &&& state.pending matches Some(pending) ==> mutation_valid(state, pending.mutation)
}

/// Whether a state is consistent.
pub open spec fn state_valid(state: StateView) -> bool {
    &&& state.version == STATE_VERSION
    &&& state.branches.dom().contains(state.current_branch)
    &&& state.legacy_tracked_paths == Set::<Seq<char>>::empty()
    &&& forall|name: Seq<char>| #[trigger]
        state.branches.dom().contains(name) ==> branch_valid(
            state.commits,
            name,
            state.branches[name],
        )
    &&& forall|id: GitCommitId| #[trigger]
        state.commits.dom().contains(id) ==> commit_valid(state, id, state.commits[id])
    &&& !cyclic(state.commits)
    &&& references_valid(state)
}

proof fn lemma_listed<K: OrderKey>(keys: Seq<K::V>, set: Set<K::V>, key: K::V) -> (i: int)
    requires
        enumerates::<K>(keys, set),
        set.contains(key),
    ensures
        0 <= i < keys.len(),
        keys[i] == key,
{
    assert(keys.to_set().contains(key));
    keys.index_of(key)
}

/// Checks that every branch is named by its key and agrees with its head.
fn validate_git_branches(state: &GitCompatState) -> (r: bool)
    ensures
        r == (forall|name: Seq<char>| #[trigger]
            state@.branches.dom().contains(name) ==> branch_valid(
                state@.commits,
                name,
                state@.branches[name],
            )),
{
    let count = state.branches.len();
    let ghost names = ascending::<String>(state@.branches.dom());
    let mut i: usize = 0;
    while i < count
        invariant
            i <= count,
            count == names.len(),
            names == ascending::<String>(state@.branches.dom()),
            enumerates::<String>(names, state@.branches.dom()),
            forall|k: int|
                0 <= k < i ==> branch_valid(
                    state@.commits,
                    #[trigger] names[k],
                    state@.branches[names[k]],
                ),
        decreases count - i,
    {
        let name = state.branches.key_at(i);
        let branch = state.branches.value_at(i);
        let agrees = match branch.head {
            Some(head) => match state.commits.get(&head) {
                Some(commit) => commit.tracked_paths.same_as(&branch.tracked_paths),
                None => false,
            },
            None => branch.tracked_paths.is_empty(),
        };
        if name.as_str().is_empty() || !crate::text::text_is(branch.name.as_str(), name.as_str())
            || !agrees {
            assert(!branch_valid(state@.commits, name@, state@.branches[name@]));
            return false;
        }
        i = i + 1;
    }
    proof {
        assert forall|name: Seq<char>| #[trigger] state@.branches.dom().contains(
            name,
        ) implies branch_valid(state@.commits, name, state@.branches[name]) by {
            let k = lemma_listed::<String>(names, state@.branches.dom(), name);
            assert(names[k] == name);
        }
    }
    true
}

/// Collects the workspaces of all branches.
fn known_workspaces(state: &GitCompatState) -> (r: OrderedSet<WorkspaceId>)
    ensures
        forall|workspace: WorkspaceId| #[trigger]
            r@.contains(workspace) <==> workspace_known(state@, workspace),
{
    let count = state.branches.len();
    let ghost names = ascending::<String>(state@.branches.dom());
    let mut found: OrderedSet<WorkspaceId> = OrderedSet::new();
    let mut i: usize = 0;
    while i < count
        invariant
            i <= count,
            count == names.len(),
            names == ascending::<String>(state@.branches.dom()),
            enumerates::<String>(names, state@.branches.dom()),
            forall|workspace: WorkspaceId| #[trigger]
                found@.contains(workspace) ==> workspace_known(state@, workspace),
            forall|k: int|
                0 <= k < i ==> found@.contains(state@.branches[#[trigger] names[k]].workspace_id),
        decreases count - i,
    {
        let ghost name = names[i as int];
        let branch = state.branches.value_at(i);
        assert(state@.branches.dom().contains(name));
        found.insert(branch.workspace_id);
        i = i + 1;
    }
    proof {
        assert forall|workspace: WorkspaceId| workspace_known(
            state@,
            workspace,
        ) implies #[trigger] found@.contains(workspace) by {
            let name = choose|name: Seq<char>| #[trigger]
                state@.branches.dom().contains(name) && state@.branches[name].workspace_id
                    == workspace;
            let k = lemma_listed::<String>(names, state@.branches.dom(), name);
            assert(names[k] == name);
        }
    }
    found
}

/// Checks one commit against its key and its surroundings.
fn validate_git_commit(
    state: &GitCompatState,
    workspaces: &OrderedSet<WorkspaceId>,
    id: GitCommitId,
    commit: &GitCommit,
) -> (r: bool)
    requires
        forall|workspace: WorkspaceId| #[trigger]
            workspaces@.contains(workspace) <==> workspace_known(state@, workspace),
    ensures
        r == commit_valid(state@, id, commit@),
{
    let rebuilt = GitCommit::new_with_metadata(
        commit.tree,
        commit.workspace_tree,
        commit.tracked_paths.replicate(),
        super::types::copy_all(commit.parents.as_slice()),
        commit.author.clone(),
        commit.authored_at_seconds,
        commit.message.clone(),
    );
    proof {
        if rebuilt.id == commit.id {
            assert(rebuilt@ =~= commit@);
        }
    }
    if id != commit.id || rebuilt.id != commit.id || commit.tree.workspace_id()
        != commit.workspace_tree.workspace_id() || !workspaces.contains(
        &commit.tree.workspace_id(),
    ) {
        return false;
    }
    let mut i: usize = 0;
    while i < commit.parents.len()
        invariant
            i <= commit.parents@.len(),
            forall|k: int|
                0 <= k < i ==> state@.commits.dom().contains(#[trigger] commit.parents@[k])
                    || state@.external_parents.contains(commit.parents@[k]),
        decreases commit.parents@.len() - i,
    {
        let parent = commit.parents[i];
        if !state.commits.contains_key(&parent) && !state.external_parents.contains(&parent) {
            assert(!commit_valid(state@, id, commit@)) by {
                assert(commit@.parents[i as int] == parent);
            }
            return false;
        }
        i = i + 1;
    }
    true
}

/// Checks every commit against its key and its surroundings.
fn validate_git_commits(state: &GitCompatState, workspaces: &OrderedSet<WorkspaceId>) -> (r: bool)
    requires
        forall|workspace: WorkspaceId| #[trigger]
            workspaces@.contains(workspace) <==> workspace_known(state@, workspace),
    ensures
        r == (forall|id: GitCommitId| #[trigger]
            state@.commits.dom().contains(id) ==> commit_valid(state@, id, state@.commits[id])),
{
    let count = state.commits.len();
    let ghost ids = ascending::<GitCommitId>(state@.commits.dom());
    let mut i: usize = 0;
    while i < count
        invariant
            i <= count,
            count == ids.len(),
            ids == ascending::<GitCommitId>(state@.commits.dom()),
            enumerates::<GitCommitId>(ids, state@.commits.dom()),
            forall|workspace: WorkspaceId| #[trigger]
                workspaces@.contains(workspace) <==> workspace_known(state@, workspace),
            forall|k: int|
                0 <= k < i ==> commit_valid(state@, #[trigger] ids[k], state@.commits[ids[k]]),
        decreases count - i,
    {
        let id = *state.commits.key_at(i);
        if !validate_git_commit(state, workspaces, id, state.commits.value_at(i)) {
            return false;
        }
        i = i + 1;
    }
    proof {
        assert forall|id: GitCommitId| #[trigger] state@.commits.dom().contains(
            id,
        ) implies commit_valid(state@, id, state@.commits[id]) by {
            let k = lemma_listed::<GitCommitId>(ids, state@.commits.dom(), id);
            assert(ids[k] == id);
        }
    }
    true
}

/// Chains of parent links compose.
pub proof fn descent_composes(
    commits: Commits,
    a: GitCommitId,
    b: GitCommitId,
    c: GitCommitId,
    n: nat,
    m: nat,
)
    requires
        reached(commits, a, n).contains(b),
        reached(commits, b, m).contains(c),
    ensures
        reached(commits, a, n + m).contains(c),
    decreases m,
{
    if m > 0 {
        let child = choose|child: GitCommitId| #[trigger]
            reached(commits, b, (m - 1) as nat).contains(child) && parents_of(
                commits,
                child,
            ).contains(c);
        descent_composes(commits, a, b, child, n, (m - 1) as nat);
        assert(reached(commits, a, (n + m - 1) as nat).contains(child));
    }
}

/// Whether one or more parent links lead from `a` to `b`.
spec fn descends(commits: Commits, a: GitCommitId, b: GitCommitId) -> bool {
    exists|n: nat| n > 0 && #[trigger] reached(commits, a, n).contains(b)
}

proof fn lemma_descends_parent(commits: Commits, a: GitCommitId, b: GitCommitId, parent: GitCommitId)
    requires
        a == b || descends(commits, a, b),
        parents_of(commits, b).contains(parent),
    ensures
        descends(commits, a, parent),
{
    if a == b {
        assert(reached(commits, a, 0).contains(b));
        assert(reached(commits, a, 1).contains(parent));
    } else {
        let n = choose|n: nat| n > 0 && #[trigger] reached(commits, a, n).contains(b);
        assert(reached(commits, a, n + 1).contains(parent));
    }
}

/// Finished commits, each after all of its recorded parents.
spec fn finished_order(commits: Commits, order: Seq<GitCommitId>) -> bool {
    &&& order.no_duplicates()
    &&& forall|i: int, parent: GitCommitId|
        0 <= i < order.len() && #[trigger] parents_of(commits, order[i]).contains(parent)
            && commits.dom().contains(parent) ==> exists|j: int| 0 <= j < i && order[j] == parent
}

proof fn lemma_order_descends(
    commits: Commits,
    order: Seq<GitCommitId>,
    i: int,
    id: GitCommitId,
    n: nat,
)
    requires
        finished_order(commits, order),
        0 <= i < order.len(),
        n > 0,
        reached(commits, order[i], n).contains(id),
        commits.dom().contains(id),
    ensures
        exists|j: int| 0 <= j < i && order[j] == id,
    decreases n,
{
    let child = choose|child: GitCommitId| #[trigger]
        reached(commits, order[i], (n - 1) as nat).contains(child) && parents_of(
            commits,
            child,
        ).contains(id);
    if n == 1 {
        assert(child == order[i]);
        assert(parents_of(commits, order[i]).contains(id));
    } else {
        assert(commits.dom().contains(child));
        lemma_order_descends(commits, order, i, child, (n - 1) as nat);
        let k = choose|k: int| 0 <= k < i && order[k] == child;
        assert(parents_of(commits, order[k]).contains(id));
        let j = choose|j: int| 0 <= j < k && order[j] == id;
        assert(0 <= j < i && order[j] == id);
    }
}

proof fn lemma_order_acyclic(commits: Commits, order: Seq<GitCommitId>)
    requires
        finished_order(commits, order),
        forall|id: GitCommitId| #[trigger] commits.dom().contains(id) ==> order.contains(id),
    ensures
        !cyclic(commits),
{
    if cyclic(commits) {
        let (id, n) = choose|id: GitCommitId, n: nat|
            n > 0 && #[trigger] reached(commits, id, n).contains(id);
        assert(commits.dom().contains(id)) by {
            lemma_start_recorded(commits, id, id, n);
        }
        let i = order.index_of(id);
        assert(order[i] == id);
        lemma_order_descends(commits, order, i, id, n);
    }
}

proof fn lemma_start_recorded(commits: Commits, a: GitCommitId, b: GitCommitId, n: nat)
    requires
        n > 0,
        reached(commits, a, n).contains(b),
    ensures
        commits.dom().contains(a),
    decreases n,
{
    let child = choose|child: GitCommitId| #[trigger]
        reached(commits, a, (n - 1) as nat).contains(child) && parents_of(commits, child).contains(
            b,
        );
    if n > 1 {
        lemma_start_recorded(commits, a, child, (n - 1) as nat);
    }
}

/// What the depth-first walk keeps true of its stack.
spec fn walk_inv(
    commits: Commits,
    stack: Seq<(GitCommitId, bool)>,
    active: Set<GitCommitId>,
    finished: Set<GitCommitId>,
    order: Seq<GitCommitId>,
) -> bool {
    &&& finished == order.to_set()
    &&& finished_order(commits, order)
    &&& forall|id: GitCommitId| #[trigger] finished.contains(id) ==> commits.dom().contains(id)
        && !active.contains(id)
    &&& forall|i: int| 0 <= i < stack.len() ==> commits.dom().contains((#[trigger] stack[i]).0)
    &&& forall|id: GitCommitId| #[trigger]
        active.contains(id) <==> exists|i: int| 0 <= i < stack.len() && stack[i] == (id, true)
    &&& forall|i: int, j: int|
        0 <= i < j < stack.len() && (#[trigger] stack[i]).1 ==> descends(
            commits,
            stack[i].0,
            (#[trigger] stack[j]).0,
        ) && stack[j] != stack[i]
    &&& forall|i: int, parent: GitCommitId|
        0 <= i < stack.len() && (#[trigger] stack[i]).1 && #[trigger] parents_of(
            commits,
            stack[i].0,
        ).contains(parent) && commits.dom().contains(parent) ==> finished.contains(parent)
            || exists|j: int| i < j < stack.len() && stack[j].0 == parent
}

proof fn lemma_walk_finish(
    commits: Commits,
    stack: Seq<(GitCommitId, bool)>,
    active: Set<GitCommitId>,
    finished: Set<GitCommitId>,
    order: Seq<GitCommitId>,
)
    requires
        walk_inv(commits, stack, active, finished, order),
        stack.len() > 0,
        stack.last().1,
    ensures
        walk_inv(
            commits,
            stack.drop_last(),
            active.remove(stack.last().0),
            finished.insert(stack.last().0),
            order.push(stack.last().0),
        ),
{
    let id = stack.last().0;
    let top = stack.len() - 1;
    let rest = stack.drop_last();
    let longer = order.push(id);
    assert(stack[top] == (id, true));
    assert(active.contains(id));
    assert(!finished.contains(id));
    crate::order::lemma_to_set_push(order, id);
    assert forall|i: int, j: int|
        0 <= i < longer.len() && 0 <= j < longer.len() && i != j implies longer[i]
        != longer[j] by {
        if i < order.len() {
            assert(order.to_set().contains(order[i]));
        }
        if j < order.len() {
            assert(order.to_set().contains(order[j]));
        }
    }
    assert forall|i: int, parent: GitCommitId|
        0 <= i < longer.len() && #[trigger] parents_of(commits, longer[i]).contains(parent)
            && commits.dom().contains(parent) implies exists|j: int|
        0 <= j < i && longer[j] == parent by {
        if i < order.len() {
            assert(parents_of(commits, order[i]).contains(parent));
            let j = choose|j: int| 0 <= j < i && order[j] == parent;
            assert(longer[j] == parent);
        } else {
            assert(parents_of(commits, stack[top].0).contains(parent));
            assert(order.to_set().contains(parent));
            let j = order.index_of(parent);
            assert(longer[j] == parent);
        }
    }
    assert forall|other: GitCommitId| #[trigger] active.remove(id).contains(other) <==> exists|
        i: int,
    | 0 <= i < rest.len() && rest[i] == (other, true) by {
        if active.remove(id).contains(other) {
            let i = choose|i: int| 0 <= i < stack.len() && stack[i] == (other, true);
            assert(rest[i] == (other, true));
        }
        if exists|i: int| 0 <= i < rest.len() && rest[i] == (other, true) {
            let i = choose|i: int| 0 <= i < rest.len() && rest[i] == (other, true);
            assert(stack[i] == (other, true));
            assert(stack[top] != stack[i]);
        }
    }
    assert forall|i: int, parent: GitCommitId|
        0 <= i < rest.len() && (#[trigger] rest[i]).1 && #[trigger] parents_of(
            commits,
            rest[i].0,
        ).contains(parent) && commits.dom().contains(parent) implies finished.insert(
        id,
    ).contains(parent) || exists|j: int| i < j < rest.len() && rest[j].0 == parent by {
        assert(stack[i] == rest[i]);
        if !finished.contains(parent) {
            let j = choose|j: int| i < j < stack.len() && stack[j].0 == parent;
            if j < rest.len() {
                assert(rest[j].0 == parent);
            }
        }
    }
}

proof fn lemma_walk_skip(
    commits: Commits,
    stack: Seq<(GitCommitId, bool)>,
    active: Set<GitCommitId>,
    finished: Set<GitCommitId>,
    order: Seq<GitCommitId>,
)
    requires
        walk_inv(commits, stack, active, finished, order),
        stack.len() > 0,
        !stack.last().1,
        finished.contains(stack.last().0),
    ensures
        walk_inv(commits, stack.drop_last(), active, finished, order),
{
    let rest = stack.drop_last();
    assert forall|other: GitCommitId| #[trigger] active.contains(other) <==> exists|i: int|
        0 <= i < rest.len() && rest[i] == (other, true) by {
        if active.contains(other) {
            let i = choose|i: int| 0 <= i < stack.len() && stack[i] == (other, true);
            assert(rest[i] == (other, true));
        }
        if exists|i: int| 0 <= i < rest.len() && rest[i] == (other, true) {
            let i = choose|i: int| 0 <= i < rest.len() && rest[i] == (other, true);
            assert(stack[i] == (other, true));
        }
    }
    assert forall|i: int, parent: GitCommitId|
        0 <= i < rest.len() && (#[trigger] rest[i]).1 && #[trigger] parents_of(
            commits,
            rest[i].0,
        ).contains(parent) && commits.dom().contains(parent) implies finished.contains(parent)
        || exists|j: int| i < j < rest.len() && rest[j].0 == parent by {
        assert(stack[i] == rest[i]);
        if !finished.contains(parent) {
            let j = choose|j: int| i < j < stack.len() && stack[j].0 == parent;
            assert(rest[j].0 == parent);
        }
    }
}

proof fn lemma_walk_expand(
    commits: Commits,
    stack: Seq<(GitCommitId, bool)>,
    active: Set<GitCommitId>,
    finished: Set<GitCommitId>,
    order: Seq<GitCommitId>,
    children: Seq<(GitCommitId, bool)>,
)
    requires
        walk_inv(commits, stack, active, finished, order),
        stack.len() > 0,
        !stack.last().1,
        !finished.contains(stack.last().0),
        !active.contains(stack.last().0),
        forall|k: int|
            0 <= k < children.len() ==> !(#[trigger] children[k]).1 && commits.dom().contains(
                children[k].0,
            ) && parents_of(commits, stack.last().0).contains(children[k].0),
        forall|parent: GitCommitId| #[trigger]
            parents_of(commits, stack.last().0).contains(parent) && commits.dom().contains(parent)
                ==> exists|k: int| 0 <= k < children.len() && children[k].0 == parent,
    ensures
        walk_inv(
            commits,
            stack.drop_last().push((stack.last().0, true)) + children,
            active.insert(stack.last().0),
            finished,
            order,
        ),
{
    let id = stack.last().0;
    let base = stack.len() - 1;
    let next = stack.drop_last().push((id, true)) + children;
    assert(stack[base] == (id, false));
    assert forall|i: int| 0 <= i < next.len() implies commits.dom().contains(
        (#[trigger] next[i]).0,
    ) by {
        if i < base {
            assert(next[i] == stack[i]);
        } else if i == base {
            assert(next[i].0 == stack[base].0);
        } else {
            assert(next[i] == children[i - base - 1]);
        }
    }
    assert forall|other: GitCommitId| #[trigger] active.insert(id).contains(other) <==> exists|
        i: int,
    | 0 <= i < next.len() && next[i] == (other, true) by {
        if active.contains(other) {
            let i = choose|i: int| 0 <= i < stack.len() && stack[i] == (other, true);
            assert(next[i] == (other, true));
        }
        assert(next[base] == (id, true));
        if exists|i: int| 0 <= i < next.len() && next[i] == (other, true) {
            let i = choose|i: int| 0 <= i < next.len() && next[i] == (other, true);
            if i < base {
                assert(stack[i] == (other, true));
            } else if i > base {
                assert(next[i] == children[i - base - 1]);
            }
        }
    }
    assert forall|i: int, j: int|
        0 <= i < j < next.len() && (#[trigger] next[i]).1 implies descends(
        commits,
        next[i].0,
        (#[trigger] next[j]).0,
    ) && next[j] != next[i] by {
        if i > base {
            assert(next[i] == children[i - base - 1]);
        } else if j < base {
            assert(next[i] == stack[i] && next[j] == stack[j]);
        } else {
            if i < base {
                assert(next[i] == stack[i]);
                assert(stack[i].1);
                assert(descends(commits, stack[i].0, stack[base].0));
                assert(active.contains(stack[i].0));
            }
            if j > base {
                assert(next[j] == children[j - base - 1]);
                lemma_descends_parent(commits, next[i].0, id, next[j].0);
            }
        }
    }
    assert forall|i: int, parent: GitCommitId|
        0 <= i < next.len() && (#[trigger] next[i]).1 && #[trigger] parents_of(
            commits,
            next[i].0,
        ).contains(parent) && commits.dom().contains(parent) implies finished.contains(parent)
        || exists|j: int| i < j < next.len() && next[j].0 == parent by {
        if i > base {
            assert(next[i] == children[i - base - 1]);
        } else if i == base {
            let k = choose|k: int| 0 <= k < children.len() && children[k].0 == parent;
            assert(next[base + 1 + k] == children[k]);
        } else {
            assert(next[i] == stack[i]);
            if !finished.contains(parent) {
                let j = choose|j: int| i < j < stack.len() && stack[j].0 == parent;
                assert(next[j].0 == parent);
            }
        }
    }
}

/// Pushes the recorded parents of a commit, the first one topmost.
fn push_parents(
    commits: &OrderedMap<GitCommitId, GitCommit>,
    commit: &GitCommit,
    stack: &mut Vec<(GitCommitId, bool)>,
) -> (children: Ghost<Seq<(GitCommitId, bool)>>)
    ensures
        final(stack)@ == old(stack)@ + children@,
        forall|k: int|
            0 <= k < children@.len() ==> !(#[trigger] children@[k]).1 && commits@.dom().contains(
                children@[k].0,
            ) && commit@.parents.contains(children@[k].0),
        forall|parent: GitCommitId| #[trigger]
            commit@.parents.contains(parent) && commits@.dom().contains(parent) ==> exists|k: int|
                0 <= k < children@.len() && children@[k].0 == parent,
{
    let ghost base = stack@;
    let ghost mut children: Seq<(GitCommitId, bool)> = Seq::empty();
    let mut i: usize = commit.parents.len();
    assert(base + children =~= base);
    while i > 0
        invariant
            i <= commit.parents@.len(),
            stack@ == base + children,
            forall|k: int|
                0 <= k < children.len() ==> !(#[trigger] children[k]).1 && commits@.dom().contains(
                    children[k].0,
                ) && commit@.parents.contains(children[k].0),
            forall|m: int|
                i <= m < commit.parents@.len() && commits@.dom().contains(
                    #[trigger] commit.parents@[m],
                ) ==> exists|k: int| 0 <= k < children.len() && children[k].0 == commit.parents@[m],
        decreases i,
    {
        i = i - 1;
        let parent = commit.parents[i];
        let ghost before = children;
        if commits.contains_key(&parent) {
            stack.push((parent, false));
            proof {
                assert(commit@.parents[i as int] == parent);
                children = children.push((parent, false));
                assert(stack@ =~= base + children);
                assert(children[before.len() as int].0 == parent);
            }
        }
        proof {
            assert forall|m: int|
                i <= m < commit.parents@.len() && commits@.dom().contains(
                    #[trigger] commit.parents@[m],
                ) implies exists|k: int|
                0 <= k < children.len() && children[k].0 == commit.parents@[m] by {
                if m > i {
                    let k = choose|k: int|
                        0 <= k < before.len() && before[k].0 == commit.parents@[m];
                    assert(children[k] == before[k]);
                } else {
                    assert(children[before.len() as int].0 == parent);
                }
            }
        }
    }
    proof {
        assert forall|parent: GitCommitId| #[trigger]
            commit@.parents.contains(parent) && commits@.dom().contains(parent) implies exists|
            k: int,
        | 0 <= k < children.len() && children[k].0 == parent by {
            let m = commit@.parents.index_of(parent);
            assert(commit.parents@[m] == parent);
        }
    }
    Ghost(children)
}

/// Checks that no commit is its own ancestor.
pub fn validate_git_commit_graph(commits: &OrderedMap<GitCommitId, GitCommit>) -> (r: bool)
    ensures
        r == !cyclic(commits@),
{
    let count = commits.len();
    let ghost ids = ascending::<GitCommitId>(commits@.dom());
    let mut finished: OrderedSet<GitCommitId> = OrderedSet::new();
    let ghost mut order: Seq<GitCommitId> = Seq::empty();
    let mut next: usize = 0;
    assert(order.to_set() =~= Set::<GitCommitId>::empty());
    while next < count
        invariant
            next <= count,
            count == ids.len(),
            ids == ascending::<GitCommitId>(commits@.dom()),
            enumerates::<GitCommitId>(ids, commits@.dom()),
            finished@ == order.to_set(),
            finished_order(commits@, order),
            forall|id: GitCommitId| #[trigger]
                finished@.contains(id) ==> commits@.dom().contains(id),
            forall|k: int| 0 <= k < next ==> finished@.contains(#[trigger] ids[k]),
        decreases count - next,
    {
        let root = *commits.key_at(next);
        if !finished.contains(&root) {
            let mut active: OrderedSet<GitCommitId> = OrderedSet::new();
            let mut stack: Vec<(GitCommitId, bool)> = Vec::new();
            stack.push((root, false));
            assert(stack@[0].0 == root);
            let ghost earlier = finished@;
            while stack.len() > 0
                invariant
                    commits@.dom().finite(),
                    walk_inv(commits@, stack@, active@, finished@, order),
                    earlier.subset_of(finished@),
                    finished@.contains(root) || exists|i: int|
                        0 <= i < stack@.len() && stack@[i].0 == root,
                decreases
                        commits@.dom().difference(finished@.union(active@)).len(),
                        stack@.len(),
            {
                let ghost before = stack@;
                let ghost was_active = active@;
                let ghost was_finished = finished@;
                let at = stack.len() - 1;
                let (id, expanded) = stack[at];
                stack.truncate(at);
                assert(stack@ =~= before.drop_last());
                assert(before.last() == (id, expanded));
                if expanded {
                    active.remove(&id);
                    finished.insert(id);
                    proof {
                        lemma_walk_finish(commits@, before, was_active, was_finished, order);
                        order = order.push(id);
                        assert(was_active.contains(id)) by {
                            assert(before[before.len() - 1] == (id, true));
                        }
                        assert(finished@.union(active@) =~= was_finished.union(was_active));
                        if !was_finished.contains(root) {
                            let i = choose|i: int| 0 <= i < before.len() && before[i].0 == root;
                            if i < stack@.len() {
                                assert(stack@[i].0 == root);
                            }
                        }
                    }
                } else if finished.contains(&id) {
                    proof {
                        lemma_walk_skip(commits@, before, active@, finished@, order);
                        if !was_finished.contains(root) {
                            let i = choose|i: int| 0 <= i < before.len() && before[i].0 == root;
                            assert(stack@[i].0 == root);
                        }
                    }
                } else if !active.insert(id) {
                    proof {
                        let i = choose|i: int| 0 <= i < before.len() && before[i] == (id, true);
                        assert(before[before.len() - 1] == (id, false));
                        assert(descends(commits@, before[i].0, before[before.len() - 1].0));
                    }
                    return false;
                } else {
                    assert(before[before.len() - 1] == (id, false));
                    stack.push((id, true));
                    let commit = match commits.get(&id) {
                        Some(commit) => commit,
                        None => {
                            assert(false);
                            return false;
                        },
                    };
                    let children = push_parents(commits, commit, &mut stack);
                    proof {
                        lemma_walk_expand(
                            commits@,
                            before,
                            was_active,
                            finished@,
                            order,
                            children@,
                        );
                        let left = commits@.dom().difference(was_finished.union(was_active));
                        let rest = commits@.dom().difference(finished@.union(active@));
                        assert(left.contains(id));
                        assert(rest =~= left.remove(id));
                        vstd::set_lib::lemma_len_subset(left, commits@.dom());
                        if !was_finished.contains(root) {
                            let i = choose|i: int| 0 <= i < before.len() && before[i].0 == root;
                            assert(stack@[i].0 == root);
                        }
                    }
                }
            }
            assert(finished@.contains(root));
        }
        next = next + 1;
    }
    proof {
        assert forall|id: GitCommitId| #[trigger] commits@.dom().contains(
            id,
        ) implies order.contains(id) by {
            let k = lemma_listed::<GitCommitId>(ids, commits@.dom(), id);
            assert(finished@.contains(ids[k]));
            assert(order.to_set().contains(id));
        }
        lemma_order_acyclic(commits@, order);
    }
    true
}

/// Tells whether some commit lists a parent.
fn has_child(commits: &OrderedMap<GitCommitId, GitCommit>, id: GitCommitId) -> (r: bool)
    ensures
        r == exists|child: GitCommitId| #[trigger]
            commits@.dom().contains(child) && commits@[child].parents.contains(id),
{
    let count = commits.len();
    let ghost ids = ascending::<GitCommitId>(commits@.dom());
    let mut i: usize = 0;
    while i < count
        invariant
            i <= count,
            count == ids.len(),
            ids == ascending::<GitCommitId>(commits@.dom()),
            enumerates::<GitCommitId>(ids, commits@.dom()),
            forall|k: int| 0 <= k < i ==> !commits@[#[trigger] ids[k]].parents.contains(id),
        decreases count - i,
    {
        let commit = commits.value_at(i);
        let ghost child = ids[i as int];
        assert(commits@.dom().contains(child));
        let mut j: usize = 0;
        while j < commit.parents.len()
            invariant
                j <= commit.parents@.len(),
                commits@.dom().contains(child),
                commit@ == commits@[child],
                forall|k: int| 0 <= k < j ==> commit.parents@[k] != id,
            decreases commit.parents@.len() - j,
        {
            if commit.parents[j] == id {
                assert(commits@[child].parents[j as int] == id);
                return true;
            }
            j = j + 1;
        }
        i = i + 1;
    }
    proof {
        assert forall|child: GitCommitId| #[trigger] commits@.dom().contains(
            child,
        ) implies !commits@[child].parents.contains(id) by {
            let k = lemma_listed::<GitCommitId>(ids, commits@.dom(), child);
            assert(ids[k] == child);
        }
    }
    false
}

fn validate_external_parents(state: &GitCompatState) -> (r: bool)
    ensures
        r == forall|id: GitCommitId| #[trigger]
            state@.external_parents.contains(id) ==> external_valid(state@, id),
{
    let count = state.external_parents.len();
    let ghost ids = ascending::<GitCommitId>(state@.external_parents);
    let mut i: usize = 0;
    while i < count
        invariant
            i <= count,
            count == ids.len(),
            ids == ascending::<GitCommitId>(state@.external_parents),
            enumerates::<GitCommitId>(ids, state@.external_parents),
            forall|k: int| 0 <= k < i ==> external_valid(state@, #[trigger] ids[k]),
        decreases count - i,
    {
        let id = *state.external_parents.at(i);
        if state.commits.contains_key(&id) || !has_child(&state.commits, id) {
            assert(state@.external_parents.contains(id) && !external_valid(state@, id));
            return false;
        }
        i = i + 1;
    }
    proof {
        assert forall|id: GitCommitId| #[trigger] state@.external_parents.contains(
            id,
        ) implies external_valid(state@, id) by {
            let k = lemma_listed::<GitCommitId>(ids, state@.external_parents, id);
            assert(ids[k] == id);
        }
    }
    true
}

fn validate_tags(state: &GitCompatState) -> (r: bool)
    ensures
        r == forall|name: Seq<char>| #[trigger]
            state@.tags.dom().contains(name) ==> state@.commits.dom().contains(state@.tags[name]),
{
    let count = state.tags.len();
    let ghost names = ascending::<String>(state@.tags.dom());
    let mut i: usize = 0;
    while i < count
        invariant
            i <= count,
            count == names.len(),
            names == ascending::<String>(state@.tags.dom()),
            enumerates::<String>(names, state@.tags.dom()),
            forall|k: int|
                0 <= k < i ==> state@.commits.dom().contains(state@.tags[#[trigger] names[k]]),
        decreases count - i,
    {
        if !state.commits.contains_key(state.tags.value_at(i)) {
            assert(state@.tags.dom().contains(names[i as int]));
            return false;
        }
        i = i + 1;
    }
    proof {
        assert forall|name: Seq<char>| #[trigger] state@.tags.dom().contains(
            name,
        ) implies state@.commits.dom().contains(state@.tags[name]) by {
            let k = lemma_listed::<String>(names, state@.tags.dom(), name);
            assert(names[k] == name);
        }
    }
    true
}

fn recorded(commits: &OrderedMap<GitCommitId, GitCommit>, head: Option<GitCommitId>) -> (r: bool)
    ensures
        r == head_recorded(commits@, head),
{
    match head {
        Some(id) => commits.contains_key(&id),
        None => true,
    }
}

fn validate_session(commits: &OrderedMap<GitCommitId, GitCommit>, session: &GitBisectState) -> (r:
    bool)
    ensures
        r == session_valid(commits@, session@),
{
    if !commits.contains_key(&session.original_head) || !commits.contains_key(&session.bad)
        || !recorded(commits, session.good) || !recorded(commits, session.current) {
        return false;
    }
    let count = session.skipped.len();
    let ghost ids = ascending::<GitCommitId>(session@.skipped);
    let mut i: usize = 0;
    while i < count
        invariant
            i <= count,
            count == ids.len(),
            ids == ascending::<GitCommitId>(session@.skipped),
            enumerates::<GitCommitId>(ids, session@.skipped),
            forall|k: int| 0 <= k < i ==> commits@.dom().contains(#[trigger] ids[k]),
        decreases count - i,
    {
        if !commits.contains_key(session.skipped.at(i)) {
            assert(session@.skipped.contains(ids[i as int]));
            return false;
        }
        i = i + 1;
    }
    proof {
        assert forall|id: GitCommitId| session@.skipped.contains(
            id,
        ) implies commits@.dom().contains(id) by {
            let k = lemma_listed::<GitCommitId>(ids, session@.skipped, id);
            assert(commits@.dom().contains(ids[k]));
        }
    }
    true
}

fn validate_pending(state: &GitCompatState, mutation: &GitPendingMutation) -> (r: bool)
    ensures
        r == mutation_valid(state@, mutation@),
{
    match mutation {
        GitPendingMutation::CaptureCommit { workspace_tree, expected_head, .. } => {
            let owned = match state.current() {
                Ok(branch) => workspace_tree.workspace_id() == branch.workspace_id,
                Err(_) => false,
            };
            owned && recorded(&state.commits, *expected_head)
        },
        GitPendingMutation::ForkBranch { branch, head, .. } => !branch.as_str().is_empty()
            && !state.branches.contains_key(branch) && recorded(&state.commits, *head),
        GitPendingMutation::Switch { branch } => state.branches.contains_key(branch),
        GitPendingMutation::Reset { head } => state.commits.contains_key(head),
        GitPendingMutation::ApplyCommit { commit, .. } => state.commits.contains_key(commit),
        GitPendingMutation::Join { source_head, .. } => match source_head {
            Some(id) => state.commits.contains_key(id) || state.external_parents.contains(id),
            None => true,
        },
        GitPendingMutation::NoOp => true,
        GitPendingMutation::StashPush { .. } => true,
        GitPendingMutation::StashPop { .. } => true,
        GitPendingMutation::Bisect { .. } => true,
    }
}

/// Checks that every reference of a state leads to something known.
fn validate_git_references(state: &GitCompatState, workspaces: &OrderedSet<WorkspaceId>) -> (r:
    bool)
    requires
        forall|workspace: WorkspaceId| #[trigger]
            workspaces@.contains(workspace) <==> workspace_known(state@, workspace),
    ensures
        r == references_valid(state@),
{
    if !validate_external_parents(state) || !validate_tags(state) {
        return false;
    }
    let mut i: usize = 0;
    while i < state.reflog.len()
        invariant
            i <= state.reflog@.len(),
            forall|k: int| 0 <= k < i ==> head_recorded(state@.commits, #[trigger] state.reflog@[k]),
        decreases state.reflog@.len() - i,
    {
        if !recorded(&state.commits, state.reflog[i]) {
            assert(!head_recorded(state@.commits, state@.reflog[i as int]));
            return false;
        }
        i = i + 1;
    }
    let mut j: usize = 0;
    while j < state.stash.len()
        invariant
            j <= state.stash@.len(),
            forall|workspace: WorkspaceId| #[trigger]
                workspaces@.contains(workspace) <==> workspace_known(state@, workspace),
            forall|k: int|
                0 <= k < j ==> workspace_known(state@, (#[trigger] state.stash@[k]).owner()),
        decreases state.stash@.len() - j,
    {
        if !workspaces.contains(&state.stash[j].workspace_id()) {
            assert(!workspace_known(state@, state@.stash[j as int].owner()));
            return false;
        }
        j = j + 1;
    }
    if let Some(session) = &state.bisect {
        if !validate_session(&state.commits, session) {
            return false;
        }
    }
    match &state.pending {
        Some(pending) => validate_pending(state, &pending.mutation),
        None => true,
    }
}

/// Checks the consistency of a state.
pub fn validate_git_state(state: &GitCompatState) -> (r: Result<(), ()>)
    ensures
        r is Ok == state_valid(state@),
{
    if state.version != STATE_VERSION || state.branches.is_empty() || !state.branches.contains_key(
        &state.current_branch,
    ) || !state.legacy_tracked_paths.is_empty() {
        proof {
            if state_valid(state@) {
                assert(state@.branches.dom().contains(state@.current_branch));
                assert(Map::<Seq<char>, BranchView>::empty().dom() =~= Set::empty());
            }
        }
        return Err(());
    }
    if !validate_git_branches(state) {
        return Err(());
    }
    let workspaces = known_workspaces(state);
    if validate_git_commits(state, &workspaces) && validate_git_commit_graph(&state.commits)
        && validate_git_references(state, &workspaces) {
        Ok(())
    } else {
        Err(())
    }
}

} // verus!
