//! Nearest common ancestors.

use super::history::Commits;
use super::types::{GitCommit, GitCommitId};
use crate::order::{
    ascending, bytes_lt, enumerates, lemma_bytes_lt_irreflexive, lemma_to_set_push, OrderKey,
    OrderedMap,
};
use vstd::prelude::*;

verus! {

/// Parents that the record of a commit lists.
pub open spec fn parents_of(commits: Commits, id: GitCommitId) -> Seq<GitCommitId> {
    if commits.dom().contains(id) {
        commits[id].parents
    } else {
        Seq::empty()
    }
}

/// Commits reached from `start` by exactly `steps` parent links.
pub open spec fn reached(commits: Commits, start: GitCommitId, steps: nat) -> Set<GitCommitId>
    decreases steps,
{
    if steps == 0 {
        set![start]
    } else {
        Set::new(
            |id: GitCommitId|
                exists|child: GitCommitId| #[trigger]
                    reached(commits, start, (steps - 1) as nat).contains(child) && parents_of(
                        commits,
                        child,
                    ).contains(id),
        )
    }
}

/// Whether `steps` parent links lead to a commit and no fewer do.
pub open spec fn distance_is(
    commits: Commits,
    start: GitCommitId,
    id: GitCommitId,
    steps: nat,
) -> bool {
    &&& reached(commits, start, steps).contains(id)
    &&& forall|fewer: nat| fewer < steps ==> !#[trigger] reached(commits, start, fewer).contains(id)
}

/// Whether a commit is an ancestor of `start`, or `start` itself.
pub open spec fn is_ancestor(commits: Commits, start: GitCommitId, id: GitCommitId) -> bool {
    exists|steps: nat| #[trigger] reached(commits, start, steps).contains(id)
}

/// Length of the shortest chain of parent links to an ancestor.
pub open spec fn distance(commits: Commits, start: GitCommitId, id: GitCommitId) -> nat {
    choose|steps: nat| distance_is(commits, start, id, steps)
}

proof fn lemma_shortest_exists(commits: Commits, start: GitCommitId, id: GitCommitId, steps: nat)
    requires
        reached(commits, start, steps).contains(id),
    ensures
        exists|d: nat| d <= steps && #[trigger] distance_is(commits, start, id, d),
    decreases steps,
{
    if distance_is(commits, start, id, steps) {
    } else {
        let fewer = choose|fewer: nat|
            fewer < steps && #[trigger] reached(commits, start, fewer).contains(id);
        lemma_shortest_exists(commits, start, id, fewer);
    }
}

proof fn lemma_distance_unique(
    commits: Commits,
    start: GitCommitId,
    id: GitCommitId,
    a: nat,
    b: nat,
)
    requires
        distance_is(commits, start, id, a),
        distance_is(commits, start, id, b),
    ensures
        a == b,
{
}

proof fn lemma_distance(commits: Commits, start: GitCommitId, id: GitCommitId, d: nat)
    requires
        distance_is(commits, start, id, d),
    ensures
        distance(commits, start, id) == d,
        is_ancestor(commits, start, id),
{
    lemma_distance_unique(commits, start, id, d, distance(commits, start, id));
}

/// Known distances are exact, and complete up to `depth`.
spec fn explored(
    commits: Commits,
    start: GitCommitId,
    known: Map<GitCommitId, u64>,
    depth: nat,
) -> bool {
    &&& forall|id: GitCommitId| #[trigger]
        known.dom().contains(id) ==> distance_is(commits, start, id, known[id] as nat)
            && known[id] <= depth
    &&& forall|id: GitCommitId, steps: nat|
        steps <= depth && #[trigger] reached(commits, start, steps).contains(id)
            ==> known.dom().contains(id)
}

/// Recorded commits at distance exactly `depth`.
spec fn is_frontier(
    commits: Commits,
    start: GitCommitId,
    frontier: Seq<GitCommitId>,
    depth: nat,
) -> bool {
    forall|id: GitCommitId| #[trigger]
        frontier.contains(id) <==> commits.dom().contains(id) && distance_is(
            commits,
            start,
            id,
            depth,
        )
}

proof fn lemma_next_level(
    commits: Commits,
    start: GitCommitId,
    frontier: Seq<GitCommitId>,
    depth: nat,
    id: GitCommitId,
)
    requires
        is_frontier(commits, start, frontier, depth),
        reached(commits, start, depth + 1).contains(id),
        forall|steps: nat|
            steps <= depth ==> !#[trigger] reached(commits, start, steps).contains(id),
    ensures
        exists|child: GitCommitId| #[trigger]
            frontier.contains(child) && parents_of(commits, child).contains(id),
{
    let child = choose|child: GitCommitId| #[trigger]
        reached(commits, start, depth).contains(child) && parents_of(commits, child).contains(id);
    lemma_shortest_exists(commits, start, child, depth);
    let d = choose|d: nat| d <= depth && #[trigger] distance_is(commits, start, child, d);
    if d < depth {
        assert(reached(commits, start, d + 1).contains(id));
    }
    assert(frontier.contains(child));
}

proof fn lemma_explored_all(
    commits: Commits,
    start: GitCommitId,
    known: Map<GitCommitId, u64>,
    depth: nat,
    id: GitCommitId,
    steps: nat,
)
    requires
        explored(commits, start, known, depth),
        is_frontier(commits, start, Seq::empty(), depth),
        reached(commits, start, steps).contains(id),
    ensures
        known.dom().contains(id),
    decreases steps,
{
    if steps > depth {
        let child = choose|child: GitCommitId| #[trigger]
            reached(commits, start, (steps - 1) as nat).contains(child) && parents_of(
                commits,
                child,
            ).contains(id);
        lemma_explored_all(commits, start, known, depth, child, (steps - 1) as nat);
        let d = known[child] as nat;
        assert(distance_is(commits, start, child, d));
        if d < depth {
            assert(reached(commits, start, d + 1).contains(id));
        } else {
            assert(commits.dom().contains(child));
            assert(Seq::<GitCommitId>::empty().contains(child));
        }
    }
}

/// Finds the distance of every ancestor of `start`.
fn distances(commits: &OrderedMap<GitCommitId, GitCommit>, start: GitCommitId) -> (known:
    OrderedMap<GitCommitId, u64>)
    ensures
        forall|id: GitCommitId| #[trigger]
            known@.dom().contains(id) <==> is_ancestor(commits@, start, id),
        forall|id: GitCommitId| #[trigger]
            known@.dom().contains(id) ==> known@[id] == distance(commits@, start, id),
{
    let total = commits.len();
    let mut known: OrderedMap<GitCommitId, u64> = OrderedMap::new();
    known.insert(start, 0);
    let mut frontier: Vec<GitCommitId> = Vec::new();
    if commits.contains_key(&start) {
        frontier.push(start);
    }
    let mut depth: u64 = 0;
    proof {
        assert(reached(commits@, start, 0) =~= set![start]);
        assert(explored(commits@, start, known@, 0)) by {
            assert forall|id: GitCommitId, steps: nat|
                steps <= 0 && #[trigger] reached(commits@, start, steps).contains(
                    id,
                ) implies known@.dom().contains(id) by {}
        }
        if commits@.dom().contains(start) {
            assert(commits@.dom().difference(known@.dom()) =~= commits@.dom().remove(start));
        }
        assert forall|id: GitCommitId| #[trigger] frontier@.contains(id) <==> commits@.dom().contains(
            id,
        ) && distance_is(commits@, start, id, 0) by {
            if commits@.dom().contains(start) {
                assert(frontier@[0] == start);
            }
        }
    }
    while frontier.len() > 0
        invariant
            commits@.dom().finite(),
            total == commits@.dom().len(),
            explored(commits@, start, known@, depth as nat),
            is_frontier(commits@, start, frontier@, depth as nat),
            frontier@.len() > 0 ==> depth + commits@.dom().difference(known@.dom()).len() < total,
        decreases commits@.dom().difference(known@.dom()).len(), frontier@.len(),
    {
        let ghost before = known@;
        let mut next: Vec<GitCommitId> = Vec::new();
        let mut i: usize = 0;
        let ghost deeper = (depth + 1) as nat;
        while i < frontier.len()
            invariant
                i <= frontier@.len(),
                depth < total,
                deeper == depth + 1,
                explored(commits@, start, before, depth as nat),
                is_frontier(commits@, start, frontier@, depth as nat),
                before.submap_of(known@),
                forall|id: GitCommitId| #[trigger]
                    known@.dom().contains(id) && !before.dom().contains(id) ==> known@[id] == deeper
                        && distance_is(commits@, start, id, deeper),
                forall|k: int, id: GitCommitId|
                    0 <= k < i && #[trigger] parents_of(commits@, frontier@[k]).contains(id)
                        ==> known@.dom().contains(id),
                forall|id: GitCommitId| #[trigger]
                    next@.contains(id) <==> known@.dom().contains(id) && !before.dom().contains(id)
                        && commits@.dom().contains(id),
            decreases frontier@.len() - i,
        {
            let child = frontier[i];
            assert(frontier@.contains(child));
            if let Some(commit) = commits.get(&child) {
                let mut j: usize = 0;
                while j < commit.parents.len()
                    invariant
                        j <= commit.parents@.len(),
                        i < frontier@.len(),
                        depth < total,
                        deeper == depth + 1,
                        child == frontier@[i as int],
                        frontier@.contains(child),
                        commits@.dom().contains(child),
                        commit@ == commits@[child],
                        explored(commits@, start, before, depth as nat),
                        is_frontier(commits@, start, frontier@, depth as nat),
                        before.submap_of(known@),
                        forall|id: GitCommitId| #[trigger]
                            known@.dom().contains(id) && !before.dom().contains(id) ==> known@[id]
                                == deeper && distance_is(commits@, start, id, deeper),
                        forall|k: int, id: GitCommitId|
                            0 <= k < i && #[trigger] parents_of(commits@, frontier@[k]).contains(id)
                                ==> known@.dom().contains(id),
                        forall|k: int|
                            0 <= k < j ==> known@.dom().contains(#[trigger] commit.parents@[k]),
                        forall|id: GitCommitId| #[trigger]
                            next@.contains(id) <==> known@.dom().contains(id)
                                && !before.dom().contains(id) && commits@.dom().contains(id),
                    decreases commit.parents@.len() - j,
                {
                    let parent = commit.parents[j];
                    if !known.contains_key(&parent) {
                        proof {
                            assert(parents_of(commits@, child).contains(parent));
                            assert(reached(commits@, start, depth as nat).contains(child));
                            assert(reached(commits@, start, deeper).contains(parent));
                            assert forall|fewer: nat| fewer < deeper implies !#[trigger] reached(
                                commits@,
                                start,
                                fewer,
                            ).contains(parent) by {
                                if reached(commits@, start, fewer).contains(parent) {
                                    assert(before.dom().contains(parent));
                                }
                            }
                            assert(distance_is(commits@, start, parent, deeper));
                        }
                        let ghost listed = next@;
                        known.insert(parent, depth + 1);
                        if commits.contains_key(&parent) {
                            next.push(parent);
                            assert forall|id: GitCommitId| #[trigger] next@.contains(id) <==> (
                            listed.contains(id) || id == parent) by {
                                lemma_to_set_push(listed, parent);
                                assert(next@.to_set().contains(id) <==> next@.contains(id));
                                assert(listed.to_set().contains(id) <==> listed.contains(id));
                            }
                        }
                    }
                    j = j + 1;
                }
                proof {
                    assert forall|k: int, id: GitCommitId|
                        0 <= k < i + 1 && #[trigger] parents_of(commits@, frontier@[k]).contains(
                            id,
                        ) implies known@.dom().contains(id) by {
                        if k == i {
                            let m = commit.parents@.index_of(id);
                            assert(commit.parents@[m] == id);
                        }
                    }
                }
            }
            i = i + 1;
        }
        proof {
            assert forall|id: GitCommitId, steps: nat|
                steps <= deeper && #[trigger] reached(commits@, start, steps).contains(
                    id,
                ) implies known@.dom().contains(id) by {
                if before.dom().contains(id) {
                    assert(known@.dom().contains(id));
                } else {
                    assert(steps == deeper);
                    assert forall|fewer: nat| fewer <= depth implies !#[trigger] reached(
                        commits@,
                        start,
                        fewer,
                    ).contains(id) by {}
                    lemma_next_level(commits@, start, frontier@, depth as nat, id);
                    let child = choose|child: GitCommitId| #[trigger]
                        frontier@.contains(child) && parents_of(commits@, child).contains(id);
                    let k = frontier@.index_of(child);
                    assert(parents_of(commits@, frontier@[k]).contains(id));
                }
            }
            assert(explored(commits@, start, known@, deeper)) by {
                assert forall|id: GitCommitId| #[trigger] known@.dom().contains(
                    id,
                ) implies distance_is(commits@, start, id, known@[id] as nat) && known@[id]
                    <= deeper by {
                    if before.dom().contains(id) {
                        assert(known@[id] == before[id]);
                    }
                }
            }
            assert forall|id: GitCommitId| #[trigger] next@.contains(id) <==> commits@.dom().contains(
                id,
            ) && distance_is(commits@, start, id, deeper) by {
                if commits@.dom().contains(id) && distance_is(commits@, start, id, deeper) {
                    assert(known@.dom().contains(id));
                    if before.dom().contains(id) {
                        lemma_distance_unique(commits@, start, id, deeper, before[id] as nat);
                    }
                }
            }
            let left = commits@.dom().difference(before.dom());
            let rest = commits@.dom().difference(known@.dom());
            assert(rest.subset_of(left));
            vstd::set_lib::lemma_len_subset(rest, left);
            if next@.len() > 0 {
                let id = next@[0];
                assert(next@.contains(id));
                assert(left.contains(id) && !rest.contains(id));
                assert(rest.subset_of(left.remove(id)));
                vstd::set_lib::lemma_len_subset(rest, left.remove(id));
            }
        }
        frontier = next;
        depth = depth + 1;
    }
    proof {
        assert(frontier@ =~= Seq::<GitCommitId>::empty());
        assert forall|id: GitCommitId| #[trigger] known@.dom().contains(id) <==> is_ancestor(
            commits@,
            start,
            id,
        ) by {
            if known@.dom().contains(id) {
                lemma_distance(commits@, start, id, known@[id] as nat);
            }
            if is_ancestor(commits@, start, id) {
                let steps = choose|steps: nat| #[trigger]
                    reached(commits@, start, steps).contains(id);
                lemma_explored_all(commits@, start, known@, depth as nat, id, steps);
            }
        }
        assert forall|id: GitCommitId| #[trigger] known@.dom().contains(id) implies known@[id]
            == distance(commits@, start, id) by {
            lemma_distance(commits@, start, id, known@[id] as nat);
        }
    }
    known
}

/// Whether `a` is a better merge base than `b`: a shorter total distance, then
/// a shorter left distance, then a smaller identity.
pub open spec fn nearer(
    commits: Commits,
    left: GitCommitId,
    right: GitCommitId,
    a: GitCommitId,
    b: GitCommitId,
) -> bool {
    let total_a = distance(commits, left, a) + distance(commits, right, a);
    let total_b = distance(commits, left, b) + distance(commits, right, b);
    ||| total_a < total_b
    ||| total_a == total_b && distance(commits, left, a) < distance(commits, left, b)
    ||| total_a == total_b && distance(commits, left, a) == distance(commits, left, b) && bytes_lt(
        a.bytes@,
        b.bytes@,
    )
}

/// Whether a commit is an ancestor of both sides.
pub open spec fn is_common(
    commits: Commits,
    left: GitCommitId,
    right: GitCommitId,
    id: GitCommitId,
) -> bool {
    is_ancestor(commits, left, id) && is_ancestor(commits, right, id)
}

/// Whether a commit is the nearest common ancestor.
pub open spec fn is_merge_base(
    commits: Commits,
    left: GitCommitId,
    right: GitCommitId,
    id: GitCommitId,
) -> bool {
    &&& is_common(commits, left, right, id)
    &&& forall|other: GitCommitId| #[trigger]
        is_common(commits, left, right, other) && other != id ==> nearer(
            commits,
            left,
            right,
            id,
            other,
        )
}

/// The nearest common ancestor.
pub open spec fn merge_base(commits: Commits, left: GitCommitId, right: GitCommitId) -> Option<
    GitCommitId,
> {
    if exists|id: GitCommitId| is_merge_base(commits, left, right, id) {
        Some(choose|id: GitCommitId| is_merge_base(commits, left, right, id))
    } else {
        None
    }
}

/// There is one nearest common ancestor.
pub proof fn lemma_merge_base_unique(
    commits: Commits,
    left: GitCommitId,
    right: GitCommitId,
    a: GitCommitId,
    b: GitCommitId,
)
    requires
        is_merge_base(commits, left, right, a),
        is_merge_base(commits, left, right, b),
    ensures
        a == b,
{
    if a != b {
        assert(nearer(commits, left, right, a, b));
        assert(nearer(commits, left, right, b, a));
        if bytes_lt(a.bytes@, b.bytes@) && bytes_lt(b.bytes@, a.bytes@) {
            crate::order::lemma_bytes_lt_transitive(a.bytes@, b.bytes@, a.bytes@);
            lemma_bytes_lt_irreflexive(a.bytes@);
        }
    }
}

/// Finds the nearest common ancestor.
pub fn nearest_common_ancestor(
    commits: &OrderedMap<GitCommitId, GitCommit>,
    left: GitCommitId,
    right: GitCommitId,
) -> (r: Option<GitCommitId>)
    ensures
        r == merge_base(commits@, left, right),
        r is None ==> forall|id: GitCommitId| !is_common(commits@, left, right, id),
{
    let from_left = distances(commits, left);
    let from_right = distances(commits, right);
    let count = from_left.len();
    let ghost ids = ascending::<GitCommitId>(from_left@.dom());
    let mut best: Option<(GitCommitId, u128, u64)> = None;
    let mut i: usize = 0;
    while i < count
        invariant
            i <= count,
            count == ids.len(),
            ids == ascending::<GitCommitId>(from_left@.dom()),
            enumerates::<GitCommitId>(ids, from_left@.dom()),
            forall|id: GitCommitId| #[trigger]
                from_left@.dom().contains(id) <==> is_ancestor(commits@, left, id),
            forall|id: GitCommitId| #[trigger]
                from_left@.dom().contains(id) ==> from_left@[id] == distance(commits@, left, id),
            forall|id: GitCommitId| #[trigger]
                from_right@.dom().contains(id) <==> is_ancestor(commits@, right, id),
            forall|id: GitCommitId| #[trigger]
                from_right@.dom().contains(id) ==> from_right@[id] == distance(commits@, right, id),
            best is None ==> forall|k: int|
                0 <= k < i ==> !is_common(commits@, left, right, #[trigger] ids[k]),
            best matches Some((id, total, near)) ==> {
                &&& is_common(commits@, left, right, id)
                &&& total == distance(commits@, left, id) + distance(commits@, right, id)
                &&& near == distance(commits@, left, id)
                &&& exists|k: int| 0 <= k < i && ids[k] == id
                &&& forall|k: int|
                    0 <= k < i && is_common(commits@, left, right, #[trigger] ids[k]) && ids[k]
                        != id ==> nearer(commits@, left, right, id, ids[k])
            },
        decreases count - i,
    {
        let id = *from_left.key_at(i);
        let near = *from_left.value_at(i);
        let ghost earlier = best;
        if let Some(far) = from_right.get(&id) {
            let total: u128 = near as u128 + *far as u128;
            let better = match best {
                None => true,
                Some((_, best_total, best_near)) => total < best_total || (total == best_total
                    && near < best_near),
            };
            proof {
                assert(is_common(commits@, left, right, id));
                if let Some((held, held_total, held_near)) = earlier {
                    let k = choose|k: int| 0 <= k < i && ids[k] == held;
                    assert(bytes_lt(
                        GitCommitId::order_bytes(ids[k]),
                        GitCommitId::order_bytes(ids[i as int]),
                    ));
                    if better {
                        assert forall|m: int|
                            0 <= m < i && is_common(commits@, left, right, #[trigger] ids[m])
                                && ids[m] != id implies nearer(
                            commits@,
                            left,
                            right,
                            id,
                            ids[m],
                        ) by {
                            if ids[m] != held {
                                assert(nearer(commits@, left, right, held, ids[m]));
                            }
                        }
                    } else {
                        assert(nearer(commits@, left, right, held, id));
                    }
                }
            }
            if better {
                best = Some((id, total, near));
            }
        } else {
            assert(!is_common(commits@, left, right, id));
        }
        assert(ids[i as int] == id);
        i = i + 1;
    }
    proof {
        assert forall|id: GitCommitId| is_common(commits@, left, right, id) implies exists|k: int|
            0 <= k < count && ids[k] == id by {
            assert(from_left@.dom().contains(id));
            assert(ids.to_set().contains(id));
            let k = ids.index_of(id);
            assert(ids[k] == id);
        }
        match best {
            Some((id, total, near)) => {
                assert forall|other: GitCommitId| #[trigger] is_common(
                    commits@,
                    left,
                    right,
                    other,
                ) && other != id implies nearer(commits@, left, right, id, other) by {
                    let k = choose|k: int| 0 <= k < count && ids[k] == other;
                    assert(is_common(commits@, left, right, ids[k]));
                }
                assert(is_merge_base(commits@, left, right, id));
                lemma_merge_base_unique(
                    commits@,
                    left,
                    right,
                    id,
                    choose|id: GitCommitId| is_merge_base(commits@, left, right, id),
                );
            },
            None => {
                assert forall|id: GitCommitId| !is_common(commits@, left, right, id) by {
                    if is_common(commits@, left, right, id) {
                        let k = choose|k: int| 0 <= k < count && ids[k] == id;
                        assert(is_common(commits@, left, right, ids[k]));
                    }
                }
            },
        }
    }
    match best {
        Some((id, _, _)) => Some(id),
        None => None,
    }
}

} // verus!
