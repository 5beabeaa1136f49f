//! What the identity of a commit covers.

use super::commit::{commit_preimage, framed, identity_bytes, path_frames, tree_bytes};
use super::types::{CommitView, GitCommitId, GitTreeRef};
use crate::order::ascending;
use vstd::bytes::{lemma_auto_spec_u64_to_from_le_bytes, spec_u64_to_le_bytes};
use vstd::prelude::*;
use vstd::string::*;
use vstd::utf8::{encode_utf8, encode_utf8_decode_utf8};

verus! {

/// Whether two trees are the same as far as a commit names them: authored ones by their
/// workspace and generation, snapshots by their identity.
pub open spec fn same_tree(a: GitTreeRef, b: GitTreeRef) -> bool {
    match (a, b) {
        (GitTreeRef::Exact(x), GitTreeRef::Exact(y)) => x.workspace_id.bytes@
            == y.workspace_id.bytes@ && x.generation.digest.bytes@ == y.generation.digest.bytes@,
        (GitTreeRef::Lazy(x), GitTreeRef::Lazy(y)) => x.id.digest.bytes@ == y.id.digest.bytes@,
        _ => false,
    }
}

/// Whether texts can be framed: their lengths can be counted.
pub open spec fn countable(commit: CommitView) -> bool {
    let paths = ascending::<String>(commit.tracked_paths);
    &&& paths.to_set() == commit.tracked_paths
    &&& paths.len() <= u64::MAX
    &&& forall|i: int| 0 <= i < paths.len() ==> encode_utf8(#[trigger] paths[i]).len() <= u64::MAX
    &&& commit.parents.len() <= u64::MAX
    &&& encode_utf8(commit.author).len() <= u64::MAX
    &&& encode_utf8(commit.message).len() <= u64::MAX
}

proof fn lemma_fronts(a: Seq<u8>, b: Seq<u8>, r: Seq<u8>, s: Seq<u8>)
    requires
        a + r == b + s,
        a.len() == b.len(),
    ensures
        a == b,
        r == s,
{
    assert((a + r).take(a.len() as int) =~= a);
    assert((b + s).take(b.len() as int) =~= b);
    assert((a + r).skip(a.len() as int) =~= r);
    assert((b + s).skip(b.len() as int) =~= s);
}

proof fn lemma_counts(a: u64, b: u64, r: Seq<u8>, s: Seq<u8>)
    requires
        spec_u64_to_le_bytes(a) + r == spec_u64_to_le_bytes(b) + s,
    ensures
        a == b,
        r == s,
{
    lemma_auto_spec_u64_to_from_le_bytes();
    lemma_fronts(spec_u64_to_le_bytes(a), spec_u64_to_le_bytes(b), r, s);
}

proof fn lemma_frames(a: Seq<u8>, b: Seq<u8>, r: Seq<u8>, s: Seq<u8>)
    requires
        framed(a) + r == framed(b) + s,
        a.len() <= u64::MAX,
        b.len() <= u64::MAX,
    ensures
        a == b,
        r == s,
{
    let x = spec_u64_to_le_bytes(a.len() as u64);
    let y = spec_u64_to_le_bytes(b.len() as u64);
    assert(framed(a) + r =~= x + (a + r));
    assert(framed(b) + s =~= y + (b + s));
    lemma_counts(a.len() as u64, b.len() as u64, a + r, b + s);
    lemma_fronts(a, b, r, s);
}

proof fn lemma_texts(a: Seq<char>, b: Seq<char>)
    requires
        encode_utf8(a) == encode_utf8(b),
    ensures
        a == b,
{
    encode_utf8_decode_utf8(a);
    encode_utf8_decode_utf8(b);
}

proof fn lemma_trees(a: GitTreeRef, b: GitTreeRef, r: Seq<u8>, s: Seq<u8>)
    requires
        tree_bytes(a) + r == tree_bytes(b) + s,
    ensures
        same_tree(a, b),
        r == s,
{
    let left = tree_bytes(a) + r;
    let right = tree_bytes(b) + s;
    assert(left[0] == tree_bytes(a)[0]);
    assert(right[0] == tree_bytes(b)[0]);
    match (a, b) {
        (GitTreeRef::Exact(x), GitTreeRef::Exact(y)) => {
            lemma_fronts(tree_bytes(a), tree_bytes(b), r, s);
            let p = seq![0u8] + x.workspace_id.bytes@;
            let q = seq![0u8] + y.workspace_id.bytes@;
            lemma_fronts(p, q, x.generation.digest.bytes@, y.generation.digest.bytes@);
            lemma_fronts(seq![0u8], seq![0u8], x.workspace_id.bytes@, y.workspace_id.bytes@);
        },
        (GitTreeRef::Lazy(x), GitTreeRef::Lazy(y)) => {
            lemma_fronts(tree_bytes(a), tree_bytes(b), r, s);
            lemma_fronts(seq![1u8], seq![1u8], x.id.digest.bytes@, y.id.digest.bytes@);
        },
        (GitTreeRef::Exact(x), GitTreeRef::Lazy(y)) => {
            assert(left[0] == 0);
            assert(right[0] == 1);
        },
        (GitTreeRef::Lazy(x), GitTreeRef::Exact(y)) => {
            assert(left[0] == 1);
            assert(right[0] == 0);
        },
    }
}

proof fn lemma_first_path(paths: Seq<Seq<char>>)
    requires
        paths.len() > 0,
    ensures
        path_frames(paths) == framed(encode_utf8(paths[0])) + path_frames(paths.skip(1)),
    decreases paths.len(),
{
    let front = paths.drop_last();
    let rest = paths.skip(1);
    let first = framed(encode_utf8(paths[0]));
    if paths.len() == 1 {
        assert(front =~= Seq::empty());
        assert(rest =~= Seq::empty());
        assert(path_frames(front) + first =~= first + path_frames(rest));
    } else {
        lemma_first_path(front);
        assert(front.skip(1) =~= rest.drop_last());
        assert(rest.last() == paths.last());
        let last = framed(encode_utf8(paths.last()));
        assert(first + path_frames(front.skip(1)) + last =~= first + (path_frames(front.skip(1))
            + last));
    }
}

proof fn lemma_paths(a: Seq<Seq<char>>, b: Seq<Seq<char>>, r: Seq<u8>, s: Seq<u8>)
    requires
        a.len() == b.len(),
        path_frames(a) + r == path_frames(b) + s,
        forall|i: int| 0 <= i < a.len() ==> encode_utf8(#[trigger] a[i]).len() <= u64::MAX,
        forall|i: int| 0 <= i < b.len() ==> encode_utf8(#[trigger] b[i]).len() <= u64::MAX,
    ensures
        a == b,
        r == s,
    decreases a.len(),
{
    if a.len() == 0 {
        assert(path_frames(a) + r =~= r);
        assert(path_frames(b) + s =~= s);
        assert(a =~= b);
    } else {
        lemma_first_path(a);
        lemma_first_path(b);
        let (x, y) = (encode_utf8(a[0]), encode_utf8(b[0]));
        let (more, other) = (path_frames(a.skip(1)), path_frames(b.skip(1)));
        assert(path_frames(a) + r =~= framed(x) + (more + r));
        assert(path_frames(b) + s =~= framed(y) + (other + s));
        lemma_frames(x, y, more + r, other + s);
        lemma_texts(a[0], b[0]);
        assert forall|i: int| 0 <= i < a.skip(1).len() implies encode_utf8(
            #[trigger] a.skip(1)[i],
        ).len() <= u64::MAX by {
            assert(a.skip(1)[i] == a[i + 1]);
        }
        assert forall|i: int| 0 <= i < b.skip(1).len() implies encode_utf8(
            #[trigger] b.skip(1)[i],
        ).len() <= u64::MAX by {
            assert(b.skip(1)[i] == b[i + 1]);
        }
        lemma_paths(a.skip(1), b.skip(1), r, s);
        assert(a =~= seq![a[0]] + a.skip(1));
        assert(b =~= seq![b[0]] + b.skip(1));
    }
}

proof fn lemma_identities(a: Seq<GitCommitId>, b: Seq<GitCommitId>, r: Seq<u8>, s: Seq<u8>)
    requires
        a.len() == b.len(),
        identity_bytes(a) + r == identity_bytes(b) + s,
    ensures
        a == b,
        r == s,
    decreases a.len(),
{
    if a.len() == 0 {
        assert(identity_bytes(a) + r =~= r);
        assert(identity_bytes(b) + s =~= s);
        assert(a =~= b);
    } else {
        let (x, y) = (a.last().bytes@, b.last().bytes@);
        let (front, other) = (identity_bytes(a.drop_last()), identity_bytes(b.drop_last()));
        assert(identity_bytes(a) + r =~= front + (x + r));
        assert(identity_bytes(b) + s =~= other + (y + s));
        lemma_identities(a.drop_last(), b.drop_last(), x + r, y + s);
        lemma_fronts(x, y, r, s);
        assert(a.last().bytes =~= b.last().bytes);
        assert(a =~= a.drop_last().push(a.last()));
        assert(b =~= b.drop_last().push(b.last()));
    }
}

proof fn lemma_joined(x: Seq<u8>, y: Seq<u8>, z: Seq<u8>)
    ensures
        x + y + z == x + (y + z),
{
    assert(x + y + z =~= x + (y + z));
}

proof fn lemma_regrouped(
    a: Seq<u8>,
    b: Seq<u8>,
    c: Seq<u8>,
    d: Seq<u8>,
    e: Seq<u8>,
    f: Seq<u8>,
    g: Seq<u8>,
    h: Seq<u8>,
    i: Seq<u8>,
    j: Seq<u8>,
)
    ensures
        a + b + c + d + e + f + g + h + i + j == a + (b + (c + (d + (e + (f + (g + (h + (i
            + j)))))))),
{
    lemma_joined(a + b + c + d + e + f + g + h, i, j);
    lemma_joined(a + b + c + d + e + f + g, h, i + j);
    lemma_joined(a + b + c + d + e + f, g, h + (i + j));
    lemma_joined(a + b + c + d + e, f, g + (h + (i + j)));
    lemma_joined(a + b + c + d, e, f + (g + (h + (i + j))));
    lemma_joined(a + b + c, d, e + (f + (g + (h + (i + j)))));
    lemma_joined(a + b, c, d + (e + (f + (g + (h + (i + j))))));
    lemma_joined(a, b, c + (d + (e + (f + (g + (h + (i + j)))))));
}

/// The bytes that name a commit, from the time on.
spec fn time_on(commit: CommitView) -> Seq<u8> {
    spec_u64_to_le_bytes(commit.authored_at_seconds as u64) + framed(encode_utf8(commit.message))
}

/// The bytes that name a commit, from the parents on.
spec fn parents_on(commit: CommitView) -> Seq<u8> {
    spec_u64_to_le_bytes(commit.parents.len() as u64) + (identity_bytes(commit.parents) + (framed(
        encode_utf8(commit.author),
    ) + time_on(commit)))
}

/// The bytes that name a commit, from the paths on.
spec fn paths_on(commit: CommitView) -> Seq<u8> {
    let paths = ascending::<String>(commit.tracked_paths);
    spec_u64_to_le_bytes(paths.len() as u64) + (path_frames(paths) + parents_on(commit))
}

proof fn lemma_preimage(commit: CommitView)
    ensures
        commit_preimage(
            commit.tree,
            commit.workspace_tree,
            commit.tracked_paths,
            commit.parents,
            commit.author,
            commit.authored_at_seconds,
            commit.message,
        ) == encode_utf8("acyclic-fs-git-compat-commit-v1\0"@) + (tree_bytes(commit.tree) + (
        tree_bytes(commit.workspace_tree) + paths_on(commit))),
{
    let paths = ascending::<String>(commit.tracked_paths);
    lemma_regrouped(
        encode_utf8("acyclic-fs-git-compat-commit-v1\0"@),
        tree_bytes(commit.tree),
        tree_bytes(commit.workspace_tree),
        spec_u64_to_le_bytes(paths.len() as u64),
        path_frames(paths),
        spec_u64_to_le_bytes(commit.parents.len() as u64),
        identity_bytes(commit.parents),
        framed(encode_utf8(commit.author)),
        spec_u64_to_le_bytes(commit.authored_at_seconds as u64),
        framed(encode_utf8(commit.message)),
    );
}

proof fn lemma_from_parents(a: CommitView, b: CommitView)
    requires
        countable(a),
        countable(b),
        parents_on(a) == parents_on(b),
    ensures
        a.parents == b.parents,
        a.author == b.author,
        a.authored_at_seconds == b.authored_at_seconds,
        a.message == b.message,
{
    let none = Seq::<u8>::empty();
    let (x, y) = (a.authored_at_seconds, b.authored_at_seconds);
    let (author, writer) = (encode_utf8(a.author), encode_utf8(b.author));
    let (message, text) = (encode_utf8(a.message), encode_utf8(b.message));
    lemma_counts(
        a.parents.len() as u64,
        b.parents.len() as u64,
        identity_bytes(a.parents) + (framed(author) + time_on(a)),
        identity_bytes(b.parents) + (framed(writer) + time_on(b)),
    );
    lemma_identities(
        a.parents,
        b.parents,
        framed(author) + time_on(a),
        framed(writer) + time_on(b),
    );
    lemma_frames(author, writer, time_on(a), time_on(b));
    lemma_texts(a.author, b.author);
    lemma_counts(x as u64, y as u64, framed(message), framed(text));
    assert(framed(message) + none =~= framed(message));
    assert(framed(text) + none =~= framed(text));
    lemma_frames(message, text, none, none);
    lemma_texts(a.message, b.message);
    assert(x as u64 == y as u64 ==> x == y) by (bit_vector);
}

/// The bytes that name a commit tell its trees, its paths, its parents, its author, its
/// time and its message: two commits are named alike only where these are the same.
pub proof fn commit_names_cover_everything(a: CommitView, b: CommitView)
    requires
        countable(a),
        countable(b),
        commit_preimage(
            a.tree,
            a.workspace_tree,
            a.tracked_paths,
            a.parents,
            a.author,
            a.authored_at_seconds,
            a.message,
        ) == commit_preimage(
            b.tree,
            b.workspace_tree,
            b.tracked_paths,
            b.parents,
            b.author,
            b.authored_at_seconds,
            b.message,
        ),
    ensures
        same_tree(a.tree, b.tree),
        same_tree(a.workspace_tree, b.workspace_tree),
        a.tracked_paths == b.tracked_paths,
        a.parents == b.parents,
        a.author == b.author,
        a.authored_at_seconds == b.authored_at_seconds,
        a.message == b.message,
{
    let domain = encode_utf8("acyclic-fs-git-compat-commit-v1\0"@);
    let (p, q) = (ascending::<String>(a.tracked_paths), ascending::<String>(b.tracked_paths));
    lemma_preimage(a);
    lemma_preimage(b);
    let (c, d) = (tree_bytes(a.workspace_tree), tree_bytes(b.workspace_tree));
    lemma_fronts(
        domain,
        domain,
        tree_bytes(a.tree) + (c + paths_on(a)),
        tree_bytes(b.tree) + (d + paths_on(b)),
    );
    lemma_trees(a.tree, b.tree, c + paths_on(a), d + paths_on(b));
    lemma_trees(a.workspace_tree, b.workspace_tree, paths_on(a), paths_on(b));
    lemma_counts(
        p.len() as u64,
        q.len() as u64,
        path_frames(p) + parents_on(a),
        path_frames(q) + parents_on(b),
    );
    lemma_paths(p, q, parents_on(a), parents_on(b));
    lemma_from_parents(a, b);
}

} // verus!
