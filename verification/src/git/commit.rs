//! Content-addressed commit identities.

use super::types::{CommitView, GitCommit, GitCommitId, GitTransitionId, GitTreeRef};
use crate::digest::{blake3_bytes, blake3_digest, hex_bytes, spelled_bytes, spells_bytes};
use crate::foundation::{OperationId, WorkspaceId};
use crate::order::{ascending, OrderedSet};
use vstd::bytes::{spec_u64_to_le_bytes, u64_to_le_bytes};
use vstd::prelude::*;
use vstd::string::*;
use vstd::utf8::encode_utf8;

verus! {

/// A byte string preceded by its length.
pub open spec fn framed(bytes: Seq<u8>) -> Seq<u8> {
    spec_u64_to_le_bytes(bytes.len() as u64) + bytes
}

/// Bytes that identify a tree.
pub open spec fn tree_bytes(tree: GitTreeRef) -> Seq<u8> {
    match tree {
        GitTreeRef::Exact(reference) => seq![0u8] + reference.workspace_id.bytes@
            + reference.generation.digest.bytes@,
        GitTreeRef::Lazy(reference) => seq![1u8] + reference.id.digest.bytes@,
    }
}

/// Framed paths, one after another.
pub open spec fn path_frames(paths: Seq<Seq<char>>) -> Seq<u8>
    decreases paths.len(),
{
    if paths.len() == 0 {
        Seq::<u8>::empty()
    } else {
        path_frames(paths.drop_last()) + framed(encode_utf8(paths.last()))
    }
}

/// Identities, one after another.
pub open spec fn identity_bytes(ids: Seq<GitCommitId>) -> Seq<u8>
    decreases ids.len(),
{
    if ids.len() == 0 {
        Seq::<u8>::empty()
    } else {
        identity_bytes(ids.drop_last()) + ids.last().bytes@
    }
}

/// Bytes whose digest is the identity of a commit.
pub open spec fn commit_preimage(
    tree: GitTreeRef,
    workspace_tree: GitTreeRef,
    tracked_paths: Set<Seq<char>>,
    parents: Seq<GitCommitId>,
    author: Seq<char>,
    authored_at_seconds: i64,
    message: Seq<char>,
) -> Seq<u8> {
    let paths = ascending::<String>(tracked_paths);
    encode_utf8("acyclic-fs-git-compat-commit-v1\0"@) + tree_bytes(tree) + tree_bytes(
        workspace_tree,
    ) + spec_u64_to_le_bytes(paths.len() as u64) + path_frames(paths) + spec_u64_to_le_bytes(
        parents.len() as u64,
    ) + identity_bytes(parents) + framed(encode_utf8(author)) + spec_u64_to_le_bytes(
        authored_at_seconds as u64,
    ) + framed(encode_utf8(message))
}

/// The identity whose bytes are the digest of `preimage`.
pub open spec fn commit_id(preimage: Seq<u8>) -> GitCommitId {
    choose|id: GitCommitId| id.bytes@ == blake3_digest(preimage)
}

/// The commit that the given metadata determine.
pub open spec fn commit_made(
    tree: GitTreeRef,
    workspace_tree: GitTreeRef,
    tracked_paths: Set<Seq<char>>,
    parents: Seq<GitCommitId>,
    author: Seq<char>,
    authored_at_seconds: i64,
    message: Seq<char>,
) -> CommitView {
    CommitView {
        id: commit_id(
            commit_preimage(
                tree,
                workspace_tree,
                tracked_paths,
                parents,
                author,
                authored_at_seconds,
                message,
            ),
        ),
        tree,
        workspace_tree,
        tracked_paths,
        parents,
        author,
        authored_at_seconds,
        message,
    }
}

/// Whether the identity of a commit is the digest of its metadata.
pub open spec fn commit_authentic(commit: CommitView) -> bool {
    commit == commit_made(
        commit.tree,
        commit.workspace_tree,
        commit.tracked_paths,
        commit.parents,
        commit.author,
        commit.authored_at_seconds,
        commit.message,
    )
}

fn append_bytes(out: &mut Vec<u8>, bytes: &[u8])
    ensures
        final(out)@ == old(out)@ + bytes@,
{
    out.extend_from_slice(bytes);
    assert(out@ =~= old(out)@ + bytes@);
}

fn append_length(out: &mut Vec<u8>, length: usize)
    ensures
        final(out)@ == old(out)@ + spec_u64_to_le_bytes(length as u64),
{
    let bytes = u64_to_le_bytes(length as u64);
    append_bytes(out, bytes.as_slice());
}

/// Appends a byte string preceded by its length.
fn hash_bytes(out: &mut Vec<u8>, bytes: &[u8])
    ensures
        final(out)@ == old(out)@ + framed(bytes@),
{
    append_length(out, bytes.len());
    append_bytes(out, bytes);
    assert(out@ =~= old(out)@ + framed(bytes@));
}

/// Appends the bytes that identify a tree.
fn hash_tree_ref(out: &mut Vec<u8>, tree: GitTreeRef)
    ensures
        final(out)@ == old(out)@ + tree_bytes(tree),
{
    match tree {
        GitTreeRef::Exact(reference) => {
            out.push(0);
            append_bytes(out, reference.workspace_id.bytes.as_slice());
            append_bytes(out, reference.generation.digest.bytes.as_slice());
        },
        GitTreeRef::Lazy(reference) => {
            out.push(1);
            append_bytes(out, reference.id.digest.bytes.as_slice());
        },
    }
    assert(out@ =~= old(out)@ + tree_bytes(tree));
}

impl GitCommit {
    /// Constructs and hashes an explicit compatibility commit.
    pub fn new(
        tree: GitTreeRef,
        parents: Vec<GitCommitId>,
        author: String,
        authored_at_seconds: i64,
        message: String,
    ) -> (r: Self)
        ensures
            r@ == commit_made(
                tree,
                tree,
                Set::empty(),
                parents@,
                author@,
                authored_at_seconds,
                message@,
            ),
    {
        Self::new_with_workspace_tree(tree, tree, parents, author, authored_at_seconds, message)
    }

    fn new_with_workspace_tree(
        tree: GitTreeRef,
        workspace_tree: GitTreeRef,
        parents: Vec<GitCommitId>,
        author: String,
        authored_at_seconds: i64,
        message: String,
    ) -> (r: Self)
        ensures
            r@ == commit_made(
                tree,
                workspace_tree,
                Set::empty(),
                parents@,
                author@,
                authored_at_seconds,
                message@,
            ),
    {
        Self::new_with_metadata(
            tree,
            workspace_tree,
            OrderedSet::new(),
            parents,
            author,
            authored_at_seconds,
            message,
        )
    }

    /// Constructs and hashes a commit with all of its metadata.
    pub fn new_with_metadata(
        tree: GitTreeRef,
        workspace_tree: GitTreeRef,
        tracked_paths: OrderedSet<String>,
        parents: Vec<GitCommitId>,
        author: String,
        authored_at_seconds: i64,
        message: String,
    ) -> (r: Self)
        ensures
            r@ == commit_made(
                tree,
                workspace_tree,
                tracked_paths@,
                parents@,
                author@,
                authored_at_seconds,
                message@,
            ),
            r.id.bytes@ == blake3_digest(
                commit_preimage(
                    tree,
                    workspace_tree,
                    tracked_paths@,
                    parents@,
                    author@,
                    authored_at_seconds,
                    message@,
                ),
            ),
    {
        let mut out: Vec<u8> = Vec::new();
        append_bytes(&mut out, "acyclic-fs-git-compat-commit-v1\0".as_bytes());
        hash_tree_ref(&mut out, tree);
        hash_tree_ref(&mut out, workspace_tree);
        append_length(&mut out, tracked_paths.len());
        let ghost paths = ascending::<String>(tracked_paths@);
        let ghost base = out@;
        let mut i: usize = 0;
        assert(base + path_frames(paths.take(0)) =~= base);
        while i < tracked_paths.len()
            invariant
                i <= paths.len(),
                paths == ascending::<String>(tracked_paths@),
                out@ == base + path_frames(paths.take(i as int)),
            decreases paths.len() - i,
        {
            hash_bytes(&mut out, tracked_paths.at(i).as_str().as_bytes());
            proof {
                let next = paths.take(i + 1);
                assert(next.drop_last() =~= paths.take(i as int));
                assert(next.last() == paths[i as int]);
                assert(out@ =~= base + path_frames(next));
            }
            i = i + 1;
        }
        assert(paths.take(i as int) =~= paths);
        append_length(&mut out, parents.len());
        let ghost base2 = out@;
        let mut j: usize = 0;
        assert(base2 + identity_bytes(parents@.take(0)) =~= base2);
        while j < parents.len()
            invariant
                j <= parents@.len(),
                out@ == base2 + identity_bytes(parents@.take(j as int)),
            decreases parents@.len() - j,
        {
            append_bytes(&mut out, parents[j].bytes.as_slice());
            proof {
                let next = parents@.take(j + 1);
                assert(next.drop_last() =~= parents@.take(j as int));
                assert(next.last() == parents@[j as int]);
                assert(out@ =~= base2 + identity_bytes(next));
            }
            j = j + 1;
        }
        assert(parents@.take(j as int) =~= parents@);
        hash_bytes(&mut out, author.as_str().as_bytes());
        let seconds = u64_to_le_bytes(authored_at_seconds as u64);
        append_bytes(&mut out, seconds.as_slice());
        hash_bytes(&mut out, message.as_str().as_bytes());
        assert(out@ =~= commit_preimage(
            tree,
            workspace_tree,
            tracked_paths@,
            parents@,
            author@,
            authored_at_seconds,
            message@,
        ));
        let id = GitCommitId { bytes: blake3_bytes(out.as_slice()) };
        proof {
            broadcast use vstd::array::group_array_axioms;

            assert(id.bytes@ == blake3_digest(out@));
            assert(commit_id(out@).bytes =~= id.bytes);
        }
        GitCommit {
            id,
            tree,
            workspace_tree,
            tracked_paths,
            parents,
            author,
            authored_at_seconds,
            message,
        }
    }
}

/// The first half of a digest.
pub open spec fn operation_of(preimage: Seq<u8>) -> Seq<u8> {
    blake3_digest(preimage).subrange(0, 16)
}

fn operation_id_of(preimage: &[u8]) -> (r: OperationId)
    ensures
        r.bytes@ == operation_of(preimage@),
{
    let digest = blake3_bytes(preimage);
    let mut bytes: [u8; 16] = [0; 16];
    let mut i: usize = 0;
    while i < 16
        invariant
            i <= 16,
            digest@ == blake3_digest(preimage@),
            forall|k: int| 0 <= k < i ==> bytes@[k] == digest@[k],
        decreases 16 - i,
    {
        bytes[i] = digest[i];
        i = i + 1;
    }
    assert(bytes@ =~= operation_of(preimage@));
    OperationId { bytes }
}

/// Bytes whose digest identifies one action on a live tree.
pub open spec fn action_preimage(
    workspace_id: WorkspaceId,
    workspace_tree: GitTreeRef,
    encoded_action: Seq<u8>,
) -> Seq<u8> {
    encode_utf8("acyclic-fs-git-compat-action-v1\0"@) + workspace_id.bytes@ + tree_bytes(
        workspace_tree,
    ) + framed(encoded_action)
}

/// Deterministic identity of one action whose serialized form is `encoded_action`.
pub fn action_operation_id(
    workspace_id: WorkspaceId,
    workspace_tree: GitTreeRef,
    encoded_action: &[u8],
) -> (r: OperationId)
    ensures
        r.bytes@ == operation_of(action_preimage(workspace_id, workspace_tree, encoded_action@)),
{
    let mut out: Vec<u8> = Vec::new();
    append_bytes(&mut out, "acyclic-fs-git-compat-action-v1\0".as_bytes());
    append_bytes(&mut out, workspace_id.bytes.as_slice());
    hash_tree_ref(&mut out, workspace_tree);
    hash_bytes(&mut out, encoded_action);
    assert(out@ =~= action_preimage(workspace_id, workspace_tree, encoded_action@));
    operation_id_of(out.as_slice())
}

/// Identity of the rollback of one prepared transition.
pub fn abort_operation_id(transition: GitTransitionId) -> (r: OperationId)
    ensures
        r.bytes@ == operation_of(transition.operation.bytes@ + encode_utf8("abort"@)),
{
    let mut out: Vec<u8> = Vec::new();
    append_bytes(&mut out, transition.operation.bytes.as_slice());
    append_bytes(&mut out, "abort".as_bytes());
    assert(out@ =~= transition.operation.bytes@ + encode_utf8("abort"@));
    operation_id_of(out.as_slice())
}

/// Why a text is not a commit identity.
#[derive(Clone, Copy, Debug, PartialEq, Eq)]
pub enum GitCommitIdError {
    /// The text is not hexadecimal.
    NotHexadecimal,
    /// The text spells another number of bytes.
    WrongLength(usize),
}

impl GitCommitId {
    /// Reads the hexadecimal spelling of an identity.
    pub fn from_hex(text: &str) -> (r: Result<Self, GitCommitIdError>)
        ensures
            if !spells_bytes(text@) {
                r == Err::<GitCommitId, GitCommitIdError>(GitCommitIdError::NotHexadecimal)
            } else if text@.len() != 64 {
                r is Err && r->Err_0 is WrongLength && r->Err_0->0 == text@.len() / 2
            } else {
                r is Ok && r->Ok_0.bytes@ == spelled_bytes(text@)
            },
    {
        let read = match hex_bytes(text) {
            Some(read) => read,
            None => return Err(GitCommitIdError::NotHexadecimal),
        };
        if read.len() != 32 {
            return Err(GitCommitIdError::WrongLength(read.len()));
        }
        let mut bytes: [u8; 32] = [0; 32];
        let mut i: usize = 0;
        while i < 32
            invariant
                i <= 32,
                read@.len() == 32,
                forall|k: int| 0 <= k < i ==> bytes@[k] == read@[k],
            decreases 32 - i,
        {
            bytes[i] = read[i];
            i = i + 1;
        }
        assert(bytes@ =~= read@);
        Ok(GitCommitId { bytes })
    }
}

} // verus!
