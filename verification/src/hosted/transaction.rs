//! Sparse transactions of a hosted workspace.

use super::handles::{operation, operation_of, HostedWorkspace, HostedWorkspaceView};
use super::options::HostedFsError;
use super::wire::{
    ApplyTransactionRequest, ApplyTransactionRequestView, ByteRange, GenerationRef,
    GenerationRefView, Mutation, MutationView,
};
use crate::foundation::IdempotencyKey;
use crate::order::{replicate_all, views, Replicate};
use vstd::prelude::*;

verus! {

/// Sparse hosted transaction. Mutations remain private until one atomic commit.
#[derive(Debug, PartialEq, Eq)]
pub struct HostedTransaction {
    workspace: HostedWorkspace,
    base: GenerationRef,
    idempotency_key: IdempotencyKey,
    mutations: Vec<Mutation>,
}

/// Abstract value of [`HostedTransaction`].
#[verifier::ext_equal]
pub struct HostedTransactionView {
    /// Workspace that is changed.
    pub workspace: HostedWorkspaceView,
    /// Generation that the transaction started from.
    pub base: GenerationRefView,
    /// Retry identity.
    pub idempotency_key: IdempotencyKey,
    /// Every mutation in order.
    pub mutations: Seq<MutationView>,
}

impl View for HostedTransaction {
    type V = HostedTransactionView;

    closed spec fn view(&self) -> HostedTransactionView {
        HostedTransactionView {
            workspace: self.workspace@,
            base: self.base@,
            idempotency_key: self.idempotency_key,
            mutations: views(self.mutations@),
        }
    }
}

impl HostedTransactionView {
    /// The transaction with one more mutation.
    pub open spec fn adding(self, mutation: MutationView) -> HostedTransactionView {
        HostedTransactionView { mutations: self.mutations.push(mutation), ..self }
    }

    /// First objection to sending the transaction.
    pub open spec fn problem(self, maximum_conflicts: u32) -> Option<HostedFsError> {
        if !self.workspace.filesystem.admits_transaction(self.mutations.len() as int) {
            Some(HostedFsError::LimitExceeded("transaction mutations"))
        } else if !self.workspace.filesystem.admits_page(maximum_conflicts) {
            Some(HostedFsError::LimitExceeded("transaction conflicts"))
        } else {
            None
        }
    }

    /// The message that carries the transaction.
    pub open spec fn message(self, maximum_conflicts: u32) -> ApplyTransactionRequestView {
        ApplyTransactionRequestView {
            base: self.base,
            mutations: self.mutations,
            operation: operation_of(self.idempotency_key),
            maximum_conflicts,
        }
    }
}

impl HostedWorkspace {
    /// Begins a sparse transaction against the current observed head.
    pub fn begin_transaction(&self, idempotency_key: IdempotencyKey) -> (r: HostedTransaction)
        ensures
            r@ == (HostedTransactionView {
                workspace: self@,
                base: self@.head,
                idempotency_key,
                mutations: Seq::empty(),
            }),
    {
        let r = HostedTransaction {
            workspace: self.replicate(),
            base: self.head.replicate(),
            idempotency_key,
            mutations: Vec::new(),
        };
        assert(views(r.mutations@) =~= Seq::empty());
        r
    }
}

impl HostedTransaction {
    /// Adds one canonical protocol mutation.
    pub fn push(&mut self, mutation: Mutation)
        ensures
            final(self)@ == old(self)@.adding(mutation@),
    {
        let ghost before = self.mutations@;
        self.mutations.push(mutation);
        assert(views(self.mutations@) =~= views(before).push(mutation@));
    }

    /// Creates parent directories as one transaction mutation.
    pub fn create_directories(
        &mut self,
        path: String,
    )
        ensures
            final(self)@ == old(self)@.adding((MutationView::CreateDirectories {
                path: path@,
            })),
    {
        self.push(Mutation::CreateDirectories { path });
    }

    /// Creates one regular file with exact metadata.
    pub fn create_file(
        &mut self,
        path: String,
        contents: Vec<u8>,
        metadata: Option<Vec<u8>>,
    )
        ensures
            final(self)@ == old(self)@.adding((MutationView::CreateFile {
                path: path@,
                contents: contents@,
                metadata: match metadata { Some(encoded) => Some(encoded@), None => None },
            })),
    {
        self.push(Mutation::CreateFile { path, contents, metadata });
    }

    /// Creates one directory with exact metadata.
    pub fn create_directory(
        &mut self,
        path: String,
        metadata: Option<Vec<u8>>,
    )
        ensures
            final(self)@ == old(self)@.adding((MutationView::CreateDirectory {
                path: path@,
                metadata: match metadata { Some(encoded) => Some(encoded@), None => None },
            })),
    {
        self.push(Mutation::CreateDirectory { path, metadata });
    }

    /// Creates one symbolic link without interpreting its target bytes.
    pub fn create_symbolic_link(
        &mut self,
        path: String,
        target: Vec<u8>,
        metadata: Option<Vec<u8>>,
    )
        ensures
            final(self)@ == old(self)@.adding((MutationView::CreateSymbolicLink {
                path: path@,
                target: target@,
                metadata: match metadata { Some(encoded) => Some(encoded@), None => None },
            })),
    {
        self.push(Mutation::CreateSymbolicLink { path, target, metadata });
    }

    /// Creates or replaces one complete regular file.
    pub fn put_file(
        &mut self,
        path: String,
        contents: Vec<u8>,
    )
        ensures
            final(self)@ == old(self)@.adding((MutationView::PutFile {
                path: path@,
                contents: contents@,
            })),
    {
        self.push(Mutation::PutFile { path, contents });
    }

    /// Removes one path.
    pub fn remove(
        &mut self,
        path: String,
    )
        ensures
            final(self)@ == old(self)@.adding((MutationView::Remove {
                path: path@,
            })),
    {
        self.push(Mutation::Remove { path });
    }

    /// Atomically renames one path.
    pub fn rename(
        &mut self,
        source: String,
        destination: String,
        replace: bool,
    )
        ensures
            final(self)@ == old(self)@.adding((MutationView::Rename {
                source: source@,
                destination: destination@,
                replace,
            })),
    {
        self.push(Mutation::Rename { source, destination, replace });
    }

    /// Creates a hard link without copying file contents.
    pub fn hard_link(
        &mut self,
        source: String,
        destination: String,
    )
        ensures
            final(self)@ == old(self)@.adding((MutationView::HardLink {
                source: source@,
                destination: destination@,
            })),
    {
        self.push(Mutation::HardLink { source, destination });
    }

    /// Copies one complete file through shared immutable extent references.
    pub fn copy_file(
        &mut self,
        source: String,
        destination: String,
    )
        ensures
            final(self)@ == old(self)@.adding((MutationView::CopyFile {
                source: source@,
                destination: destination@,
            })),
    {
        self.push(Mutation::CopyFile { source, destination });
    }

    /// Writes one sparse range.
    pub fn write(
        &mut self,
        path: String,
        offset: u64,
        contents: Vec<u8>,
    )
        ensures
            final(self)@ == old(self)@.adding((MutationView::Write {
                path: path@,
                offset,
                contents: contents@,
            })),
    {
        self.push(Mutation::Write { path, offset, contents });
    }

    /// Changes logical file length without materializing holes.
    pub fn resize(
        &mut self,
        path: String,
        logical_bytes: u64,
    )
        ensures
            final(self)@ == old(self)@.adding((MutationView::Resize {
                path: path@,
                logical_bytes,
            })),
    {
        self.push(Mutation::Resize { path, logical_bytes });
    }

    /// Converts one range to a hole or allocated zeros.
    pub fn zero_range(
        &mut self,
        path: String,
        offset: u64,
        length: u64,
        allocated: bool,
        extend: bool,
    )
        ensures
            final(self)@ == old(self)@.adding((MutationView::ZeroRange {
                path: path@,
                range: ByteRange { offset, length },
                allocated,
                extend,
            })),
    {
        self.push(Mutation::ZeroRange { path, range: ByteRange { offset, length }, allocated, extend });
    }

    /// Preallocates one sparse file range.
    pub fn preallocate(
        &mut self,
        path: String,
        offset: u64,
        length: u64,
        keep_size: bool,
    )
        ensures
            final(self)@ == old(self)@.adding((MutationView::Preallocate {
                path: path@,
                range: ByteRange { offset, length },
                keep_size,
            })),
    {
        self.push(Mutation::Preallocate { path, range: ByteRange { offset, length }, keep_size });
    }

    /// Clones one content range without copying unchanged object bodies.
    pub fn clone_range(
        &mut self,
        source: String,
        source_offset: u64,
        destination: String,
        destination_offset: u64,
        length: u64,
    )
        ensures
            final(self)@ == old(self)@.adding((MutationView::CloneRange {
                source: source@,
                source_offset,
                destination: destination@,
                destination_offset,
                length,
            })),
    {
        self.push(Mutation::CloneRange { source, source_offset, destination, destination_offset, length });
    }

    /// Replaces explicitly represented metadata fields.
    pub fn set_metadata(
        &mut self,
        path: String,
        metadata: Vec<u8>,
    )
        ensures
            final(self)@ == old(self)@.adding((MutationView::SetMetadata {
                path: path@,
                metadata: metadata@,
            })),
    {
        self.push(Mutation::SetMetadata { path, metadata });
    }

    /// Publishes every accumulated mutation atomically.
    pub fn commit(self, maximum_conflicts: u32) -> (r: Result<
        ApplyTransactionRequest,
        HostedFsError,
    >)
        ensures
            match self@.problem(maximum_conflicts) {
                Some(problem) => r == Err::<ApplyTransactionRequest, HostedFsError>(problem),
                None => r is Ok && r->Ok_0@ == self@.message(maximum_conflicts),
            },
    {
        if let Err(error) = self.workspace.filesystem.require_transaction_bound(
            self.mutations.len(),
        ) {
            return Err(error);
        }
        if let Err(error) = self.workspace.filesystem.require_page_bound(
            maximum_conflicts,
            "transaction conflicts",
        ) {
            return Err(error);
        }
        Ok(
            ApplyTransactionRequest {
                base: self.base,
                mutations: self.mutations,
                operation: operation(self.idempotency_key),
                maximum_conflicts,
            },
        )
    }

    /// Validates replay against the current head without publishing the transaction.
    pub fn rebase(&self, maximum_conflicts: u32) -> (r: Result<
        ApplyTransactionRequest,
        HostedFsError,
    >)
        ensures
            match self@.problem(maximum_conflicts) {
                Some(problem) => r == Err::<ApplyTransactionRequest, HostedFsError>(problem),
                None => r is Ok && r->Ok_0@ == self@.message(maximum_conflicts),
            },
    {
        if let Err(error) = self.workspace.filesystem.require_transaction_bound(
            self.mutations.len(),
        ) {
            return Err(error);
        }
        if let Err(error) = self.workspace.filesystem.require_page_bound(
            maximum_conflicts,
            "transaction conflicts",
        ) {
            return Err(error);
        }
        Ok(
            ApplyTransactionRequest {
                base: self.base.replicate(),
                mutations: replicate_all(&self.mutations),
                operation: operation(self.idempotency_key),
                maximum_conflicts,
            },
        )
    }
}

} // verus!
