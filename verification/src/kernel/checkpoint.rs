//! Immutable checkpoint and two-parent merge generations.

use super::codec::CanonicalDecodeError;
use crate::foundation::{FileId, GenerationId, VolumeId};
use crate::performance::{
    charged, no_work, total, within, OperationFailure, WorkBudget, WorkCounters, WorkError,
};
use crate::storage::{
    object_id, object_named, ObjectFailure, ObjectId, ObjectKind, ObjectStoreError, ObjectView,
    OBJECT_DIGEST_ENVELOPE_BYTES,
};
use vstd::prelude::*;

verus! {

/// Root of one immutable generation.
#[derive(Debug, PartialEq, Eq)]
pub struct GenerationRoot {
    /// Owning volume.
    pub volume_id: VolumeId,
    /// Stable identity of the root directory.
    pub root_file_id: FileId,
    /// Path-independent file table.
    pub file_table: ObjectId,
    /// Parent generations, the first one first.
    pub parents: Vec<GenerationId>,
    /// Features that a reader has to support.
    pub required_features: u64,
}

/// Inputs for constructing a candidate immutable generation.
#[derive(Clone, Copy, Debug, PartialEq, Eq)]
pub struct CheckpointRequest {
    /// Existing authenticated generation used as first parent.
    pub base: ObjectId,
    /// Candidate authenticated path-independent file-table root.
    pub file_table: ObjectId,
    /// Optional distinct second parent for a three-way merge result.
    pub merge_parent: Option<ObjectId>,
}

/// Candidate checkpoint construction evidence.
#[derive(Clone, Copy, Debug, PartialEq, Eq)]
pub struct CheckpointReceipt {
    /// Candidate generation-root object.
    pub root: ObjectId,
    /// Content-addressed generation identity.
    pub generation_id: GenerationId,
    /// Whether the unchanged single-parent request reused its base exactly.
    pub reused_base: bool,
    /// Exact reads, encoding, hashing, and immutable writes.
    pub work: WorkCounters,
}

/// Immutable checkpoint construction failures.
#[derive(Debug, PartialEq, Eq)]
pub enum CheckpointError {
    /// Base or merge parent is not a generation-root object.
    WrongGenerationKind,
    /// Candidate file table has the wrong object kind.
    WrongFileTableKind,
    /// Merge repeats its base as second parent.
    DuplicateParent,
    /// Merge parent belongs to another volume.
    CrossVolumeMerge,
    /// Merge parents disagree on the stable volume-root file identity.
    RootIdentityMismatch,
    /// Immutable object storage failed.
    Storage(ObjectStoreError),
    /// Canonical generation encoding/decoding failed.
    Decode(CanonicalDecodeError),
    /// Exact work exceeded or overflowed its budget.
    Work(WorkError),
}

/// Checkpoint construction failure retaining all spent work and orphan writes.
pub type CheckpointFailure = OperationFailure<CheckpointError>;

/// What the reply to a read or a put comes to on top of earlier work.
pub open spec fn reply_settled(
    prior: WorkCounters,
    reply: Result<WorkCounters, ObjectFailure>,
) -> Result<WorkCounters, CheckpointFailure> {
    match reply {
        Ok(spent) => match total(prior, spent) {
            Ok(sum) => Ok(sum),
            Err(error) => Err(OperationFailure { error: CheckpointError::Work(error), work: prior }),
        },
        Err(failure) => match total(prior, failure.work) {
            Ok(sum) => Err(
                OperationFailure { error: CheckpointError::Storage(failure.error), work: sum },
            ),
            Err(error) => Err(OperationFailure { error: CheckpointError::Work(error), work: prior }),
        },
    }
}

/// Settles the reply to a read or a put.
pub fn settle_read(prior: WorkCounters, reply: Result<WorkCounters, ObjectFailure>) -> (r: Result<
    WorkCounters,
    CheckpointFailure,
>)
    ensures
        r == reply_settled(prior, reply),
{
    match reply {
        Ok(spent) => match prior.checked_add(spent) {
            Ok(sum) => Ok(sum),
            Err(error) => Err(OperationFailure::new(CheckpointError::Work(error), prior)),
        },
        Err(failure) => match prior.checked_add(failure.work) {
            Ok(sum) => Err(OperationFailure::new(CheckpointError::Storage(failure.error), sum)),
            Err(error) => Err(OperationFailure::new(CheckpointError::Work(error), prior)),
        },
    }
}

/// An optional object.
pub open spec fn object_view(object: Option<ObjectId>) -> Option<ObjectView> {
    match object {
        Some(object) => Some(object@),
        None => None,
    }
}

/// Why a request is refused before any object is read.
pub open spec fn checkpoint_refused(request: CheckpointRequest) -> Option<CheckpointError> {
    if request.base.kind != ObjectKind::GenerationRoot || (request.merge_parent matches Some(parent)
        && parent.kind != ObjectKind::GenerationRoot) {
        Some(CheckpointError::WrongGenerationKind)
    } else if request.file_table.kind != ObjectKind::FileTablePage {
        Some(CheckpointError::WrongFileTableKind)
    } else if object_view(request.merge_parent) == Some(request.base@) {
        Some(CheckpointError::DuplicateParent)
    } else {
        None
    }
}

/// Checks a request before any object is read.
pub fn validate_request(request: CheckpointRequest) -> (r: Result<(), CheckpointFailure>)
    ensures
        match checkpoint_refused(request) {
            Some(error) => r == Err::<(), CheckpointFailure>(
                OperationFailure { error, work: no_work() },
            ),
            None => r is Ok,
        },
{
    let foreign = match request.merge_parent {
        Some(parent) => parent.kind != ObjectKind::GenerationRoot,
        None => false,
    };
    if request.base.kind != ObjectKind::GenerationRoot || foreign {
        return Err(OperationFailure::before_work(CheckpointError::WrongGenerationKind));
    }
    if request.file_table.kind != ObjectKind::FileTablePage {
        return Err(OperationFailure::before_work(CheckpointError::WrongFileTableKind));
    }
    if let Some(parent) = request.merge_parent {
        if parent.same(&request.base) {
            return Err(OperationFailure::before_work(CheckpointError::DuplicateParent));
        }
    }
    Ok(())
}

/// Why two generations cannot be merged.
pub open spec fn merge_refused(base: GenerationRoot, parent: GenerationRoot) -> Option<
    CheckpointError,
> {
    if parent.volume_id != base.volume_id {
        Some(CheckpointError::CrossVolumeMerge)
    } else if parent.root_file_id != base.root_file_id {
        Some(CheckpointError::RootIdentityMismatch)
    } else {
        None
    }
}

/// Checks that two generations can be merged.
pub fn validate_merge_parents(base: &GenerationRoot, parent: &GenerationRoot, work: WorkCounters) -> (r:
    Result<(), CheckpointFailure>)
    ensures
        match merge_refused(*base, *parent) {
            Some(error) => r == Err::<(), CheckpointFailure>(OperationFailure { error, work }),
            None => r is Ok,
        },
{
    if parent.volume_id != base.volume_id {
        return Err(OperationFailure::new(CheckpointError::CrossVolumeMerge, work));
    }
    if parent.root_file_id != base.root_file_id {
        return Err(OperationFailure::new(CheckpointError::RootIdentityMismatch, work));
    }
    Ok(())
}

/// What a checkpoint comes to.
#[derive(Debug, PartialEq, Eq)]
pub enum CheckpointPlan {
    /// The base generation itself.
    Reuse,
    /// A new generation.
    Write(GenerationRoot),
}

/// Whether a generation continues a base, and a merged parent where there is one.
pub open spec fn continues_base(
    root: GenerationRoot,
    request: CheckpointRequest,
    base: GenerationRoot,
) -> bool {
    &&& root.volume_id == base.volume_id
    &&& root.root_file_id == base.root_file_id
    &&& root.file_table == request.file_table
    &&& root.required_features == base.required_features
    &&& root.parents@ == (match request.merge_parent {
        Some(parent) => seq![
            GenerationId { digest: request.base.digest },
            GenerationId { digest: parent.digest },
        ],
        None => seq![GenerationId { digest: request.base.digest }],
    })
}

/// Decides what a checkpoint comes to, once its parents have been read.
///
/// A request without a merge that leaves the file table as it is reuses the base.
/// Any other makes a generation whose volume and root identity come from the base.
pub fn plan_checkpoint(
    request: CheckpointRequest,
    base: &GenerationRoot,
    merge: Option<&GenerationRoot>,
    work: WorkCounters,
) -> (r: Result<CheckpointPlan, CheckpointFailure>)
    requires
        request.merge_parent is Some == merge is Some,
    ensures
        match merge {
            Some(parent) => match merge_refused(*base, *parent) {
                Some(error) => r == Err::<CheckpointPlan, CheckpointFailure>(
                    OperationFailure { error, work },
                ),
                None => r matches Ok(CheckpointPlan::Write(root)) && continues_base(
                    root,
                    request,
                    *base,
                ),
            },
            None => if request.file_table@ == base.file_table@ {
                r == Ok::<CheckpointPlan, CheckpointFailure>(CheckpointPlan::Reuse)
            } else {
                r matches Ok(CheckpointPlan::Write(root)) && continues_base(root, request, *base)
            },
        },
{
    if let Some(parent) = merge {
        if let Err(failure) = validate_merge_parents(base, parent, work) {
            return Err(failure);
        }
    }
    if merge.is_none() && request.file_table.same(&base.file_table) {
        return Ok(CheckpointPlan::Reuse);
    }
    let mut parents: Vec<GenerationId> = Vec::new();
    parents.push(GenerationId::new(request.base.digest));
    if let Some(parent) = request.merge_parent {
        parents.push(GenerationId::new(parent.digest));
    }
    let root = GenerationRoot {
        volume_id: base.volume_id,
        root_file_id: base.root_file_id,
        file_table: request.file_table,
        parents,
        required_features: base.required_features,
    };
    assert(continues_base(root, request, *base)) by {
        match request.merge_parent {
            Some(parent) => {
                assert(root.parents@ =~= seq![
                    GenerationId { digest: request.base.digest },
                    GenerationId { digest: parent.digest },
                ]);
            },
            None => {
                assert(root.parents@ =~= seq![GenerationId { digest: request.base.digest }]);
            },
        }
    }
    Ok(CheckpointPlan::Write(root))
}

/// Work of encoding and hashing a generation root of a given size.
pub open spec fn encoding_work(encoded: nat, parents: nat) -> WorkCounters {
    WorkCounters {
        bytes_encoded: encoded as u64,
        bytes_hashed: if encoded + OBJECT_DIGEST_ENVELOPE_BYTES > u64::MAX {
            u64::MAX
        } else {
            (encoded + OBJECT_DIGEST_ENVELOPE_BYTES) as u64
        },
        allocation_operations: 2,
        peak_allocation_bytes: (encoded + 32 * parents) as u64,
        ..no_work()
    }
}

/// Names an encoded generation root and charges its encoding.
pub fn encode_checkpoint(
    encoded: &[u8],
    parents: usize,
    work: WorkCounters,
    budget: WorkBudget,
) -> (r: Result<(ObjectId, WorkCounters), CheckpointFailure>)
    ensures
        encoded@.len() + 32 * parents > u64::MAX ==> r == Err::<
            (ObjectId, WorkCounters),
            CheckpointFailure,
        >(OperationFailure { error: CheckpointError::Work(WorkError::Overflow), work }),
        encoded@.len() + 32 * parents <= u64::MAX ==> match charged(
            work,
            encoding_work(encoded@.len(), parents as nat),
            budget,
        ) {
            Ok(sum) => r matches Ok(made) && made.0@ == object_named(
                ObjectKind::GenerationRoot,
                encoded@,
            ) && made.1 == sum,
            Err(error) => r == Err::<(ObjectId, WorkCounters), CheckpointFailure>(
                OperationFailure { error: CheckpointError::Work(error), work },
            ),
        },
{
    let size = encoded.len() as u64;
    let held = match (parents as u64).checked_mul(32) {
        Some(held) => held,
        None => {
            return Err(OperationFailure::new(CheckpointError::Work(WorkError::Overflow), work));
        },
    };
    if held > u64::MAX - size {
        return Err(OperationFailure::new(CheckpointError::Work(WorkError::Overflow), work));
    }
    let mut counted = WorkCounters::of_bytes_encoded(size);
    counted.bytes_hashed = size.saturating_add(OBJECT_DIGEST_ENVELOPE_BYTES);
    counted.allocation_operations = 2;
    counted.peak_allocation_bytes = size + held;
    match work.charge(counted, budget) {
        Ok(sum) => Ok((object_id(ObjectKind::GenerationRoot, encoded), sum)),
        Err(error) => Err(OperationFailure::new(CheckpointError::Work(error), work)),
    }
}

/// The receipt for a checkpoint that reuses its base.
pub fn reused_checkpoint(root: ObjectId, work: WorkCounters) -> (r: CheckpointReceipt)
    ensures
        r == (CheckpointReceipt {
            root,
            generation_id: GenerationId { digest: root.digest },
            reused_base: true,
            work,
        }),
{
    CheckpointReceipt {
        root,
        generation_id: GenerationId::new(root.digest),
        reused_base: true,
        work,
    }
}

/// The receipt for a checkpoint that wrote a new root, with the work of the write.
pub fn written_checkpoint(
    root: ObjectId,
    prospective: WorkCounters,
    written: WorkCounters,
    budget: WorkBudget,
) -> (r: Result<CheckpointReceipt, CheckpointFailure>)
    ensures
        match total(prospective, written) {
            Err(error) => r == Err::<CheckpointReceipt, CheckpointFailure>(
                OperationFailure { error: CheckpointError::Work(error), work: prospective },
            ),
            Ok(work) => if within(work, budget) {
                r == Ok::<CheckpointReceipt, CheckpointFailure>(
                    CheckpointReceipt {
                        root,
                        generation_id: GenerationId { digest: root.digest },
                        reused_base: false,
                        work,
                    },
                )
            } else {
                r == Err::<CheckpointReceipt, CheckpointFailure>(
                    OperationFailure { error: CheckpointError::Work(WorkError::Exceeded), work },
                )
            },
        },
{
    let work = match prospective.checked_add(written) {
        Ok(work) => work,
        Err(error) => {
            return Err(OperationFailure::new(CheckpointError::Work(error), prospective));
        },
    };
    if let Err(error) = work.verify(budget) {
        return Err(OperationFailure::new(CheckpointError::Work(error), work));
    }
    Ok(
        CheckpointReceipt {
            root,
            generation_id: GenerationId::new(root.digest),
            reused_base: false,
            work,
        },
    )
}

} // verus!
