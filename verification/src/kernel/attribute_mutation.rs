//! Named-attribute mutations.

use super::allocation::AllocationError;
use super::attribute::{AttributeEntry, AttributeEntryView, AttributeName, AttributeNameView};
use super::codec::CanonicalDecodeError;
use crate::order::Replicate;
use crate::performance::{no_work, OperationFailure, WorkCounters, WorkError};
use crate::storage::{ObjectId, ObjectKind, ObjectStoreError};
use vstd::prelude::*;

verus! {

/// One ordered named-attribute mutation.
#[allow(inconsistent_fields)]
#[derive(Debug, PartialEq, Eq)]
pub enum AttributeMutation {
    /// Inserts an attribute only when its name is absent.
    Insert(AttributeEntry),
    /// Removes an attribute with an optional complete-state precondition.
    Remove {
        /// Exact canonical attribute name.
        name: AttributeName,
        /// Required prior entry, or any entry with this name.
        expected: Option<AttributeEntry>,
    },
    /// Replaces an attribute after checking its complete prior state.
    Replace {
        /// Required prior entry.
        expected: AttributeEntry,
        /// Complete replacement with the same name.
        replacement: AttributeEntry,
    },
}

/// Abstract value of [`AttributeMutation`].
#[allow(inconsistent_fields)]
#[verifier::ext_equal]
pub enum AttributeMutationView {
    /// Inserts an attribute only when its name is absent.
    Insert(AttributeEntryView),
    /// Removes an attribute with an optional complete-state precondition.
    Remove {
        /// Exact canonical attribute name.
        name: AttributeNameView,
        /// Required prior entry, or any entry with this name.
        expected: Option<AttributeEntryView>,
    },
    /// Replaces an attribute after checking its complete prior state.
    Replace {
        /// Required prior entry.
        expected: AttributeEntryView,
        /// Complete replacement with the same name.
        replacement: AttributeEntryView,
    },
}

/// An optional entry.
pub open spec fn entry_view(entry: Option<AttributeEntry>) -> Option<AttributeEntryView> {
    match entry {
        Some(entry) => Some(entry@),
        None => None,
    }
}

impl View for AttributeMutation {
    type V = AttributeMutationView;

    open spec fn view(&self) -> AttributeMutationView {
        match *self {
            AttributeMutation::Insert(entry) => AttributeMutationView::Insert(entry@),
            AttributeMutation::Remove { name, expected } => AttributeMutationView::Remove {
                name: name@,
                expected: entry_view(expected),
            },
            AttributeMutation::Replace { expected, replacement } => {
                AttributeMutationView::Replace { expected: expected@, replacement: replacement@ }
            },
        }
    }
}

/// Attribute mutation semantic failures.
#[derive(Clone, Copy, Debug, PartialEq, Eq, Structural)]
pub enum AttributeSemanticError {
    /// Entry references a non-blob payload.
    InvalidEntry,
    /// Mutation precondition and replacement names differ.
    NameMismatch,
    /// Insert expected an absent name.
    AlreadyExists,
    /// Remove or replace expected an existing name.
    Missing,
    /// Existing complete entry differs from the precondition.
    StateConflict,
}

/// Whether an entry refers to a blob.
pub open spec fn entry_sound(entry: AttributeEntryView) -> bool {
    entry.value.kind == ObjectKind::Blob
}

/// Why a mutation is malformed.
pub open spec fn mutation_problem(mutation: AttributeMutationView) -> Option<
    AttributeSemanticError,
> {
    match mutation {
        AttributeMutationView::Insert(entry) => if entry_sound(entry) {
            None
        } else {
            Some(AttributeSemanticError::InvalidEntry)
        },
        AttributeMutationView::Remove { name, expected: Some(entry) } => if !entry_sound(entry) {
            Some(AttributeSemanticError::InvalidEntry)
        } else if entry.name != name {
            Some(AttributeSemanticError::NameMismatch)
        } else {
            None
        },
        AttributeMutationView::Remove { name, expected: None } => None,
        AttributeMutationView::Replace { expected, replacement } => if !entry_sound(expected)
            || !entry_sound(replacement) {
            Some(AttributeSemanticError::InvalidEntry)
        } else if expected.name != replacement.name {
            Some(AttributeSemanticError::NameMismatch)
        } else {
            None
        },
    }
}

/// Name that a mutation concerns.
pub open spec fn mutation_key(mutation: AttributeMutationView) -> AttributeNameView {
    match mutation {
        AttributeMutationView::Insert(entry) => entry.name,
        AttributeMutationView::Remove { name, .. } => name,
        AttributeMutationView::Replace { replacement, .. } => replacement.name,
    }
}

/// The entry of a name after a mutation, or why the mutation fails.
pub open spec fn mutated(
    mutation: AttributeMutationView,
    current: Option<AttributeEntryView>,
) -> Result<Option<AttributeEntryView>, AttributeSemanticError> {
    match mutation {
        AttributeMutationView::Insert(entry) => if current is Some {
            Err(AttributeSemanticError::AlreadyExists)
        } else {
            Ok(Some(entry))
        },
        AttributeMutationView::Remove { expected, .. } => if current is None {
            Err(AttributeSemanticError::Missing)
        } else if expected is Some && current != expected {
            Err(AttributeSemanticError::StateConflict)
        } else {
            Ok(None)
        },
        AttributeMutationView::Replace { expected, replacement } => if current is None {
            Err(AttributeSemanticError::Missing)
        } else if current != Some(expected) {
            Err(AttributeSemanticError::StateConflict)
        } else {
            Ok(Some(replacement))
        },
    }
}

fn validate_entry(entry: &AttributeEntry) -> (r: bool)
    ensures
        r == entry_sound(entry@),
{
    entry.value.kind == ObjectKind::Blob
}

impl AttributeMutation {
    /// Checks the mutation by itself.
    pub fn validate(&self) -> (r: Result<(), AttributeSemanticError>)
        ensures
            r == (match mutation_problem(self@) {
                Some(error) => Err::<(), AttributeSemanticError>(error),
                None => Ok::<(), AttributeSemanticError>(()),
            }),
    {
        match self {
            AttributeMutation::Insert(entry) => {
                if !validate_entry(entry) {
                    return Err(AttributeSemanticError::InvalidEntry);
                }
                Ok(())
            },
            AttributeMutation::Remove { name, expected: Some(entry) } => {
                if !validate_entry(entry) {
                    return Err(AttributeSemanticError::InvalidEntry);
                }
                if !entry.name.same(name) {
                    return Err(AttributeSemanticError::NameMismatch);
                }
                Ok(())
            },
            AttributeMutation::Remove { name, expected: None } => Ok(()),
            AttributeMutation::Replace { expected, replacement } => {
                if !validate_entry(expected) || !validate_entry(replacement) {
                    return Err(AttributeSemanticError::InvalidEntry);
                }
                if !expected.name.same(&replacement.name) {
                    return Err(AttributeSemanticError::NameMismatch);
                }
                Ok(())
            },
        }
    }

    /// Name that the mutation concerns.
    pub fn key(&self) -> (r: &AttributeName)
        ensures
            r@ == mutation_key(self@),
    {
        match self {
            AttributeMutation::Insert(entry) => &entry.name,
            AttributeMutation::Remove { name, .. } => name,
            AttributeMutation::Replace { replacement, .. } => &replacement.name,
        }
    }

    /// Tells whether the mutation changes the number of entries.
    pub fn changes_cardinality(&self) -> (r: bool)
        ensures
            r == (self@ !is Replace),
    {
        match self {
            AttributeMutation::Replace { .. } => false,
            _ => true,
        }
    }

    /// Applies the mutation to the current entry of its name.
    pub fn apply_current(&self, current: &mut Option<AttributeEntry>) -> (r: Result<
        (),
        AttributeSemanticError,
    >)
        ensures
            match mutated(self@, entry_view(*old(current))) {
                Ok(next) => r is Ok && entry_view(*final(current)) == next,
                Err(error) => r == Err::<(), AttributeSemanticError>(error) && *final(current)
                    == *old(current),
            },
    {
        match self {
            AttributeMutation::Insert(entry) => {
                if current.is_some() {
                    return Err(AttributeSemanticError::AlreadyExists);
                }
                *current = Some(entry.replicate());
                Ok(())
            },
            AttributeMutation::Remove { expected, .. } => {
                match current {
                    None => {
                        return Err(AttributeSemanticError::Missing);
                    },
                    Some(present) => {
                        if let Some(wanted) = expected {
                            if !present.same(wanted) {
                                return Err(AttributeSemanticError::StateConflict);
                            }
                        }
                    },
                }
                *current = None;
                Ok(())
            },
            AttributeMutation::Replace { expected, replacement } => {
                match current {
                    None => {
                        return Err(AttributeSemanticError::Missing);
                    },
                    Some(present) => {
                        if !present.same(expected) {
                            return Err(AttributeSemanticError::StateConflict);
                        }
                    },
                }
                *current = Some(replacement.replicate());
                Ok(())
            },
        }
    }
}

/// Candidate attribute root and exact sparse path-copy work.
#[derive(Clone, Copy, Debug, PartialEq, Eq)]
pub struct AttributeMutationReceipt {
    /// Candidate immutable attribute-tree root.
    pub root: ObjectId,
    /// Exact work; authority publication is not part of it.
    pub work: WorkCounters,
}

/// Persistent attribute path-copy failures.
#[derive(Debug, PartialEq, Eq)]
pub enum AttributeMutationError {
    /// Batch is empty.
    Empty,
    /// Batch exceeds its admitted operation count.
    TooManyMutations,
    /// Root has the wrong object kind.
    WrongRootKind,
    /// Page or traversal limits are invalid.
    InvalidLimits,
    /// One item or required fanout cannot fit the page-byte bound.
    PageItemTooLarge,
    /// Traversal exceeds the page-height bound.
    HeightExceeded,
    /// Authenticated page graph cycles or aliases.
    CycleOrAlias,
    /// Parent routing bounds mismatch child contents.
    ChildBoundsMismatch,
    /// Mutation implementation violated its cardinality contract.
    MutationContract,
    /// Fallible bounded scratch allocation failed.
    AllocationFailed,
    /// Semantic mutation failed.
    Semantic(AttributeSemanticError),
    /// Immutable object storage failed.
    Storage(ObjectStoreError),
    /// Canonical page encoding or decoding failed.
    Decode(CanonicalDecodeError),
    /// Work accounting overflowed or exceeded its budget.
    Work(WorkError),
}

/// Attribute mutation failure retaining work and safe orphan writes.
pub type AttributeMutationFailure = OperationFailure<AttributeMutationError>;

/// Why the path copy of a tree fails.
#[derive(Debug, PartialEq, Eq)]
pub enum PathCopyError {
    /// No mutation.
    Empty,
    /// More mutations than admitted.
    TooManyMutations,
    /// The root is no page of the tree.
    WrongRootKind,
    /// Page or traversal bounds are invalid.
    InvalidLimits,
    /// An item or the required fanout does not fit a page.
    PageItemTooLarge,
    /// The tree is higher than admitted.
    HeightExceeded,
    /// A page was reached twice.
    CycleOrAlias,
    /// A page disagrees with the bounds under which it was reached.
    ChildBoundsMismatch,
    /// A mutation changed the number of entries against its word.
    MutationContract,
    /// A scratch allocation failed.
    AllocationFailed,
    /// An accounted allocation failed.
    Allocation(AllocationError),
    /// A mutation does not apply.
    Semantic(AttributeSemanticError),
    /// Immutable object storage failed.
    Storage(ObjectStoreError),
    /// A page failed encoding or decoding.
    Decode(CanonicalDecodeError),
    /// Work overflowed or exceeded its budget.
    Work(WorkError),
}

/// A path-copy failure as an attribute failure.
pub open spec fn path_copy_cause(error: PathCopyError) -> AttributeMutationError {
    match error {
        PathCopyError::Empty => AttributeMutationError::Empty,
        PathCopyError::TooManyMutations => AttributeMutationError::TooManyMutations,
        PathCopyError::WrongRootKind => AttributeMutationError::WrongRootKind,
        PathCopyError::InvalidLimits => AttributeMutationError::InvalidLimits,
        PathCopyError::PageItemTooLarge => AttributeMutationError::PageItemTooLarge,
        PathCopyError::HeightExceeded => AttributeMutationError::HeightExceeded,
        PathCopyError::CycleOrAlias => AttributeMutationError::CycleOrAlias,
        PathCopyError::ChildBoundsMismatch => AttributeMutationError::ChildBoundsMismatch,
        PathCopyError::MutationContract => AttributeMutationError::MutationContract,
        PathCopyError::Allocation(AllocationError::Work(error)) => AttributeMutationError::Work(
            error,
        ),
        PathCopyError::AllocationFailed | PathCopyError::Allocation(_) => {
            AttributeMutationError::AllocationFailed
        },
        PathCopyError::Semantic(error) => AttributeMutationError::Semantic(error),
        PathCopyError::Storage(error) => AttributeMutationError::Storage(error),
        PathCopyError::Decode(error) => AttributeMutationError::Decode(error),
        PathCopyError::Work(error) => AttributeMutationError::Work(error),
    }
}

/// Turns a path-copy failure into an attribute failure.
pub fn map_error(error: PathCopyError) -> (r: AttributeMutationError)
    ensures
        r == path_copy_cause(error),
{
    match error {
        PathCopyError::Empty => AttributeMutationError::Empty,
        PathCopyError::TooManyMutations => AttributeMutationError::TooManyMutations,
        PathCopyError::WrongRootKind => AttributeMutationError::WrongRootKind,
        PathCopyError::InvalidLimits => AttributeMutationError::InvalidLimits,
        PathCopyError::PageItemTooLarge => AttributeMutationError::PageItemTooLarge,
        PathCopyError::HeightExceeded => AttributeMutationError::HeightExceeded,
        PathCopyError::CycleOrAlias => AttributeMutationError::CycleOrAlias,
        PathCopyError::ChildBoundsMismatch => AttributeMutationError::ChildBoundsMismatch,
        PathCopyError::MutationContract => AttributeMutationError::MutationContract,
        PathCopyError::Allocation(AllocationError::Work(error)) => AttributeMutationError::Work(
            error,
        ),
        PathCopyError::AllocationFailed => AttributeMutationError::AllocationFailed,
        PathCopyError::Allocation(_) => AttributeMutationError::AllocationFailed,
        PathCopyError::Semantic(error) => AttributeMutationError::Semantic(error),
        PathCopyError::Storage(error) => AttributeMutationError::Storage(error),
        PathCopyError::Decode(error) => AttributeMutationError::Decode(error),
        PathCopyError::Work(error) => AttributeMutationError::Work(error),
    }
}

/// Why the first malformed mutation of a batch from a position on is malformed.
pub open spec fn batch_mistake(mutations: Seq<AttributeMutation>, from: int) -> Option<
    AttributeSemanticError,
>
    decreases mutations.len() - from,
{
    if from < 0 || from >= mutations.len() {
        None
    } else if mutation_problem(mutations[from]@) is Some {
        mutation_problem(mutations[from]@)
    } else {
        batch_mistake(mutations, from + 1)
    }
}

/// Admits a batch of mutations before any backend access.
pub fn admit_attribute_mutations(mutations: &Vec<AttributeMutation>) -> (r: Result<
    (),
    AttributeMutationFailure,
>)
    ensures
        match batch_mistake(mutations@, 0) {
            Some(error) => r == Err::<(), AttributeMutationFailure>(
                OperationFailure {
                    error: AttributeMutationError::Semantic(error),
                    work: no_work(),
                },
            ),
            None => r is Ok,
        },
{
    let mut i: usize = 0;
    while i < mutations.len()
        invariant
            i <= mutations@.len(),
            batch_mistake(mutations@, 0) == batch_mistake(mutations@, i as int),
        decreases mutations@.len() - i,
    {
        if let Err(error) = mutations[i].validate() {
            return Err(OperationFailure::before_work(AttributeMutationError::Semantic(error)));
        }
        i = i + 1;
    }
    Ok(())
}

/// The outcome of an attribute mutation batch: refused before any work where a mutation
/// is malformed, else what the path copy of the tree came to.
pub fn apply_attribute_mutations(
    mutations: &Vec<AttributeMutation>,
    copied: Result<AttributeMutationReceipt, OperationFailure<PathCopyError>>,
) -> (r: Result<AttributeMutationReceipt, AttributeMutationFailure>)
    ensures
        match batch_mistake(mutations@, 0) {
            Some(error) => r == Err::<AttributeMutationReceipt, AttributeMutationFailure>(
                OperationFailure {
                    error: AttributeMutationError::Semantic(error),
                    work: no_work(),
                },
            ),
            None => match copied {
                Ok(receipt) => r == Ok::<AttributeMutationReceipt, AttributeMutationFailure>(
                    receipt,
                ),
                Err(failure) => r == Err::<AttributeMutationReceipt, AttributeMutationFailure>(
                    OperationFailure {
                        error: path_copy_cause(failure.error),
                        work: failure.work,
                    },
                ),
            },
        },
{
    if let Err(failure) = admit_attribute_mutations(mutations) {
        return Err(failure);
    }
    match copied {
        Ok(receipt) => Ok(receipt),
        Err(failure) => Err(OperationFailure::new(map_error(failure.error), failure.work)),
    }
}

/// Removing an entry just inserted gives back the state before.
pub proof fn insert_then_remove(entry: AttributeEntryView)
    ensures
        mutated(AttributeMutationView::Insert(entry), None) == Ok::<
            Option<AttributeEntryView>,
            AttributeSemanticError,
        >(Some(entry)),
        mutated(
            AttributeMutationView::Remove { name: entry.name, expected: Some(entry) },
            Some(entry),
        ) == Ok::<Option<AttributeEntryView>, AttributeSemanticError>(None),
{
}

/// A well-formed mutation that succeeds leaves an entry of its own name or none.
pub proof fn mutation_keeps_its_key(
    mutation: AttributeMutationView,
    current: Option<AttributeEntryView>,
)
    requires
        mutation_problem(mutation) is None,
        mutated(mutation, current) is Ok,
    ensures
        mutated(mutation, current)->Ok_0 matches Some(entry) ==> entry.name == mutation_key(
            mutation,
        ) && entry_sound(entry),
{
}

} // verus!
