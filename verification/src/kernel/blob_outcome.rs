//! What building a blob comes to, step by step, over the replies of a store.

use super::blob::{blob_bytes, BlobPageView, SpanView};
use super::blob_build::{
    admitted, page_over, page_width, put_settled, BlobBuildError, BlobBuildFailure,
    BlobBuildOptions, BLOB_ITEM_BYTES, BLOB_LEVEL_BYTES,
};
use super::blob_plan::{chunk_reference, page_reference};
use crate::performance::{
    no_work, total, within, OperationFailure, WorkBudget, WorkCounters, WorkError,
};
use crate::storage::{logged, object_named, ObjectKind, ObjectView, Put};
use vstd::prelude::*;

verus! {

/// What decides how a build goes on.
pub struct BuildTerms {
    /// Bounds of the build.
    pub options: BlobBuildOptions,
    /// Work that may be spent.
    pub budget: WorkBudget,
    /// Every put with its reply.
    pub puts: Seq<Put>,
    /// Every byte that the source hands out.
    pub content: Seq<u8>,
    /// Whether the source then fails.
    pub broken: bool,
}

/// Abstract state of a build.
#[verifier::ext_equal]
pub struct BuildView {
    /// Work spent.
    pub work: WorkCounters,
    /// Logical bytes of the index that are live.
    pub live: u64,
    /// Whether room for chunks of a page was claimed.
    pub reserved: bool,
    /// Chunks that wait for their page.
    pub leaf: Seq<SpanView>,
    /// References that wait for their page, level by level.
    pub rows: Seq<Seq<SpanView>>,
    /// How many puts were made.
    pub at: nat,
}

/// What comes of a step of a build.
pub type BuildStep = Result<BuildView, BlobBuildFailure>;

/// Whether a build goes by given terms, as far as its puts show.
pub open spec fn goes_by(
    terms: BuildTerms,
    options: BlobBuildOptions,
    budget: WorkBudget,
    puts: Seq<Put>,
) -> bool {
    terms.options == options && terms.budget == budget && logged(puts, terms.puts)
}

/// What a step comes to that ends in a given state unless it fails.
pub open spec fn stepped<T>(r: Result<T, BlobBuildFailure>, state: BuildView) -> BuildStep {
    match r {
        Ok(_) => Ok(state),
        Err(failure) => Err(failure),
    }
}

/// What comes of claiming room for some bytes on top of live ones.
#[verifier::opaque]
pub open spec fn claim_made(live: u64, bytes: u64, work: WorkCounters, budget: WorkBudget) -> Result<
    (u64, WorkCounters),
    BlobBuildFailure,
> {
    if live + bytes > u64::MAX {
        Err(OperationFailure { error: BlobBuildError::TooLarge, work })
    } else {
        match admitted(
            work,
            WorkCounters { allocation_operations: 1, ..no_work() },
            (live + bytes) as u64,
            budget,
        ) {
            Ok(sum) => Ok(((live + bytes) as u64, sum)),
            Err((error, spent)) => Err(OperationFailure { error, work: spent }),
        }
    }
}

/// Logical bytes of the references of a page while they wait.
pub open spec fn row_bytes(options: BlobBuildOptions) -> u64 {
    (page_width(options)->0 * BLOB_ITEM_BYTES) as u64
}

/// What comes of the next put, made while given bytes are live.
#[verifier::opaque]
pub open spec fn put_made(terms: BuildTerms, at: nat, work: WorkCounters, live: u64) -> Result<
    WorkCounters,
    BlobBuildFailure,
> {
    if !within(work, terms.budget) {
        Err(OperationFailure { error: BlobBuildError::Work(WorkError::Exceeded), work })
    } else {
        put_settled(terms.puts[at as int].reply, work, live)
    }
}

/// What comes of encoding and putting a page.
#[verifier::opaque]
pub open spec fn page_put(
    terms: BuildTerms,
    at: nat,
    work: WorkCounters,
    live: u64,
    page: BlobPageView,
) -> Result<WorkCounters, BlobBuildFailure> {
    let size = blob_bytes(page).len() as u64;
    let simultaneous = (live + size) as u64;
    let counted = WorkCounters {
        page_writes: 1,
        bytes_encoded: size,
        allocation_operations: 1,
        ..no_work()
    };
    match admitted(work, counted, simultaneous, terms.budget) {
        Err((error, spent)) => Err(OperationFailure { error, work: spent }),
        Ok(prospective) => put_made(terms, at, prospective, simultaneous),
    }
}

/// The page over references that are not none.
pub open spec fn page_of(spans: Seq<SpanView>, height: nat) -> BlobPageView {
    page_over(spans, spans[0].first as int, spans.last().end as int, height)
}

/// What comes of putting the page over the references of a level.
pub open spec fn row_flushed(terms: BuildTerms, state: BuildView, level: int) -> BuildStep {
    match page_put(
        terms,
        state.at,
        state.work,
        state.live,
        page_of(state.rows[level], (level + 1) as nat),
    ) {
        Err(failure) => Err(failure),
        Ok(work) => Ok(
            BuildView {
                work,
                rows: state.rows.update(level, Seq::empty()),
                at: state.at + 1,
                ..state
            },
        ),
    }
}

/// What comes of adding a level.
pub open spec fn level_added(terms: BuildTerms, state: BuildView) -> BuildStep {
    match claim_made(state.live, BLOB_LEVEL_BYTES, state.work, terms.budget) {
        Err(failure) => Err(failure),
        Ok((live, spent)) => match claim_made(live, row_bytes(terms.options), spent, terms.budget) {
            Err(failure) => Err(failure),
            Ok((live, spent)) => Ok(
                BuildView { work: spent, live, rows: state.rows.push(Seq::empty()), ..state },
            ),
        },
    }
}

/// What comes of putting a reference on a level: a level that fills up becomes a page,
/// whose reference goes to the next one.
#[verifier::opaque]
pub open spec fn index_pushed(
    terms: BuildTerms,
    state: BuildView,
    level: int,
    child: SpanView,
) -> BuildStep
    decreases state.rows.len() - level,
{
    if !(0 <= level < state.rows.len()) {
        match level_added(terms, state) {
            Err(failure) => Err(failure),
            Ok(next) => Ok(BuildView { rows: next.rows.update(level, seq![child]), ..next }),
        }
    } else {
        let row = state.rows[level].push(child);
        let next = BuildView { rows: state.rows.update(level, row), ..state };
        if row.len() < page_width(terms.options)->0 {
            Ok(next)
        } else {
            match row_flushed(terms, next, level) {
                Err(failure) => Err(failure),
                Ok(after) => index_pushed(
                    terms,
                    after,
                    level + 1,
                    page_reference(row, (level + 1) as nat),
                ),
            }
        }
    }
}

/// What comes of making the page over the chunks that wait, if there are any.
#[verifier::opaque]
pub open spec fn leaf_flushed(terms: BuildTerms, state: BuildView) -> BuildStep {
    if state.leaf.len() == 0 {
        Ok(state)
    } else {
        match page_put(terms, state.at, state.work, state.live, page_of(state.leaf, 0)) {
            Err(failure) => Err(failure),
            Ok(work) => index_pushed(
                terms,
                BuildView { work, leaf: Seq::empty(), at: state.at + 1, ..state },
                0,
                page_reference(state.leaf, 0),
            ),
        }
    }
}

/// What comes of claiming room for the chunks of a page, once.
pub open spec fn leaf_reserved(terms: BuildTerms, state: BuildView) -> BuildStep {
    if state.reserved {
        Ok(state)
    } else {
        match claim_made(state.live, row_bytes(terms.options), state.work, terms.budget) {
            Err(failure) => Err(failure),
            Ok((live, spent)) => Ok(BuildView { live, work: spent, reserved: true, ..state }),
        }
    }
}

/// What comes of taking the next chunk.
#[verifier::opaque]
pub open spec fn chunk_taken(terms: BuildTerms, state: BuildView, chunk: SpanView) -> BuildStep {
    match leaf_reserved(terms, state) {
        Err(failure) => Err(failure),
        Ok(next) => {
            let longer = BuildView { leaf: next.leaf.push(chunk), ..next };
            if longer.leaf.len() == page_width(terms.options)->0 {
                leaf_flushed(terms, longer)
            } else {
                Ok(longer)
            }
        },
    }
}

/// Whether one reference waits on a level and nothing above it.
pub open spec fn stands_alone(rows: Seq<Seq<SpanView>>, level: int) -> bool {
    rows[level].len() == 1 && forall|i: int|
        level < i < rows.len() ==> (#[trigger] rows[i]).len() == 0
}

/// What comes of making pages over everything that waits from a level on: the root, and
/// the work.
#[verifier::opaque]
pub open spec fn levels_finished(terms: BuildTerms, state: BuildView, level: int) -> Result<
    (ObjectView, WorkCounters),
    BlobBuildFailure,
>
    decreases terms.puts.len() - state.at, state.rows.len() - level,
{
    if level >= state.rows.len() {
        Err(OperationFailure { error: BlobBuildError::InvalidIndexState, work: state.work })
    } else if state.rows[level].len() == 0 {
        levels_finished(terms, state, level + 1)
    } else if stands_alone(state.rows, level) {
        Ok((state.rows[level][0].object, state.work))
    } else {
        match row_flushed(terms, state, level) {
            Err(failure) => Err(failure),
            Ok(next) => match index_pushed(
                terms,
                next,
                level + 1,
                page_reference(state.rows[level], (level + 1) as nat),
            ) {
                Err(failure) => Err(failure),
                Ok(after) => if state.at < after.at <= terms.puts.len() {
                    levels_finished(terms, after, level + 1)
                } else {
                    Err(
                        OperationFailure {
                            error: BlobBuildError::InvalidIndexState,
                            work: after.work,
                        },
                    )
                },
            },
        }
    }
}

/// What comes of making pages over everything that waits. Without any chunk the root is
/// an empty page.
#[verifier::opaque]
pub open spec fn index_finished(terms: BuildTerms, state: BuildView) -> Result<
    (ObjectView, WorkCounters),
    BlobBuildFailure,
> {
    if state.leaf.len() == 0 && state.rows.len() == 0 {
        let page = page_over(Seq::empty(), 0, 0, 0);
        match page_put(terms, state.at, state.work, state.live, page) {
            Err(failure) => Err(failure),
            Ok(work) => Ok((object_named(ObjectKind::Blob, blob_bytes(page)), work)),
        }
    } else {
        match leaf_flushed(terms, state) {
            Err(failure) => Err(failure),
            Ok(next) => levels_finished(terms, next, 0),
        }
    }
}

/// Why a build ends without a blob.
pub enum BuildCause {
    /// The source failed.
    Source,
    /// The bytes of a chunk cannot be counted.
    Uncounted,
    /// Another step failed.
    Step(BlobBuildError),
}

/// How a build ends.
pub type BuildEnd = Result<(ObjectView, WorkCounters), (BuildCause, WorkCounters)>;

/// The end of a build that goes as far as its last step.
pub open spec fn build_ended(r: Result<(ObjectView, WorkCounters), BlobBuildFailure>) -> BuildEnd {
    match r {
        Ok(made) => Ok(made),
        Err(failure) => Err((BuildCause::Step(failure.error), failure.work)),
    }
}

/// Bytes asked for next, behind some: one more than admitted, or a chunk.
pub open spec fn asked_bytes(options: BlobBuildOptions, offset: int) -> int {
    let left = options.maximum_blob_bytes - offset;
    let detection = if left == u64::MAX {
        left
    } else {
        left + 1
    };
    if options.chunk_bytes < detection {
        options.chunk_bytes as int
    } else {
        detection
    }
}

/// Work of reading some bytes.
pub open spec fn reading_work(count: int) -> WorkCounters {
    WorkCounters { source_bytes_read: count as u64, ..no_work() }
}

/// How a build goes on behind some bytes: room is claimed for the next chunk, which is
/// read, put and taken up; after the last one the pages are made.
#[verifier::opaque]
pub open spec fn blob_made(terms: BuildTerms, state: BuildView, offset: int) -> BuildEnd
    decreases terms.content.len() - offset,
{
    let asked = asked_bytes(terms.options, offset);
    let left = terms.content.len() - offset;
    let count = if left < asked {
        left
    } else {
        asked
    };
    match claim_made(state.live, asked as u64, state.work, terms.budget) {
        Err(failure) => Err((BuildCause::Step(failure.error), failure.work)),
        Ok((live, spent)) => match total(spent, reading_work(count)) {
            Err(_) => Err((BuildCause::Uncounted, spent)),
            Ok(read) => if !within(read, terms.budget) {
                Err((BuildCause::Step(BlobBuildError::Work(WorkError::Exceeded)), read))
            } else if count < asked && terms.broken {
                Err((BuildCause::Source, read))
            } else if count <= 0 {
                build_ended(index_finished(terms, BuildView { work: read, ..state }))
            } else if offset + count > terms.options.maximum_blob_bytes {
                Err((BuildCause::Step(BlobBuildError::TooLarge), read))
            } else {
                match put_made(terms, state.at, read, live) {
                    Err(failure) => Err((BuildCause::Step(failure.error), failure.work)),
                    Ok(work) => match chunk_taken(
                        terms,
                        BuildView { work, at: state.at + 1, ..state },
                        chunk_reference(terms.content, offset, offset + count),
                    ) {
                        Err(failure) => Err((BuildCause::Step(failure.error), failure.work)),
                        Ok(next) => if count < asked {
                            build_ended(index_finished(terms, next))
                        } else {
                            blob_made(terms, next, offset + count)
                        },
                    },
                }
            },
        },
    }
}

/// A build before anything was read, behind some puts.
pub open spec fn build_begun(at: nat) -> BuildView {
    BuildView {
        work: no_work(),
        live: 0,
        reserved: false,
        leaf: Seq::empty(),
        rows: Seq::empty(),
        at,
    }
}

/// Whether some work is other work with more bytes read.
pub open spec fn read_on(before: WorkCounters, after: WorkCounters) -> bool {
    before.source_bytes_read <= after.source_bytes_read && after == (WorkCounters {
        source_bytes_read: after.source_bytes_read,
        ..before
    })
}

/// Whether the failure of a build has a cause. Where the bytes of a chunk cannot be
/// counted, how many of them were depends on the pieces that the source handed out.
pub open spec fn build_failure_is(
    failure: BlobBuildFailure,
    cause: BuildCause,
    work: WorkCounters,
) -> bool {
    match cause {
        BuildCause::Source => failure.error is Source && failure.work == work,
        BuildCause::Uncounted => failure.error == BlobBuildError::Work(WorkError::Overflow)
            && read_on(work, failure.work),
        BuildCause::Step(error) => failure == (OperationFailure { error, work }),
    }
}

/// Terms that a build keeps to after some puts, it kept to after fewer.
pub proof fn lemma_goes_by(
    terms: BuildTerms,
    options: BlobBuildOptions,
    budget: WorkBudget,
    earlier: Seq<Put>,
    later: Seq<Put>,
)
    requires
        logged(earlier, later),
        goes_by(terms, options, budget, later),
    ensures
        goes_by(terms, options, budget, earlier),
{
    crate::storage::lemma_logged(earlier, later, terms.puts);
}

} // verus!
