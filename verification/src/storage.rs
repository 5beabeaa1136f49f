//! Immutable content-addressed objects.

use crate::digest::{blake3_bytes, blake3_digest};
use crate::foundation::Digest;
use crate::order::{bytes_lt, position, same_bytes, Position, Replicate};
use crate::performance::{WorkBudget, WorkCounters};
use vstd::prelude::*;

verus! {

/// Class of an immutable object.
#[derive(Clone, Copy, Debug, PartialEq, Eq, PartialOrd, Ord, Hash, Structural)]
pub enum ObjectKind {
    /// Bounded piece of a byte stream.
    BlobChunk,
    /// Index over the chunks of a byte stream.
    Blob,
    /// Page of a sparse extent tree.
    ExtentPage,
    /// Page of a directory tree.
    TreePage,
    /// Page of a file table.
    FileTablePage,
    /// Page of a named-attribute tree.
    AttributePage,
    /// Canonical file metadata.
    Metadata,
    /// Root of a generation.
    GenerationRoot,
}

/// Stable tag of an object class.
pub open spec fn kind_tag(kind: ObjectKind) -> u8 {
    match kind {
        ObjectKind::BlobChunk => 1,
        ObjectKind::Blob => 2,
        ObjectKind::ExtentPage => 3,
        ObjectKind::TreePage => 4,
        ObjectKind::FileTablePage => 5,
        ObjectKind::AttributePage => 6,
        ObjectKind::Metadata => 7,
        ObjectKind::GenerationRoot => 8,
    }
}

impl ObjectKind {
    /// Stable tag.
    pub fn canonical_tag(self) -> (r: u8)
        ensures
            r == kind_tag(self),
    {
        match self {
            ObjectKind::BlobChunk => 1,
            ObjectKind::Blob => 2,
            ObjectKind::ExtentPage => 3,
            ObjectKind::TreePage => 4,
            ObjectKind::FileTablePage => 5,
            ObjectKind::AttributePage => 6,
            ObjectKind::Metadata => 7,
            ObjectKind::GenerationRoot => 8,
        }
    }

    /// Class with a given tag.
    pub fn from_canonical_tag(tag: u8) -> (r: Option<Self>)
        ensures
            r matches Some(kind) ==> kind_tag(kind) == tag,
            r is None ==> forall|kind: ObjectKind| #[trigger] kind_tag(kind) != tag,
            r is Some == (1 <= tag <= 8),
    {
        match tag {
            1 => Some(ObjectKind::BlobChunk),
            2 => Some(ObjectKind::Blob),
            3 => Some(ObjectKind::ExtentPage),
            4 => Some(ObjectKind::TreePage),
            5 => Some(ObjectKind::FileTablePage),
            6 => Some(ObjectKind::AttributePage),
            7 => Some(ObjectKind::Metadata),
            8 => Some(ObjectKind::GenerationRoot),
            _ => None,
        }
    }
}

/// A tag names one class.
pub proof fn kind_tags_differ(a: ObjectKind, b: ObjectKind)
    requires
        kind_tag(a) == kind_tag(b),
    ensures
        a == b,
{
}

/// Typed identity of an immutable object.
#[derive(Clone, Copy, Debug, Eq, PartialOrd, Ord, Hash)]
pub struct ObjectId {
    /// Class of the object.
    pub kind: ObjectKind,
    /// Digest of its canonical bytes.
    pub digest: Digest,
}

/// Abstract value of [`ObjectId`].
#[verifier::ext_equal]
pub struct ObjectView {
    /// Class of the object.
    pub kind: ObjectKind,
    /// Digest of its canonical bytes.
    pub digest: Seq<u8>,
}

impl View for ObjectId {
    type V = ObjectView;

    open spec fn view(&self) -> ObjectView {
        ObjectView { kind: self.kind, digest: self.digest.bytes@ }
    }
}

impl PartialEq for ObjectId {
    fn eq(&self, other: &Self) -> (r: bool) {
        self.kind == other.kind && self.digest == other.digest
    }
}

impl vstd::std_specs::cmp::PartialEqSpecImpl for ObjectId {
    open spec fn obeys_eq_spec() -> bool {
        true
    }

    open spec fn eq_spec(&self, other: &Self) -> bool {
        *self == *other
    }
}

impl Replicate for ObjectId {
    fn replicate(&self) -> (r: Self) {
        *self
    }
}

/// Identities with equal abstract values are equal.
pub proof fn lemma_object_view(a: ObjectId, b: ObjectId)
    ensures
        (a@ == b@) == (a == b),
{
    broadcast use vstd::array::group_array_axioms;

    if a@ == b@ {
        assert(a.digest.bytes =~= b.digest.bytes);
    }
}

impl ObjectId {
    /// Tells whether two identities are equal.
    pub fn same(&self, other: &Self) -> (r: bool)
        ensures
            r == (self@ == other@),
    {
        proof {
            lemma_object_view(*self, *other);
        }
        self.kind == other.kind && same_bytes(
            self.digest.bytes.as_slice(),
            other.digest.bytes.as_slice(),
        )
    }
}

/// Canonical order of identities: by class, then by digest.
pub open spec fn object_lt(a: ObjectView, b: ObjectView) -> bool {
    kind_tag(a.kind) < kind_tag(b.kind) || (kind_tag(a.kind) == kind_tag(b.kind) && bytes_lt(
        a.digest,
        b.digest,
    ))
}

/// Tells whether one identity precedes another.
pub fn object_before(a: &ObjectId, b: &ObjectId) -> (r: bool)
    ensures
        r == object_lt(a@, b@),
{
    let left = a.kind.canonical_tag();
    let right = b.kind.canonical_tag();
    if left != right {
        return left < right;
    }
    let at = position(a.digest.bytes.as_slice(), b.digest.bytes.as_slice());
    proof {
        crate::order::lemma_bytes_lt_irreflexive(a.digest.bytes@);
        if bytes_lt(b.digest.bytes@, a.digest.bytes@) && bytes_lt(a.digest.bytes@, b.digest.bytes@) {
            crate::order::lemma_bytes_lt_transitive(
                a.digest.bytes@,
                b.digest.bytes@,
                a.digest.bytes@,
            );
        }
    }
    match at {
        Position::Before => true,
        _ => false,
    }
}

/// Bytes whose digest identifies an object: its class tag, then its contents.
pub open spec fn object_preimage(kind: ObjectKind, bytes: Seq<u8>) -> Seq<u8> {
    seq![kind_tag(kind)] + bytes
}

/// Bytes added in front of an object before it is hashed.
pub const OBJECT_DIGEST_ENVELOPE_BYTES: u64 = 1;

/// The identity of an object.
pub open spec fn object_named(kind: ObjectKind, bytes: Seq<u8>) -> ObjectView {
    ObjectView { kind, digest: blake3_digest(object_preimage(kind, bytes)) }
}

/// Computes the digest of an object.
pub fn object_digest(kind: ObjectKind, bytes: &[u8]) -> (r: Digest)
    ensures
        r.bytes@ == blake3_digest(object_preimage(kind, bytes@)),
{
    let mut preimage: Vec<u8> = Vec::new();
    preimage.push(kind.canonical_tag());
    let mut i: usize = 0;
    assert(preimage@ =~= object_preimage(kind, bytes@.take(0)));
    while i < bytes.len()
        invariant
            i <= bytes@.len(),
            preimage@ =~= object_preimage(kind, bytes@.take(i as int)),
        decreases bytes@.len() - i,
    {
        preimage.push(bytes[i]);
        assert(bytes@.take(i + 1) =~= bytes@.take(i as int).push(bytes@[i as int]));
        i = i + 1;
    }
    assert(bytes@.take(i as int) =~= bytes@);
    Digest::from_bytes(blake3_bytes(preimage.as_slice()))
}

/// Computes the identity of an object.
pub fn object_id(kind: ObjectKind, bytes: &[u8]) -> (r: ObjectId)
    ensures
        r@ == object_named(kind, bytes@),
{
    ObjectId { kind, digest: object_digest(kind, bytes) }
}

/// A byte range.
#[derive(Clone, Copy, Debug, PartialEq, Eq, Hash, Structural)]
pub struct ByteRange {
    /// First byte.
    pub offset: u64,
    /// Number of bytes.
    pub length: u64,
}

/// Failure of an object store.
#[derive(Clone, Copy, Debug, PartialEq, Eq, Structural)]
pub enum ObjectStoreError {
    /// The object is absent.
    Missing,
    /// The object does not match its identity.
    Corrupt,
    /// The object exceeds the admitted bytes.
    TooLarge,
    /// The work exceeds the admitted budget.
    OverBudget,
    /// The operation was cancelled.
    Cancelled,
    /// The backend failed.
    Backend,
}

/// What a read holds on to.
#[derive(Clone, Copy, Debug, PartialEq, Eq, Structural)]
pub enum ObjectReadRetention {
    /// Shared bytes that cost nothing.
    Shared,
    /// Bytes of the reader's own.
    Owned {
        /// Logical size of the buffer.
        logical_bytes: u64,
    },
}

/// Bytes of an object and what reading them took.
#[derive(Debug, PartialEq, Eq)]
pub struct ObjectRead {
    /// Canonical bytes.
    pub bytes: Vec<u8>,
    /// What the read holds on to.
    pub retention: ObjectReadRetention,
    /// Backend work.
    pub work: WorkCounters,
}

/// Abstract value of [`ObjectRead`].
#[verifier::ext_equal]
pub struct ReadView {
    /// Canonical bytes.
    pub bytes: Seq<u8>,
    /// What the read holds on to.
    pub retention: ObjectReadRetention,
    /// Backend work.
    pub work: WorkCounters,
}

impl View for ObjectRead {
    type V = ReadView;

    open spec fn view(&self) -> ReadView {
        ReadView { bytes: self.bytes@, retention: self.retention, work: self.work }
    }
}

/// A failed read and the backend work it took.
#[derive(Clone, Copy, Debug, PartialEq, Eq, Structural)]
pub struct ObjectFailure {
    /// What went wrong.
    pub error: ObjectStoreError,
    /// Backend work.
    pub work: WorkCounters,
}

/// A request for one object.
#[derive(Clone, Copy, Debug, PartialEq, Eq)]
pub struct ReadRequest {
    /// Object to read.
    pub object: ObjectId,
    /// Largest admitted object.
    pub maximum_bytes: u64,
    /// Work that the backend may spend.
    pub remaining: WorkBudget,
}

/// Abstract value of [`ReadRequest`].
#[verifier::ext_equal]
pub struct RequestView {
    /// Object to read.
    pub object: ObjectView,
    /// Largest admitted object.
    pub maximum_bytes: u64,
    /// Work that the backend may spend.
    pub remaining: WorkBudget,
}

impl View for ReadRequest {
    type V = RequestView;

    open spec fn view(&self) -> RequestView {
        RequestView {
            object: self.object@,
            maximum_bytes: self.maximum_bytes,
            remaining: self.remaining,
        }
    }
}

/// A store whose reads answer at once.
pub trait ImmediateObjectStore: Sized {
    /// What the store answers to a request.
    spec fn answers(&self, request: RequestView) -> Result<ReadView, ObjectFailure>;

    /// Reads one object.
    fn read(&self, request: &ReadRequest) -> (r: Result<ObjectRead, ObjectFailure>)
        ensures
            match self.answers(request@) {
                Ok(read) => r matches Ok(found) && found@ == read,
                Err(failure) => r == Err::<ObjectRead, ObjectFailure>(failure),
            },
    ;
}

/// Objects held in memory.
pub struct MemoryObjectStore {
    objects: Vec<(ObjectId, Vec<u8>)>,
    log: Ghost<Seq<Put>>,
}

impl View for MemoryObjectStore {
    type V = Seq<(ObjectView, Seq<u8>)>;

    closed spec fn view(&self) -> Seq<(ObjectView, Seq<u8>)> {
        Seq::new(self.objects@.len(), |i: int| (self.objects@[i].0@, self.objects@[i].1@))
    }
}

/// Contents of an object among the first `count` held, the latest first.
pub open spec fn held(
    objects: Seq<(ObjectView, Seq<u8>)>,
    object: ObjectView,
    count: nat,
) -> Option<Seq<u8>>
    decreases count,
{
    if count == 0 {
        None
    } else if objects[count - 1].0 == object {
        Some(objects[count - 1].1)
    } else {
        held(objects, object, (count - 1) as nat)
    }
}

/// What a memory store answers.
pub open spec fn memory_answer(
    objects: Seq<(ObjectView, Seq<u8>)>,
    request: RequestView,
) -> Result<ReadView, ObjectFailure> {
    match held(objects, request.object, objects.len()) {
        None => Err(
            ObjectFailure {
                error: ObjectStoreError::Missing,
                work: crate::performance::no_work(),
            },
        ),
        Some(bytes) => {
            let work = WorkCounters {
                object_bytes_read: bytes.len() as u64,
                ..crate::performance::no_work()
            };
            if bytes.len() > request.maximum_bytes {
                Err(
                    ObjectFailure {
                        error: ObjectStoreError::TooLarge,
                        work: crate::performance::no_work(),
                    },
                )
            } else if !crate::performance::within(work, request.remaining) {
                Err(
                    ObjectFailure {
                        error: ObjectStoreError::OverBudget,
                        work: crate::performance::no_work(),
                    },
                )
            } else {
                Ok(ReadView { bytes, retention: ObjectReadRetention::Shared, work })
            }
        },
    }
}

impl MemoryObjectStore {
    /// Creates an empty store.
    pub fn new() -> (r: Self)
        ensures
            r@ == Seq::<(ObjectView, Seq<u8>)>::empty(),
    {
        let r = MemoryObjectStore { objects: Vec::new(), log: Ghost(Seq::empty()) };
        assert(r@ =~= Seq::<(ObjectView, Seq<u8>)>::empty());
        r
    }

    /// Where an object is held.
    fn find(&self, object: &ObjectId) -> (r: Option<usize>)
        ensures
            match r {
                Some(i) => i < self@.len() && held(self@, object@, self@.len()) == Some(
                    self@[i as int].1,
                ),
                None => held(self@, object@, self@.len()) is None,
            },
    {
        let mut i: usize = self.objects.len();
        while i > 0
            invariant
                i <= self.objects@.len(),
                held(self@, object@, self@.len()) == held(self@, object@, i as nat),
            decreases i,
        {
            assert(self@[i - 1] == (self.objects@[i - 1].0@, self.objects@[i - 1].1@));
            if self.objects[i - 1].0.same(object) {
                return Some(i - 1);
            }
            i = i - 1;
        }
        None
    }

    /// Adds an object under the identity of its bytes, unless other bytes are held
    /// under it.
    pub fn insert(&mut self, kind: ObjectKind, bytes: &[u8]) -> (r: Option<ObjectId>)
        ensures
            match held(old(self)@, object_named(kind, bytes@), old(self)@.len()) {
                None => r matches Some(object) && object@ == object_named(kind, bytes@)
                    && final(self)@ == old(self)@.push((object@, bytes@)),
                Some(found) => final(self)@ == old(self)@ && (if found == bytes@ {
                    r matches Some(object) && object@ == object_named(kind, bytes@)
                } else {
                    r is None
                }),
            },
    {
        let object = object_id(kind, bytes);
        match self.find(&object) {
            Some(i) => {
                assert(self@[i as int] == (self.objects@[i as int].0@, self.objects@[i as int].1@));
                if same_bytes(self.objects[i].1.as_slice(), bytes) {
                    Some(object)
                } else {
                    None
                }
            },
            None => {
                let ghost before = self@;
                let copy = vstd::slice::slice_to_vec(bytes);
                self.objects.push((object, copy));
                assert(self@ =~= before.push((object@, bytes@)));
                Some(object)
            },
        }
    }
}

impl ImmediateObjectStore for MemoryObjectStore {
    open spec fn answers(&self, request: RequestView) -> Result<ReadView, ObjectFailure> {
        memory_answer(self@, request)
    }

    fn read(&self, request: &ReadRequest) -> (r: Result<ObjectRead, ObjectFailure>) {
        let at = match self.find(&request.object) {
            Some(at) => at,
            None => {
                return Err(
                    ObjectFailure {
                        error: ObjectStoreError::Missing,
                        work: WorkCounters::default(),
                    },
                );
            },
        };
        let entry = &self.objects[at];
        assert(self@[at as int] == (entry.0@, entry.1@));
        let size = entry.1.len() as u64;
        let work = WorkCounters::of_object_bytes_read(size);
        if size > request.maximum_bytes {
            return Err(
                ObjectFailure { error: ObjectStoreError::TooLarge, work: WorkCounters::default() },
            );
        }
        if let Err(_) = work.verify(request.remaining) {
            return Err(
                ObjectFailure {
                    error: ObjectStoreError::OverBudget,
                    work: WorkCounters::default(),
                },
            );
        }
        Ok(
            ObjectRead {
                bytes: vstd::slice::slice_to_vec(entry.1.as_slice()),
                retention: ObjectReadRetention::Shared,
                work,
            },
        )
    }
}

/// Contents of the objects of a store.
pub type Objects = spec_fn(ObjectView) -> Option<Seq<u8>>;

/// Whether every object of one store is held by another.
pub open spec fn extends(before: Objects, after: Objects) -> bool {
    forall|object: ObjectView| (#[trigger] before(object)) is Some ==> after(object) == before(object)
}

/// One object handed to a store, and the reply.
#[verifier::ext_equal]
pub struct Put {
    /// Identity of the object.
    pub object: ObjectView,
    /// Canonical bytes.
    pub bytes: Seq<u8>,
    /// Work that the backend may spend.
    pub remaining: WorkBudget,
    /// What the store replied.
    pub reply: Result<WorkCounters, ObjectFailure>,
    /// What the store answers from then on.
    pub answers: Answers,
}

/// What a store answers to every request.
pub type Answers = spec_fn(RequestView) -> Result<ReadView, ObjectFailure>;

/// What a store answers.
pub open spec fn answering<S: ImmediateObjectStore>(store: S) -> Answers {
    |request: RequestView| store.answers(request)
}

/// A record of puts.
pub type PutLog = Seq<Put>;

/// Whether a record of puts goes on from another.
pub open spec fn logged(before: Seq<Put>, after: Seq<Put>) -> bool {
    before.len() <= after.len() && after.take(before.len() as int) == before
}

/// Records of puts go on from each other in turn.
pub proof fn lemma_logged(first: Seq<Put>, second: Seq<Put>, third: Seq<Put>)
    requires
        logged(first, second),
        logged(second, third),
    ensures
        logged(first, third),
{
    assert(third.take(first.len() as int) =~= third.take(second.len() as int).take(
        first.len() as int,
    ));
}

/// Whether the last of some new puts was refused with an error.
pub open spec fn put_refused(before: Seq<Put>, after: Seq<Put>, error: ObjectStoreError) -> bool {
    before.len() < after.len() && (after.last().reply matches Err(failure) && failure.error
        == error)
}

/// Work that a put took.
pub open spec fn put_work(put: Put) -> WorkCounters {
    match put.reply {
        Ok(work) => work,
        Err(failure) => failure.work,
    }
}

/// A store that immutable objects can be added to.
pub trait ObjectStore: ImmediateObjectStore {
    /// What the store holds.
    spec fn contents(&self) -> Objects;

    /// Every object handed to the store so far, with the replies.
    spec fn puts(&self) -> PutLog;

    /// Reads are answered from what the store holds.
    proof fn answers_from_contents(&self, request: RequestView)
        ensures
            self.answers(request) matches Ok(read) ==> (self.contents())(request.object) == Some(
                read.bytes,
            ),
    ;

    /// Adds one object, which must be named after its bytes.
    fn put(&mut self, object: ObjectId, bytes: &[u8], remaining: WorkBudget) -> (r: Result<
        WorkCounters,
        ObjectFailure,
    >)
        requires
            object@ == object_named(object.kind, bytes@),
        ensures
            extends(old(self).contents(), final(self).contents()),
            r is Ok ==> (final(self).contents())(object@) == Some(bytes@),
            final(self).puts() == old(self).puts().push(
                (Put {
                    object: object@,
                    bytes: bytes@,
                    remaining,
                    reply: r,
                    answers: answering(*final(self)),
                }),
            ),
    ;
}

/// What a memory store holds.
pub open spec fn memory_contents(objects: Seq<(ObjectView, Seq<u8>)>) -> Objects {
    |object: ObjectView| held(objects, object, objects.len())
}

proof fn lemma_held_push(
    objects: Seq<(ObjectView, Seq<u8>)>,
    added: (ObjectView, Seq<u8>),
    object: ObjectView,
    count: nat,
)
    requires
        count <= objects.len(),
    ensures
        held(objects.push(added), object, count) == held(objects, object, count),
    decreases count,
{
    if count > 0 {
        lemma_held_push(objects, added, object, (count - 1) as nat);
    }
}

impl ObjectStore for MemoryObjectStore {
    open spec fn contents(&self) -> Objects {
        memory_contents(self@)
    }

    closed spec fn puts(&self) -> PutLog {
        self.log@
    }

    proof fn answers_from_contents(&self, request: RequestView) {
    }

    fn put(&mut self, object: ObjectId, bytes: &[u8], remaining: WorkBudget) -> (r: Result<
        WorkCounters,
        ObjectFailure,
    >)
        ensures
            (r is Err) == (held(old(self)@, object@, old(self)@.len()) matches Some(found) && found
                != bytes@),
            r matches Err(failure) ==> failure.error == ObjectStoreError::Corrupt,
            r matches Ok(work) ==> work == crate::performance::no_work(),
    {
        let ghost before = self@;
        let ghost log = self.log@;
        let inserted = self.insert(object.kind, bytes);
        proof {
            let after = self@;
            if after != before {
                assert forall|one: ObjectView| (#[trigger] memory_contents(before)(
                    one,
                )) is Some implies memory_contents(after)(one) == memory_contents(before)(one) by {
                    lemma_held_push(before, after.last(), one, before.len());
                    assert(after.drop_last() =~= before);
                }
            }
        }
        let reply = match inserted {
            Some(_) => Ok(WorkCounters::default()),
            None => Err(
                ObjectFailure { error: ObjectStoreError::Corrupt, work: WorkCounters::default() },
            ),
        };
        let ghost answers = answering(*self);
        self.log = Ghost(
            log.push(Put { object: object@, bytes: bytes@, remaining, reply, answers }),
        );
        assert(answers =~= answering(*self));
        reply
    }
}

} // verus!
