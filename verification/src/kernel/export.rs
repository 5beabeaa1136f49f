//! Canonical bounded generation-transfer manifests.

use super::codec::{
    header, header_at, items_at, items_bytes, items_fit, items_read_back, items_write_back,
    read_items, refused_more, run_reads_back, take_at, u32_at, u32_reads_back, u32_writes_back, u64_at,
    u64_reads_back, u64_writes_back, u8_at, write_items, CanonicalDecodeError, CanonicalItem,
    DecodeErrorView, DecodeLimits, Decoder, Encoder, Field,
};
use crate::foundation::{Digest, GenerationId, VolumeId};
use crate::order::{same_bytes, views};
use crate::storage::{
    kind_tag, kind_tags_differ, object_before, object_lt, ObjectId, ObjectKind, ObjectView,
};
use vstd::bytes::*;
use vstd::prelude::*;
use vstd::string::*;

verus! {

/// Bounds that a volume puts on each of its generations.
#[derive(Clone, Copy, Debug, PartialEq, Eq, Structural)]
pub struct VolumeLimits {
    /// Most objects that one generation may refer to.
    pub maximum_objects_per_generation: u64,
    /// Most file records of one generation.
    pub maximum_files_per_generation: u64,
}

/// Immutable semantics of a volume that a transfer has to keep.
#[derive(Clone, Copy, Debug, PartialEq, Eq, Structural)]
pub struct VolumeConfig {
    /// Bounds on each generation.
    pub limits: VolumeLimits,
}

/// Invalid volume semantics.
#[derive(Clone, Copy, Debug, PartialEq, Eq, Structural)]
pub enum VolumeConfigError {
    /// A bound admits nothing.
    EmptyLimit,
}

/// Whether the bounds of a volume admit anything.
pub open spec fn config_valid(config: VolumeConfig) -> bool {
    config.limits.maximum_objects_per_generation > 0 && config.limits.maximum_files_per_generation
        > 0
}

impl VolumeConfig {
    /// Checks that every bound admits something.
    pub fn validate(&self) -> (r: Result<(), VolumeConfigError>)
        ensures
            r == (if config_valid(*self) {
                Ok::<(), VolumeConfigError>(())
            } else {
                Err::<(), VolumeConfigError>(VolumeConfigError::EmptyLimit)
            }),
    {
        if self.limits.maximum_objects_per_generation == 0
            || self.limits.maximum_files_per_generation == 0 {
            Err(VolumeConfigError::EmptyLimit)
        } else {
            Ok(())
        }
    }
}

/// Deterministic complete object manifest for one immutable generation.
#[derive(Debug, PartialEq, Eq)]
pub struct GenerationExportManifest {
    /// Owning volume identity.
    pub volume_id: VolumeId,
    /// Immutable per-volume semantics required for restoration.
    pub config: VolumeConfig,
    /// Typed immutable generation-root object.
    pub generation_root: ObjectId,
    /// Content-addressed generation identity.
    pub generation_id: GenerationId,
    /// Stable sorted complete closure, including `generation_root`.
    pub objects: Vec<ObjectId>,
    /// Number of reachable path-independent file records.
    pub file_count: u64,
}

/// Abstract value of [`GenerationExportManifest`].
#[verifier::ext_equal]
pub struct ManifestView {
    /// Owning volume identity.
    pub volume_id: Seq<u8>,
    /// Immutable per-volume semantics required for restoration.
    pub config: VolumeConfig,
    /// Typed immutable generation-root object.
    pub generation_root: ObjectView,
    /// Content-addressed generation identity.
    pub generation_id: Seq<u8>,
    /// Stable sorted complete closure, including `generation_root`.
    pub objects: Seq<ObjectView>,
    /// Number of reachable path-independent file records.
    pub file_count: u64,
}

impl View for GenerationExportManifest {
    type V = ManifestView;

    open spec fn view(&self) -> ManifestView {
        ManifestView {
            volume_id: self.volume_id.bytes@,
            config: self.config,
            generation_root: self.generation_root@,
            generation_id: self.generation_id.digest.bytes@,
            objects: views(self.objects@),
            file_count: self.file_count,
        }
    }
}

/// Fail-closed transfer-manifest validation and codec failures.
#[derive(Debug, PartialEq, Eq)]
pub enum GenerationExportManifestError {
    /// Volume semantics are invalid or unbounded.
    Config(VolumeConfigError),
    /// Canonical bytes are malformed, excessive, or unsupported.
    Decode(CanonicalDecodeError),
    /// The selected root is not a generation-root object.
    WrongRootKind,
    /// Generation identity must equal the generation-root digest.
    GenerationMismatch,
    /// Closure must contain the selected generation root.
    MissingRoot,
    /// Object identities must be in strict canonical order without duplicates.
    NonCanonicalObjectOrder,
    /// Closure exceeds either the volume or caller item bound.
    TooManyObjects,
    /// File count exceeds the immutable volume bound.
    TooManyFiles,
}

/// Abstract value of [`GenerationExportManifestError`].
#[verifier::ext_equal]
pub enum ManifestErrorView {
    /// Volume semantics are invalid or unbounded.
    Config(VolumeConfigError),
    /// Canonical bytes are malformed, excessive, or unsupported.
    Decode(DecodeErrorView),
    /// The selected root is not a generation-root object.
    WrongRootKind,
    /// Generation identity must equal the generation-root digest.
    GenerationMismatch,
    /// Closure must contain the selected generation root.
    MissingRoot,
    /// Object identities must be in strict canonical order without duplicates.
    NonCanonicalObjectOrder,
    /// Closure exceeds either the volume or caller item bound.
    TooManyObjects,
    /// File count exceeds the immutable volume bound.
    TooManyFiles,
}

impl View for GenerationExportManifestError {
    type V = ManifestErrorView;

    open spec fn view(&self) -> ManifestErrorView {
        match *self {
            GenerationExportManifestError::Config(error) => ManifestErrorView::Config(error),
            GenerationExportManifestError::Decode(error) => ManifestErrorView::Decode(error@),
            GenerationExportManifestError::WrongRootKind => ManifestErrorView::WrongRootKind,
            GenerationExportManifestError::GenerationMismatch => {
                ManifestErrorView::GenerationMismatch
            },
            GenerationExportManifestError::MissingRoot => ManifestErrorView::MissingRoot,
            GenerationExportManifestError::NonCanonicalObjectOrder => {
                ManifestErrorView::NonCanonicalObjectOrder
            },
            GenerationExportManifestError::TooManyObjects => ManifestErrorView::TooManyObjects,
            GenerationExportManifestError::TooManyFiles => ManifestErrorView::TooManyFiles,
        }
    }
}

/// Whether an identity strictly follows the one before it.
pub open spec fn object_follows(objects: Seq<ObjectView>, i: int) -> bool {
    object_lt(objects[i - 1], objects[i])
}

/// Whether identities are strictly in canonical order.
pub open spec fn objects_ordered(objects: Seq<ObjectView>) -> bool {
    forall|i: int| 0 < i < objects.len() ==> #[trigger] object_follows(objects, i)
}

/// Why a manifest is not valid.
pub open spec fn manifest_problem(manifest: ManifestView, maximum_objects: u64) -> Option<
    ManifestErrorView,
> {
    if !config_valid(manifest.config) {
        Some(ManifestErrorView::Config(VolumeConfigError::EmptyLimit))
    } else if manifest.generation_root.kind != ObjectKind::GenerationRoot {
        Some(ManifestErrorView::WrongRootKind)
    } else if manifest.generation_id != manifest.generation_root.digest {
        Some(ManifestErrorView::GenerationMismatch)
    } else if manifest.file_count > manifest.config.limits.maximum_files_per_generation {
        Some(ManifestErrorView::TooManyFiles)
    } else if manifest.objects.len() > maximum_objects || manifest.objects.len()
        > manifest.config.limits.maximum_objects_per_generation {
        Some(ManifestErrorView::TooManyObjects)
    } else if !manifest.objects.contains(manifest.generation_root) {
        Some(ManifestErrorView::MissingRoot)
    } else if !objects_ordered(manifest.objects) {
        Some(ManifestErrorView::NonCanonicalObjectOrder)
    } else {
        None
    }
}

/// Tells whether identities are strictly in canonical order.
fn strictly_ordered(objects: &Vec<ObjectId>) -> (r: bool)
    ensures
        r == objects_ordered(views(objects@)),
{
    let ghost all = views(objects@);
    let mut i: usize = 1;
    while i < objects.len()
        invariant
            1 <= i,
            all == views(objects@),
            forall|j: int| 0 < j < i && j < all.len() ==> #[trigger] object_follows(all, j),
        decreases objects@.len() - i,
    {
        assert(all[i - 1] == objects@[i - 1]@ && all[i as int] == objects@[i as int]@);
        if !object_before(&objects[i - 1], &objects[i]) {
            assert(!object_follows(all, i as int));
            return false;
        }
        i = i + 1;
    }
    true
}

/// Tells whether an identity is listed.
fn lists(objects: &Vec<ObjectId>, object: &ObjectId) -> (r: bool)
    ensures
        r == views(objects@).contains(object@),
{
    let ghost all = views(objects@);
    let mut i: usize = 0;
    while i < objects.len()
        invariant
            i <= objects@.len(),
            all == views(objects@),
            forall|j: int| 0 <= j < i ==> #[trigger] all[j] != object@,
        decreases objects@.len() - i,
    {
        assert(all[i as int] == objects@[i as int]@);
        if objects[i].same(object) {
            return true;
        }
        i = i + 1;
    }
    false
}

/// Validates one decoded or caller-constructed manifest without backend work.
pub fn validate_generation_export_manifest(
    manifest: &GenerationExportManifest,
    maximum_objects: u64,
) -> (r: Result<(), GenerationExportManifestError>)
    ensures
        match manifest_problem(manifest@, maximum_objects) {
            Some(e) => r matches Err(error) && error@ == e,
            None => r is Ok,
        },
{
    if let Err(error) = manifest.config.validate() {
        return Err(GenerationExportManifestError::Config(error));
    }
    if manifest.generation_root.kind != ObjectKind::GenerationRoot {
        return Err(GenerationExportManifestError::WrongRootKind);
    }
    if !same_bytes(
        manifest.generation_id.digest.bytes.as_slice(),
        manifest.generation_root.digest.bytes.as_slice(),
    ) {
        return Err(GenerationExportManifestError::GenerationMismatch);
    }
    if manifest.file_count > manifest.config.limits.maximum_files_per_generation {
        return Err(GenerationExportManifestError::TooManyFiles);
    }
    let count = manifest.objects.len() as u64;
    if count > maximum_objects || count > manifest.config.limits.maximum_objects_per_generation {
        return Err(GenerationExportManifestError::TooManyObjects);
    }
    if !lists(&manifest.objects, &manifest.generation_root) {
        return Err(GenerationExportManifestError::MissingRoot);
    }
    if !strictly_ordered(&manifest.objects) {
        return Err(GenerationExportManifestError::NonCanonicalObjectOrder);
    }
    Ok(())
}

/// Class with a given tag.
pub open spec fn kind_of(tag: u8) -> Option<ObjectKind> {
    if tag == 1 {
        Some(ObjectKind::BlobChunk)
    } else if tag == 2 {
        Some(ObjectKind::Blob)
    } else if tag == 3 {
        Some(ObjectKind::ExtentPage)
    } else if tag == 4 {
        Some(ObjectKind::TreePage)
    } else if tag == 5 {
        Some(ObjectKind::FileTablePage)
    } else if tag == 6 {
        Some(ObjectKind::AttributePage)
    } else if tag == 7 {
        Some(ObjectKind::Metadata)
    } else if tag == 8 {
        Some(ObjectKind::GenerationRoot)
    } else {
        None
    }
}

impl CanonicalItem for ObjectId {
    open spec fn item_fits(value: ObjectView, limits: DecodeLimits) -> bool {
        value.digest.len() == 32
    }

    open spec fn item_writable(value: ObjectView) -> bool {
        true
    }

    open spec fn item_bytes(value: ObjectView) -> Seq<u8> {
        seq![kind_tag(value.kind)] + value.digest
    }

    open spec fn item_at(bytes: Seq<u8>, at: int, limits: DecodeLimits) -> Field<ObjectView> {
        match u8_at(bytes, at) {
            Err(error) => Err(error),
            Ok((tag, at)) => match kind_of(tag) {
                None => Err(DecodeErrorView::Invariant("unknown object kind tag"@)),
                Some(kind) => match take_at(bytes, at, 32) {
                    Err(error) => Err(error),
                    Ok((digest, end)) => Ok((ObjectView { kind, digest }, end)),
                },
            },
        }
    }

    open spec fn skip_at(bytes: Seq<u8>, at: int, limits: DecodeLimits) -> Field<nat> {
        match Self::item_at(bytes, at, limits) {
            Err(error) => Err(error),
            Ok((_, end)) => Ok((0, end)),
        }
    }

    open spec fn nested(value: ObjectView) -> nat {
        0
    }

    proof fn item_reads_back(
        value: ObjectView,
        before: Seq<u8>,
        after: Seq<u8>,
        limits: DecodeLimits,
    ) {
        let tag = seq![kind_tag(value.kind)];
        let whole = before + (tag + value.digest) + after;
        assert(whole[before.len() as int] == kind_tag(value.kind));
        run_reads_back(value.digest, before + tag, after);
        assert(whole =~= (before + tag) + value.digest + after);
    }

    proof fn item_writes_back(bytes: Seq<u8>, at: int, limits: DecodeLimits) {
        let (value, end) = Self::item_at(bytes, at, limits)->Ok_0;
        assert(Self::item_bytes(value) =~= bytes.subrange(at, end));
    }

    proof fn skip_stays_within(bytes: Seq<u8>, at: int, limits: DecodeLimits) {
    }

    fn write_item(&self, encoder: &mut Encoder) -> (r: Result<(), CanonicalDecodeError>) {
        let ghost start = encoder@;
        encoder.u8(self.kind.canonical_tag());
        encoder.fixed(self.digest.bytes.as_slice());
        assert(encoder@ =~= start + Self::item_bytes(self@));
        Ok(())
    }

    fn read_item(decoder: &mut Decoder<'_>, limits: DecodeLimits) -> (r: Result<
        Self,
        CanonicalDecodeError,
    >) {
        let tag = match decoder.u8() {
            Ok(tag) => tag,
            Err(error) => {
                return Err(error);
            },
        };
        let kind = match ObjectKind::from_canonical_tag(tag) {
            Some(kind) => kind,
            None => {
                return Err(CanonicalDecodeError::Invariant("unknown object kind tag".to_owned()));
            },
        };
        assert(kind_of(tag) == Some(kind)) by {
            kind_tags_differ(kind, kind_of(tag)->0);
        }
        match decoder.fixed32() {
            Ok(digest) => Ok(ObjectId { kind, digest: Digest::from_bytes(digest) }),
            Err(error) => Err(error),
        }
    }

    fn skip_item(decoder: &mut Decoder<'_>, limits: DecodeLimits) -> (r: Result<
        usize,
        CanonicalDecodeError,
    >) {
        match Self::read_item(decoder, limits) {
            Ok(_) => Ok(0),
            Err(error) => Err(error),
        }
    }
}

/// First bytes of every manifest: `acyclic-fs-generation-export-v1` and a zero.
pub open spec fn manifest_domain() -> Seq<u8> {
    seq![
        97u8, 99, 121, 99, 108, 105, 99, 45, 102, 115, 45, 103, 101, 110, 101, 114, 97, 116, 105,
        111, 110, 45, 101, 120, 112, 111, 114, 116, 45, 118, 49, 0,
    ]
}

fn domain() -> (r: [u8; 32])
    ensures
        r@ == manifest_domain(),
{
    let r = [
        97u8, 99, 121, 99, 108, 105, 99, 45, 102, 115, 45, 103, 101, 110, 101, 114, 97, 116, 105,
        111, 110, 45, 101, 120, 112, 111, 114, 116, 45, 118, 49, 0,
    ];
    assert(r@ =~= manifest_domain());
    r
}

/// Canonical bytes in front of the objects of a manifest.
pub open spec fn manifest_front(manifest: ManifestView) -> Seq<u8> {
    header(manifest_domain(), 1) + manifest.volume_id + spec_u64_to_le_bytes(
        manifest.config.limits.maximum_objects_per_generation,
    ) + spec_u64_to_le_bytes(manifest.config.limits.maximum_files_per_generation)
        + ObjectId::item_bytes(manifest.generation_root) + manifest.generation_id
        + spec_u64_to_le_bytes(manifest.file_count) + spec_u32_to_le_bytes(
        manifest.objects.len() as u32,
    )
}

/// The canonical bytes of a manifest, or why it has none.
pub open spec fn manifest_encoded(manifest: ManifestView) -> Result<Seq<u8>, ManifestErrorView> {
    match manifest_problem(
        manifest,
        manifest.config.limits.maximum_objects_per_generation,
    ) {
        Some(error) => Err(error),
        None => if manifest.objects.len() > u32::MAX {
            Err(ManifestErrorView::TooManyObjects)
        } else {
            Ok(manifest_front(manifest) + items_bytes::<ObjectId>(manifest.objects))
        },
    }
}

/// Encodes one complete manifest.
pub fn encode_generation_export_manifest(manifest: &GenerationExportManifest) -> (r: Result<
    Vec<u8>,
    GenerationExportManifestError,
>)
    ensures
        match manifest_encoded(manifest@) {
            Ok(bytes) => r matches Ok(found) && found@ == bytes,
            Err(e) => r matches Err(error) && error@ == e,
        },
{
    if let Err(error) = validate_generation_export_manifest(
        manifest,
        manifest.config.limits.maximum_objects_per_generation,
    ) {
        return Err(error);
    }
    if manifest.objects.len() > u32::MAX as usize {
        return Err(GenerationExportManifestError::TooManyObjects);
    }
    let mut encoder = Encoder::new(domain().as_slice(), 1);
    encoder.fixed(manifest.volume_id.bytes.as_slice());
    encoder.u64(manifest.config.limits.maximum_objects_per_generation);
    encoder.u64(manifest.config.limits.maximum_files_per_generation);
    if let Err(error) = manifest.generation_root.write_item(&mut encoder) {
        return Err(GenerationExportManifestError::Decode(error));
    }
    encoder.fixed(manifest.generation_id.digest.bytes.as_slice());
    encoder.u64(manifest.file_count);
    encoder.u32(manifest.objects.len() as u32);
    assert(encoder@ =~= manifest_front(manifest@));
    match write_items(&manifest.objects, &mut encoder) {
        Ok(()) => Ok(encoder.finish()),
        Err(error) => Err(GenerationExportManifestError::Decode(error)),
    }
}

/// Bounds that play no part in reading identities.
pub open spec fn no_limits() -> DecodeLimits {
    DecodeLimits {
        maximum_object_bytes: 0,
        maximum_name_bytes: 0,
        maximum_page_items: 0,
        maximum_page_bytes: 0,
        maximum_page_height: 0,
        maximum_visited_pages: 0,
    }
}

/// A manifest without objects, the number of them, and where they begin.
pub open spec fn front_at(bytes: Seq<u8>, maximum_bytes: u64, maximum_objects: u64) -> Result<
    (ManifestView, u32, int),
    ManifestErrorView,
> {
    match header_at(bytes, manifest_domain(), 1, maximum_bytes) {
        Err(error) => Err(ManifestErrorView::Decode(error)),
        Ok(at) => match take_at(bytes, at, 16) {
            Err(error) => Err(ManifestErrorView::Decode(error)),
            Ok((volume_id, at)) => match u64_at(bytes, at) {
                Err(error) => Err(ManifestErrorView::Decode(error)),
                Ok((most_objects, at)) => match u64_at(bytes, at) {
                    Err(error) => Err(ManifestErrorView::Decode(error)),
                    Ok((most_files, at)) => {
                        let config = VolumeConfig {
                            limits: VolumeLimits {
                                maximum_objects_per_generation: most_objects,
                                maximum_files_per_generation: most_files,
                            },
                        };
                        if !config_valid(config) {
                            Err(ManifestErrorView::Config(VolumeConfigError::EmptyLimit))
                        } else {
                            rest_at(bytes, at, volume_id, config, maximum_objects)
                        }
                    },
                },
            },
        },
    }
}

/// The fields of a manifest behind its configuration, up to its objects.
pub open spec fn rest_at(
    bytes: Seq<u8>,
    at: int,
    volume_id: Seq<u8>,
    config: VolumeConfig,
    maximum_objects: u64,
) -> Result<(ManifestView, u32, int), ManifestErrorView> {
    match ObjectId::item_at(bytes, at, no_limits()) {
        Err(error) => Err(ManifestErrorView::Decode(error)),
        Ok((generation_root, at)) => match take_at(bytes, at, 32) {
            Err(error) => Err(ManifestErrorView::Decode(error)),
            Ok((generation_id, at)) => match u64_at(bytes, at) {
                Err(error) => Err(ManifestErrorView::Decode(error)),
                Ok((file_count, at)) => match u32_at(bytes, at) {
                    Err(error) => Err(ManifestErrorView::Decode(error)),
                    Ok((count, at)) => if count > maximum_objects || count
                        > config.limits.maximum_objects_per_generation {
                        Err(ManifestErrorView::TooManyObjects)
                    } else {
                        Ok(
                            (
                                ManifestView {
                                    volume_id,
                                    config,
                                    generation_root,
                                    generation_id,
                                    objects: Seq::empty(),
                                    file_count,
                                },
                                count,
                                at,
                            ),
                        )
                    },
                },
            },
        },
    }
}

/// The manifest that bytes stand for, or why they stand for none.
pub open spec fn manifest_decoded(bytes: Seq<u8>, maximum_bytes: u64, maximum_objects: u64) -> Result<
    ManifestView,
    ManifestErrorView,
> {
    match front_at(bytes, maximum_bytes, maximum_objects) {
        Err(error) => Err(error),
        Ok((front, count, at)) => match items_at::<ObjectId>(bytes, at, no_limits(), count as nat) {
            Err(error) => Err(ManifestErrorView::Decode(error)),
            Ok((objects, next)) => if next != bytes.len() {
                Err(ManifestErrorView::Decode(DecodeErrorView::TrailingBytes))
            } else {
                let manifest = ManifestView { objects, ..front };
                match manifest_problem(manifest, maximum_objects) {
                    Some(error) => Err(error),
                    None => Ok(manifest),
                }
            },
        },
    }
}

/// Reads everything in front of the objects of a manifest.
fn read_front<'a>(bytes: &'a [u8], maximum_bytes: u64, maximum_objects: u64) -> (r: Result<
    (GenerationExportManifest, u32, Decoder<'a>),
    GenerationExportManifestError,
>)
    ensures
        match front_at(bytes@, maximum_bytes, maximum_objects) {
            Ok((front, count, at)) => r matches Ok(found) && found.0@ == front && found.1 == count
                && found.2.wf() && found.2.bytes@ == bytes@ && found.2.cursor == at,
            Err(e) => r matches Err(error) && error@ == e,
        },
{
    let mut decoder = match Decoder::new(bytes, domain().as_slice(), 1, maximum_bytes) {
        Ok(decoder) => decoder,
        Err(error) => {
            return Err(GenerationExportManifestError::Decode(error));
        },
    };
    let volume_id = match decoder.fixed16() {
        Ok(volume_id) => VolumeId::from_bytes(volume_id),
        Err(error) => {
            return Err(GenerationExportManifestError::Decode(error));
        },
    };
    let maximum_objects_per_generation = match decoder.u64() {
        Ok(value) => value,
        Err(error) => {
            return Err(GenerationExportManifestError::Decode(error));
        },
    };
    let maximum_files_per_generation = match decoder.u64() {
        Ok(value) => value,
        Err(error) => {
            return Err(GenerationExportManifestError::Decode(error));
        },
    };
    let config = VolumeConfig {
        limits: VolumeLimits { maximum_objects_per_generation, maximum_files_per_generation },
    };
    if let Err(error) = config.validate() {
        return Err(GenerationExportManifestError::Config(error));
    }
    let limits = DecodeLimits {
        maximum_object_bytes: 0,
        maximum_name_bytes: 0,
        maximum_page_items: 0,
        maximum_page_bytes: 0,
        maximum_page_height: 0,
        maximum_visited_pages: 0,
    };
    let generation_root = match ObjectId::read_item(&mut decoder, limits) {
        Ok(root) => root,
        Err(error) => {
            return Err(GenerationExportManifestError::Decode(error));
        },
    };
    let generation_id = match decoder.fixed32() {
        Ok(digest) => GenerationId::new(Digest::from_bytes(digest)),
        Err(error) => {
            return Err(GenerationExportManifestError::Decode(error));
        },
    };
    let file_count = match decoder.u64() {
        Ok(value) => value,
        Err(error) => {
            return Err(GenerationExportManifestError::Decode(error));
        },
    };
    let count = match decoder.u32() {
        Ok(value) => value,
        Err(error) => {
            return Err(GenerationExportManifestError::Decode(error));
        },
    };
    if count as u64 > maximum_objects || count as u64
        > config.limits.maximum_objects_per_generation {
        return Err(GenerationExportManifestError::TooManyObjects);
    }
    let manifest = GenerationExportManifest {
        volume_id,
        config,
        generation_root,
        generation_id,
        objects: Vec::new(),
        file_count,
    };
    assert(manifest@.objects =~= Seq::<ObjectView>::empty());
    Ok((manifest, count, decoder))
}

/// Decodes one bounded canonical complete manifest.
pub fn decode_generation_export_manifest(
    bytes: &[u8],
    maximum_bytes: u64,
    maximum_objects: u64,
) -> (r: Result<GenerationExportManifest, GenerationExportManifestError>)
    ensures
        match manifest_decoded(bytes@, maximum_bytes, maximum_objects) {
            Ok(manifest) => r matches Ok(found) && found@ == manifest,
            Err(e) => r matches Err(error) && error@ == e,
        },
{
    let (front, count, mut decoder) = match read_front(bytes, maximum_bytes, maximum_objects) {
        Ok(found) => found,
        Err(error) => {
            return Err(error);
        },
    };
    let limits = DecodeLimits {
        maximum_object_bytes: 0,
        maximum_name_bytes: 0,
        maximum_page_items: 0,
        maximum_page_bytes: 0,
        maximum_page_height: 0,
        maximum_visited_pages: 0,
    };
    let objects = match read_items::<ObjectId>(&mut decoder, limits, count) {
        Ok(objects) => objects,
        Err(error) => {
            return Err(GenerationExportManifestError::Decode(error));
        },
    };
    if let Err(error) = decoder.finish() {
        return Err(GenerationExportManifestError::Decode(error));
    }
    let manifest = GenerationExportManifest { objects, ..front };
    match validate_generation_export_manifest(&manifest, maximum_objects) {
        Ok(()) => Ok(manifest),
        Err(error) => Err(error),
    }
}

/// Whether the identities of a manifest have their canonical length.
pub open spec fn manifest_sound(manifest: ManifestView) -> bool {
    &&& manifest.volume_id.len() == 16
    &&& manifest.generation_id.len() == 32
    &&& manifest.generation_root.digest.len() == 32
    &&& forall|i: int|
        0 <= i < manifest.objects.len() ==> (#[trigger] manifest.objects[i]).digest.len() == 32
}

/// A manifest that can be encoded and fits the bounds decodes to itself.
pub proof fn manifest_round_trip(manifest: ManifestView, maximum_bytes: u64, maximum_objects: u64)
    requires
        manifest_sound(manifest),
        manifest_encoded(manifest) is Ok,
        manifest_encoded(manifest)->Ok_0.len() <= maximum_bytes,
        manifest_encoded(manifest)->Ok_0.len() <= usize::MAX,
        manifest.objects.len() <= maximum_objects,
    ensures
        manifest_decoded(manifest_encoded(manifest)->Ok_0, maximum_bytes, maximum_objects) == Ok::<
            ManifestView,
            ManifestErrorView,
        >(manifest),
{
    lemma_auto_spec_u16_to_from_le_bytes();
    lemma_auto_spec_u32_to_from_le_bytes();
    lemma_auto_spec_u64_to_from_le_bytes();
    let bytes = manifest_encoded(manifest)->Ok_0;
    let limits = manifest.config.limits;
    let lead = header(manifest_domain(), 1);
    let a = manifest.volume_id;
    let b = spec_u64_to_le_bytes(limits.maximum_objects_per_generation);
    let c = spec_u64_to_le_bytes(limits.maximum_files_per_generation);
    let d = ObjectId::item_bytes(manifest.generation_root);
    let e = manifest.generation_id;
    let f = spec_u64_to_le_bytes(manifest.file_count);
    let g = spec_u32_to_le_bytes(manifest.objects.len() as u32);
    let body = items_bytes::<ObjectId>(manifest.objects);
    assert(lead.len() == 34);
    assert(d.len() == 33);
    assert(bytes.take(32) =~= manifest_domain());
    assert(bytes.subrange(32, 34) =~= spec_u16_to_le_bytes(1));
    run_reads_back(a, lead, b + c + d + e + f + g + body);
    assert(bytes =~= lead + a + (b + c + d + e + f + g + body));
    u64_reads_back(limits.maximum_objects_per_generation, lead + a, c + d + e + f + g + body);
    assert(bytes =~= (lead + a) + b + (c + d + e + f + g + body));
    u64_reads_back(limits.maximum_files_per_generation, lead + a + b, d + e + f + g + body);
    assert(bytes =~= (lead + a + b) + c + (d + e + f + g + body));
    ObjectId::item_reads_back(
        manifest.generation_root,
        lead + a + b + c,
        e + f + g + body,
        no_limits(),
    );
    assert(bytes =~= (lead + a + b + c) + d + (e + f + g + body));
    run_reads_back(e, lead + a + b + c + d, f + g + body);
    assert(bytes =~= (lead + a + b + c + d) + e + (f + g + body));
    u64_reads_back(manifest.file_count, lead + a + b + c + d + e, g + body);
    assert(bytes =~= (lead + a + b + c + d + e) + f + (g + body));
    u32_reads_back(manifest.objects.len() as u32, lead + a + b + c + d + e + f, body);
    assert(bytes =~= (lead + a + b + c + d + e + f) + g + body);
    let front = lead + a + b + c + d + e + f + g;
    assert(bytes =~= front + body + Seq::<u8>::empty());
    assert(items_fit::<ObjectId>(manifest.objects, no_limits()));
    items_read_back::<ObjectId>(manifest.objects, front, Seq::empty(), no_limits());
    assert(front.len() == 34 + 16 + 8 + 8 + 33 + 32 + 8 + 4);
    let found = front_at(bytes, maximum_bytes, maximum_objects);
    assert(found is Ok);
    assert(found->Ok_0.2 == front.len());
    assert(found->Ok_0.1 == manifest.objects.len());
    assert(ManifestView { objects: manifest.objects, ..found->Ok_0.0 } =~= manifest);
}

/// Canonical bytes of a manifest with bytes added at the end are refused: for their size
/// where that is not admitted, else for the bytes. Cut off, they are refused too.
pub proof fn manifest_bytes_are_whole(
    bytes: Seq<u8>,
    more: Seq<u8>,
    count: int,
    maximum_bytes: u64,
    maximum_objects: u64,
)
    requires
        manifest_decoded(bytes, maximum_bytes, maximum_objects) is Ok,
        more.len() > 0,
        bytes.len() + more.len() <= usize::MAX,
        0 <= count < bytes.len(),
    ensures
        manifest_decoded(bytes + more, maximum_bytes, maximum_objects) == Err::<
            ManifestView,
            ManifestErrorView,
        >(ManifestErrorView::Decode(refused_more(bytes + more, maximum_bytes))),
        manifest_decoded(bytes.take(count), maximum_bytes, maximum_objects) is Err,
{
    lemma_manifest_refuses_more(bytes, more, maximum_bytes, maximum_objects);
    if manifest_decoded(bytes.take(count), maximum_bytes, maximum_objects) is Ok {
        lemma_manifest_refuses_more(
            bytes.take(count),
            bytes.skip(count),
            maximum_bytes,
            maximum_objects,
        );
        assert(bytes.take(count) + bytes.skip(count) =~= bytes);
    }
}

proof fn lemma_manifest_refuses_more(
    bytes: Seq<u8>,
    more: Seq<u8>,
    maximum_bytes: u64,
    maximum_objects: u64,
)
    requires
        manifest_decoded(bytes, maximum_bytes, maximum_objects) is Ok,
        more.len() > 0,
        bytes.len() + more.len() <= usize::MAX,
    ensures
        manifest_decoded(bytes + more, maximum_bytes, maximum_objects) == Err::<
            ManifestView,
            ManifestErrorView,
        >(ManifestErrorView::Decode(refused_more(bytes + more, maximum_bytes))),
{
    lemma_auto_spec_u16_to_from_le_bytes();
    lemma_auto_spec_u32_to_from_le_bytes();
    lemma_auto_spec_u64_to_from_le_bytes();
    manifest_bytes_are_canonical(bytes, maximum_bytes, maximum_objects);
    let manifest = manifest_decoded(bytes, maximum_bytes, maximum_objects)->Ok_0;
    let whole = bytes + more;
    let limits = manifest.config.limits;
    let lead = header(manifest_domain(), 1);
    let a = manifest.volume_id;
    let b = spec_u64_to_le_bytes(limits.maximum_objects_per_generation);
    let c = spec_u64_to_le_bytes(limits.maximum_files_per_generation);
    let d = ObjectId::item_bytes(manifest.generation_root);
    let e = manifest.generation_id;
    let f = spec_u64_to_le_bytes(manifest.file_count);
    let g = spec_u32_to_le_bytes(manifest.objects.len() as u32);
    let body = items_bytes::<ObjectId>(manifest.objects);
    assert(lead.len() == 34);
    assert(d.len() == 33);
    assert(whole.take(32) =~= manifest_domain());
    assert(whole.subrange(32, 34) =~= spec_u16_to_le_bytes(1));
    run_reads_back(a, lead, b + c + d + e + f + g + (body + more));
    assert(whole =~= lead + a + (b + c + d + e + f + g + (body + more)));
    u64_reads_back(limits.maximum_objects_per_generation, lead + a, c + d + e + f + g + (body + more));
    assert(whole =~= (lead + a) + b + (c + d + e + f + g + (body + more)));
    u64_reads_back(limits.maximum_files_per_generation, lead + a + b, d + e + f + g + (body + more));
    assert(whole =~= (lead + a + b) + c + (d + e + f + g + (body + more)));
    ObjectId::item_reads_back(
        manifest.generation_root,
        lead + a + b + c,
        e + f + g + (body + more),
        no_limits(),
    );
    assert(whole =~= (lead + a + b + c) + d + (e + f + g + (body + more)));
    run_reads_back(e, lead + a + b + c + d, f + g + (body + more));
    assert(whole =~= (lead + a + b + c + d) + e + (f + g + (body + more)));
    u64_reads_back(manifest.file_count, lead + a + b + c + d + e, g + (body + more));
    assert(whole =~= (lead + a + b + c + d + e) + f + (g + (body + more)));
    u32_reads_back(manifest.objects.len() as u32, lead + a + b + c + d + e + f, body + more);
    assert(whole =~= (lead + a + b + c + d + e + f) + g + (body + more));
    let front = lead + a + b + c + d + e + f + g;
    assert(whole =~= front + body + more);
    assert(items_fit::<ObjectId>(manifest.objects, no_limits()));
    items_read_back::<ObjectId>(manifest.objects, front, more, no_limits());
    assert(front.len() == 34 + 16 + 8 + 8 + 33 + 32 + 8 + 4);
    let found = front_at(whole, maximum_bytes, maximum_objects);
    if whole.len() <= maximum_bytes {
        assert(found is Ok);
        assert(found->Ok_0.2 == front.len());
        assert(found->Ok_0.1 == manifest.objects.len());
        assert(ManifestView { objects: manifest.objects, ..found->Ok_0.0 } =~= manifest);
    }
}

/// Bytes that decode are the one encoding of what they decode to.
pub proof fn manifest_bytes_are_canonical(bytes: Seq<u8>, maximum_bytes: u64, maximum_objects: u64)
    requires
        manifest_decoded(bytes, maximum_bytes, maximum_objects) is Ok,
    ensures
        manifest_encoded(manifest_decoded(bytes, maximum_bytes, maximum_objects)->Ok_0) == Ok::<
            Seq<u8>,
            ManifestErrorView,
        >(bytes),
        manifest_sound(manifest_decoded(bytes, maximum_bytes, maximum_objects)->Ok_0),
{
    lemma_auto_spec_u16_to_from_le_bytes();
    let manifest = manifest_decoded(bytes, maximum_bytes, maximum_objects)->Ok_0;
    let (front, count, at) = front_at(bytes, maximum_bytes, maximum_objects)->Ok_0;
    u64_writes_back(bytes, 50);
    u64_writes_back(bytes, 58);
    ObjectId::item_writes_back(bytes, 66, no_limits());
    u64_writes_back(bytes, 131);
    u32_writes_back(bytes, 139);
    assert(at == 143);
    items_write_back::<ObjectId>(bytes, at, no_limits(), count as nat);
    assert(items_fit::<ObjectId>(manifest.objects, no_limits()));
    assert forall|i: int| 0 <= i < manifest.objects.len() implies (
    #[trigger] manifest.objects[i]).digest.len() == 32 by {
        assert(ObjectId::item_fits(manifest.objects[i], no_limits()));
    }
    let version = bytes.subrange(32, 34);
    assert(spec_u16_to_le_bytes(1) == version);
    assert(manifest_front(manifest) =~= bytes.take(143));
    assert(bytes =~= bytes.take(143) + bytes.subrange(143, bytes.len() as int));
}

} // verus!
