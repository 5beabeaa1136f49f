//! Authenticated named attributes, alternate streams, and resource forks.

use super::codec::{
    bounded, bounded_at, bounded_reads_back, bounded_writes_back, page_at, page_bytes, page_fits,
    page_reads_back, page_refuses_less, page_refuses_more, page_shape, page_writable,
    page_writes_back, read_page, read_shape, refused_more, run_reads_back, stands_for, take_at,
    u64_at, u64_reads_back, u64_writes_back, u8_at, write_entries, CanonicalDecodeError,
    CanonicalItem, DecodeErrorView, DecodeLimits, DecodedPageShape, Decoder, Encoder, Field,
    Format, Page, PageFormat, PageView,
};
use crate::foundation::Digest;
use crate::order::{
    bytes_lt, lemma_bytes_lt_irreflexive, lemma_bytes_lt_total, lemma_bytes_lt_transitive,
    position, views, Position, Replicate,
};
use crate::storage::{object_id, object_named, ObjectId, ObjectKind, ObjectView};
use crate::text::{decimal, decimal_text, text_pair};
use vstd::bytes::*;
use vstd::prelude::*;
use vstd::string::*;

verus! {

/// Source semantics of one named metadata payload.
#[derive(Clone, Copy, Debug, PartialEq, Eq, PartialOrd, Ord, Structural)]
pub enum AttributeClass {
    /// POSIX extended attribute.
    PosixXattr,
    /// Windows alternate data stream.
    WindowsStream,
    /// macOS resource fork or Finder metadata stream.
    MacResourceFork,
}

/// Stable tag of a class.
pub open spec fn class_tag(class: AttributeClass) -> u8 {
    match class {
        AttributeClass::PosixXattr => 1,
        AttributeClass::WindowsStream => 2,
        AttributeClass::MacResourceFork => 3,
    }
}

/// Class with a given tag.
pub open spec fn class_of(tag: u8) -> Option<AttributeClass> {
    if tag == 1 {
        Some(AttributeClass::PosixXattr)
    } else if tag == 2 {
        Some(AttributeClass::WindowsStream)
    } else if tag == 3 {
        Some(AttributeClass::MacResourceFork)
    } else {
        None
    }
}

impl AttributeClass {
    /// Stable tag.
    pub fn tag(self) -> (r: u8)
        ensures
            r == class_tag(self),
    {
        match self {
            AttributeClass::PosixXattr => 1,
            AttributeClass::WindowsStream => 2,
            AttributeClass::MacResourceFork => 3,
        }
    }

    /// Class with a given tag.
    pub fn from_tag(tag: u8) -> (r: Result<Self, AttributeError>)
        ensures
            r == (match class_of(tag) {
                Some(class) => Ok::<AttributeClass, AttributeError>(class),
                None => Err::<AttributeClass, AttributeError>(AttributeError::UnknownClass(tag)),
            }),
    {
        match tag {
            1 => Ok(AttributeClass::PosixXattr),
            2 => Ok(AttributeClass::WindowsStream),
            3 => Ok(AttributeClass::MacResourceFork),
            value => Err(AttributeError::UnknownClass(value)),
        }
    }
}

/// Named-attribute invariant failures.
#[derive(Clone, Copy, Debug, PartialEq, Eq, Structural)]
pub enum AttributeError {
    /// Attribute class tag is unknown.
    UnknownClass(u8),
    /// Name is empty, oversized, or contains NUL.
    InvalidName,
    /// Page ordering or referenced object class is invalid.
    InvalidPage,
    /// Page exceeds its admitted item bound.
    TooManyItems,
}

/// Stable description of an invariant failure.
pub open spec fn attribute_reason(error: AttributeError) -> Seq<char> {
    match error {
        AttributeError::UnknownClass(tag) => "unknown attribute class "@ + decimal(tag as nat),
        AttributeError::InvalidName => "attribute name is invalid"@,
        AttributeError::InvalidPage => "attribute page is invalid"@,
        AttributeError::TooManyItems => "attribute page exceeds its item bound"@,
    }
}

impl AttributeError {
    /// Stable description.
    pub fn message(self) -> (r: String)
        ensures
            r@ == attribute_reason(self),
    {
        match self {
            AttributeError::UnknownClass(tag) => {
                let number = decimal_text(tag as u64);
                text_pair("unknown attribute class ", number.as_str())
            },
            AttributeError::InvalidName => "attribute name is invalid".to_owned(),
            AttributeError::InvalidPage => "attribute page is invalid".to_owned(),
            AttributeError::TooManyItems => "attribute page exceeds its item bound".to_owned(),
        }
    }
}

/// An invariant failure as a decoding failure.
pub open spec fn attribute_failure(error: AttributeError) -> DecodeErrorView {
    DecodeErrorView::Invariant(attribute_reason(error))
}

fn broken(error: AttributeError) -> (r: CanonicalDecodeError)
    ensures
        r@ == attribute_failure(error),
{
    CanonicalDecodeError::Invariant(error.message())
}

/// Canonical namespace plus raw, separator-independent attribute name.
#[derive(Debug, PartialEq, Eq, PartialOrd, Ord)]
pub struct AttributeName {
    class: AttributeClass,
    bytes: Vec<u8>,
}

/// Abstract value of [`AttributeName`].
#[verifier::ext_equal]
pub struct AttributeNameView {
    /// Source semantics.
    pub class: AttributeClass,
    /// Exact canonical name bytes.
    pub bytes: Seq<u8>,
}

impl View for AttributeName {
    type V = AttributeNameView;

    closed spec fn view(&self) -> AttributeNameView {
        AttributeNameView { class: self.class, bytes: self.bytes@ }
    }
}

/// Whether bytes name an attribute: some, without NUL, and not too many.
pub open spec fn attribute_named(bytes: Seq<u8>, maximum: u32) -> bool {
    bytes.len() > 0 && !bytes.contains(0u8) && bytes.len() <= maximum
}

/// Canonical order of names: by class, then by bytes.
pub open spec fn name_lt(a: AttributeNameView, b: AttributeNameView) -> bool {
    class_tag(a.class) < class_tag(b.class) || (a.class == b.class && bytes_lt(a.bytes, b.bytes))
}

/// The order of names is strict, transitive and total.
pub proof fn lemma_name_order(a: AttributeNameView, b: AttributeNameView, c: AttributeNameView)
    ensures
        !name_lt(a, a),
        name_lt(a, b) && name_lt(b, c) ==> name_lt(a, c),
        name_lt(a, b) || name_lt(b, a) || a == b,
        !(name_lt(a, b) && name_lt(b, a)),
{
    lemma_bytes_lt_irreflexive(a.bytes);
    if bytes_lt(a.bytes, b.bytes) && bytes_lt(b.bytes, c.bytes) {
        lemma_bytes_lt_transitive(a.bytes, b.bytes, c.bytes);
    }
    if bytes_lt(a.bytes, b.bytes) && bytes_lt(b.bytes, a.bytes) {
        lemma_bytes_lt_transitive(a.bytes, b.bytes, a.bytes);
    }
    lemma_bytes_lt_total(a.bytes, b.bytes);
    if a.class == b.class && a.bytes == b.bytes {
        assert(a == b);
    }
}

impl Replicate for AttributeName {
    fn replicate(&self) -> (r: Self) {
        AttributeName {
            class: self.class,
            bytes: vstd::slice::slice_to_vec(self.bytes.as_slice()),
        }
    }
}

impl Clone for AttributeName {
    fn clone(&self) -> (r: Self)
        ensures
            r@ == self@,
    {
        self.replicate()
    }
}

/// Tells whether a byte string contains NUL.
fn has_nul(bytes: &[u8]) -> (r: bool)
    ensures
        r == bytes@.contains(0u8),
{
    let mut i: usize = 0;
    while i < bytes.len()
        invariant
            i <= bytes@.len(),
            forall|j: int| 0 <= j < i ==> bytes@[j] != 0u8,
        decreases bytes@.len() - i,
    {
        if bytes[i] == 0 {
            assert(bytes@[i as int] == 0u8);
            return true;
        }
        i = i + 1;
    }
    false
}

impl AttributeName {
    /// Validates an exact bounded attribute name.
    pub fn new(class: AttributeClass, bytes: Vec<u8>, maximum_bytes: u32) -> (r: Result<
        Self,
        AttributeError,
    >)
        ensures
            r is Ok == attribute_named(bytes@, maximum_bytes),
            r matches Ok(name) ==> name@ == (AttributeNameView { class, bytes: bytes@ }),
            r matches Err(error) ==> error == AttributeError::InvalidName,
    {
        if bytes.len() == 0 || has_nul(bytes.as_slice()) || bytes.len() > maximum_bytes as usize {
            return Err(AttributeError::InvalidName);
        }
        Ok(AttributeName { class, bytes })
    }

    /// Source semantics.
    pub fn class(&self) -> (r: AttributeClass)
        ensures
            r == self@.class,
    {
        self.class
    }

    /// Exact canonical name bytes.
    pub fn as_bytes(&self) -> (r: &[u8])
        ensures
            r@ == self@.bytes,
    {
        self.bytes.as_slice()
    }

    /// Compares two names in canonical order.
    pub fn placed(&self, other: &Self) -> (r: Position)
        ensures
            match r {
                Position::Before => name_lt(self@, other@),
                Position::Same => self@ == other@,
                Position::After => name_lt(other@, self@),
            },
    {
        let left = self.class.tag();
        let right = other.class.tag();
        if left < right {
            Position::Before
        } else if left > right {
            Position::After
        } else {
            position(self.bytes.as_slice(), other.bytes.as_slice())
        }
    }

    /// Tells whether this name precedes another.
    pub fn precedes(&self, other: &Self) -> (r: bool)
        ensures
            r == name_lt(self@, other@),
    {
        proof {
            lemma_name_order(self@, other@, self@);
            lemma_name_order(other@, self@, self@);
        }
        match self.placed(other) {
            Position::Before => true,
            _ => false,
        }
    }

    /// Tells whether two names are equal.
    pub fn same(&self, other: &Self) -> (r: bool)
        ensures
            r == (self@ == other@),
    {
        proof {
            lemma_name_order(self@, other@, self@);
            lemma_name_order(other@, self@, self@);
        }
        match self.placed(other) {
            Position::Same => true,
            _ => false,
        }
    }
}

/// One named immutable payload.
#[derive(Debug, PartialEq, Eq)]
pub struct AttributeEntry {
    /// Canonical attribute name.
    pub name: AttributeName,
    /// Exact payload bytes.
    pub value_bytes: u64,
    /// Authenticated blob-index root.
    pub value: ObjectId,
}

/// Abstract value of [`AttributeEntry`].
#[verifier::ext_equal]
pub struct AttributeEntryView {
    /// Canonical attribute name.
    pub name: AttributeNameView,
    /// Exact payload bytes.
    pub value_bytes: u64,
    /// Authenticated blob-index root.
    pub value: ObjectView,
}

impl View for AttributeEntry {
    type V = AttributeEntryView;

    open spec fn view(&self) -> AttributeEntryView {
        AttributeEntryView {
            name: self.name@,
            value_bytes: self.value_bytes,
            value: self.value@,
        }
    }
}

impl Replicate for AttributeEntry {
    fn replicate(&self) -> (r: Self) {
        AttributeEntry {
            name: self.name.replicate(),
            value_bytes: self.value_bytes,
            value: self.value,
        }
    }
}

impl Clone for AttributeEntry {
    fn clone(&self) -> (r: Self)
        ensures
            r@ == self@,
    {
        self.replicate()
    }
}

impl AttributeEntry {
    /// Tells whether two entries are equal in every field.
    pub fn same(&self, other: &Self) -> (r: bool)
        ensures
            r == (self@ == other@),
    {
        self.name.same(&other.name) && self.value_bytes == other.value_bytes && self.value.same(
            &other.value,
        )
    }
}

/// One lower-bound-to-page attribute-tree child.
#[derive(Debug, PartialEq, Eq)]
pub struct AttributeChild {
    /// Exact first name in the child subtree.
    pub first_name: AttributeName,
    /// Authenticated attribute page.
    pub page: ObjectId,
}

/// Abstract value of [`AttributeChild`].
#[verifier::ext_equal]
pub struct AttributeChildView {
    /// Exact first name in the child subtree.
    pub first_name: AttributeNameView,
    /// Authenticated attribute page.
    pub page: ObjectView,
}

impl View for AttributeChild {
    type V = AttributeChildView;

    open spec fn view(&self) -> AttributeChildView {
        AttributeChildView { first_name: self.first_name@, page: self.page@ }
    }
}

impl Replicate for AttributeChild {
    fn replicate(&self) -> (r: Self) {
        AttributeChild { first_name: self.first_name.replicate(), page: self.page }
    }
}

impl Clone for AttributeChild {
    fn clone(&self) -> (r: Self)
        ensures
            r@ == self@,
    {
        self.replicate()
    }
}

/// Canonical bytes of a name.
pub open spec fn name_bytes(name: AttributeNameView) -> Seq<u8> {
    seq![class_tag(name.class)] + bounded(name.bytes)
}

/// The name at a position.
pub open spec fn name_at(bytes: Seq<u8>, at: int, maximum: u32) -> Field<AttributeNameView> {
    match u8_at(bytes, at) {
        Err(error) => Err(error),
        Ok((tag, mid)) => match class_of(tag) {
            None => Err(attribute_failure(AttributeError::UnknownClass(tag))),
            Some(class) => match bounded_at(bytes, mid, maximum) {
                Err(error) => Err(error),
                Ok((name, end)) => if attribute_named(name, maximum) {
                    Ok((AttributeNameView { class, bytes: name }, end))
                } else {
                    Err(attribute_failure(AttributeError::InvalidName))
                },
            },
        },
    }
}

/// The extent of a name at a position.
pub open spec fn name_skip(bytes: Seq<u8>, at: int, maximum: u32) -> Field<nat> {
    match u8_at(bytes, at) {
        Err(error) => Err(error),
        Ok((_, mid)) => match bounded_at(bytes, mid, maximum) {
            Err(error) => Err(error),
            Ok((name, end)) => Ok((name.len(), end)),
        },
    }
}

/// A name written is read back.
pub proof fn name_reads_back(
    name: AttributeNameView,
    before: Seq<u8>,
    after: Seq<u8>,
    maximum: u32,
)
    requires
        attribute_named(name.bytes, maximum),
        before.len() + name_bytes(name).len() + after.len() <= usize::MAX,
    ensures
        name_at(before + name_bytes(name) + after, before.len() as int, maximum) == Ok::<
            (AttributeNameView, int),
            DecodeErrorView,
        >((name, (before.len() + name_bytes(name).len()) as int)),
{
    lemma_auto_spec_u32_to_from_le_bytes();
    let tag = seq![class_tag(name.class)];
    let whole = before + name_bytes(name) + after;
    assert(whole[before.len() as int] == class_tag(name.class));
    bounded_reads_back(name.bytes, before + tag, after, maximum);
    assert(whole =~= (before + tag) + bounded(name.bytes) + after);
}

/// A name read is written back.
pub proof fn name_writes_back(bytes: Seq<u8>, at: int, maximum: u32)
    requires
        0 <= at,
        name_at(bytes, at, maximum) is Ok,
    ensures
        ({
            let (name, end) = name_at(bytes, at, maximum)->Ok_0;
            &&& at <= end <= bytes.len()
            &&& attribute_named(name.bytes, maximum)
            &&& name_bytes(name) == bytes.subrange(at, end)
            &&& name_skip(bytes, at, maximum) == Ok::<(nat, int), DecodeErrorView>(
                (name.bytes.len(), end),
            )
        }),
{
    bounded_writes_back(bytes, at + 1, maximum);
    let (name, end) = name_at(bytes, at, maximum)->Ok_0;
    assert(name_bytes(name) =~= bytes.subrange(at, end));
}

fn write_name(encoder: &mut Encoder, name: &AttributeName) -> (r: Result<(), CanonicalDecodeError>)
    ensures
        r is Ok == (name@.bytes.len() <= u32::MAX),
        r is Ok ==> final(encoder)@ == old(encoder)@ + name_bytes(name@),
        r matches Err(error) ==> error@ == DecodeErrorView::LengthOverflow,
{
    let ghost start = encoder@;
    encoder.u8(name.class.tag());
    match encoder.bounded_bytes(name.bytes.as_slice()) {
        Ok(()) => {
            assert(encoder@ =~= start + name_bytes(name@));
            Ok(())
        },
        Err(error) => Err(error),
    }
}

fn read_name(decoder: &mut Decoder<'_>, maximum: u32) -> (r: Result<
    AttributeName,
    CanonicalDecodeError,
>)
    requires
        old(decoder).wf(),
    ensures
        final(decoder).bytes@ == old(decoder).bytes@,
        final(decoder).wf(),
        match name_at(old(decoder).bytes@, old(decoder).cursor as int, maximum) {
            Ok((name, end)) => r matches Ok(found) && found@ == name && final(decoder).cursor
                == end,
            Err(e) => r matches Err(error) && error@ == e,
        },
{
    let tag = match decoder.u8() {
        Ok(tag) => tag,
        Err(error) => {
            return Err(error);
        },
    };
    let class = match AttributeClass::from_tag(tag) {
        Ok(class) => class,
        Err(error) => {
            return Err(broken(error));
        },
    };
    let bytes = match decoder.bounded_bytes(maximum) {
        Ok(bytes) => bytes,
        Err(error) => {
            return Err(error);
        },
    };
    match AttributeName::new(class, bytes, maximum) {
        Ok(name) => Ok(name),
        Err(error) => Err(broken(error)),
    }
}

fn skip_name(decoder: &mut Decoder<'_>, maximum: u32) -> (r: Result<usize, CanonicalDecodeError>)
    requires
        old(decoder).wf(),
    ensures
        final(decoder).bytes@ == old(decoder).bytes@,
        final(decoder).wf(),
        match name_skip(old(decoder).bytes@, old(decoder).cursor as int, maximum) {
            Ok((nested, end)) => r matches Ok(size) && size == nested && final(decoder).cursor
                == end,
            Err(e) => r matches Err(error) && error@ == e,
        },
{
    match decoder.u8() {
        Ok(_) => decoder.skip_bounded_bytes(maximum),
        Err(error) => Err(error),
    }
}

impl CanonicalItem for AttributeEntry {
    open spec fn item_fits(value: AttributeEntryView, limits: DecodeLimits) -> bool {
        &&& attribute_named(value.name.bytes, limits.maximum_name_bytes)
        &&& value.value.kind == ObjectKind::Blob
        &&& value.value.digest.len() == 32
    }

    open spec fn item_writable(value: AttributeEntryView) -> bool {
        value.name.bytes.len() <= u32::MAX
    }

    open spec fn item_bytes(value: AttributeEntryView) -> Seq<u8> {
        name_bytes(value.name) + spec_u64_to_le_bytes(value.value_bytes) + value.value.digest
    }

    open spec fn item_at(bytes: Seq<u8>, at: int, limits: DecodeLimits) -> Field<
        AttributeEntryView,
    > {
        match name_at(bytes, at, limits.maximum_name_bytes) {
            Err(error) => Err(error),
            Ok((name, at)) => match u64_at(bytes, at) {
                Err(error) => Err(error),
                Ok((value_bytes, at)) => match take_at(bytes, at, 32) {
                    Err(error) => Err(error),
                    Ok((digest, end)) => Ok(
                        (
                            AttributeEntryView {
                                name,
                                value_bytes,
                                value: ObjectView { kind: ObjectKind::Blob, digest },
                            },
                            end,
                        ),
                    ),
                },
            },
        }
    }

    open spec fn skip_at(bytes: Seq<u8>, at: int, limits: DecodeLimits) -> Field<nat> {
        match name_skip(bytes, at, limits.maximum_name_bytes) {
            Err(error) => Err(error),
            Ok((nested, at)) => match u64_at(bytes, at) {
                Err(error) => Err(error),
                Ok((_, at)) => match take_at(bytes, at, 32) {
                    Err(error) => Err(error),
                    Ok((_, end)) => Ok((nested, end)),
                },
            },
        }
    }

    open spec fn nested(value: AttributeEntryView) -> nat {
        value.name.bytes.len()
    }

    proof fn item_reads_back(
        value: AttributeEntryView,
        before: Seq<u8>,
        after: Seq<u8>,
        limits: DecodeLimits,
    ) {
        lemma_auto_spec_u64_to_from_le_bytes();
        let name = name_bytes(value.name);
        let size = spec_u64_to_le_bytes(value.value_bytes);
        let digest = value.value.digest;
        let whole = before + Self::item_bytes(value) + after;
        name_reads_back(value.name, before, size + digest + after, limits.maximum_name_bytes);
        assert(whole =~= before + name + (size + digest + after));
        u64_reads_back(value.value_bytes, before + name, digest + after);
        assert(whole =~= (before + name) + size + (digest + after));
        run_reads_back(digest, before + name + size, after);
        assert(whole =~= (before + name + size) + digest + after);
    }

    proof fn item_writes_back(bytes: Seq<u8>, at: int, limits: DecodeLimits) {
        name_writes_back(bytes, at, limits.maximum_name_bytes);
        let (name, mid) = name_at(bytes, at, limits.maximum_name_bytes)->Ok_0;
        u64_writes_back(bytes, mid);
        let (value, end) = Self::item_at(bytes, at, limits)->Ok_0;
        assert(Self::item_bytes(value) =~= bytes.subrange(at, end));
    }

    proof fn skip_stays_within(bytes: Seq<u8>, at: int, limits: DecodeLimits) {
        bounded_writes_back(bytes, at + 1, limits.maximum_name_bytes);
    }

    fn write_item(&self, encoder: &mut Encoder) -> (r: Result<(), CanonicalDecodeError>) {
        let ghost start = encoder@;
        match write_name(encoder, &self.name) {
            Ok(()) => {
                encoder.u64(self.value_bytes);
                encoder.fixed(self.value.digest.bytes.as_slice());
                assert(encoder@ =~= start + Self::item_bytes(self@));
                Ok(())
            },
            Err(error) => Err(error),
        }
    }

    fn read_item(decoder: &mut Decoder<'_>, limits: DecodeLimits) -> (r: Result<
        Self,
        CanonicalDecodeError,
    >) {
        let name = match read_name(decoder, limits.maximum_name_bytes) {
            Ok(name) => name,
            Err(error) => {
                return Err(error);
            },
        };
        let value_bytes = match decoder.u64() {
            Ok(value_bytes) => value_bytes,
            Err(error) => {
                return Err(error);
            },
        };
        match decoder.fixed32() {
            Ok(digest) => Ok(
                AttributeEntry {
                    name,
                    value_bytes,
                    value: ObjectId { kind: ObjectKind::Blob, digest: Digest::from_bytes(digest) },
                },
            ),
            Err(error) => Err(error),
        }
    }

    fn skip_item(decoder: &mut Decoder<'_>, limits: DecodeLimits) -> (r: Result<
        usize,
        CanonicalDecodeError,
    >) {
        let nested = match skip_name(decoder, limits.maximum_name_bytes) {
            Ok(nested) => nested,
            Err(error) => {
                return Err(error);
            },
        };
        match decoder.u64() {
            Ok(_) => match decoder.take_exact(32) {
                Ok(_) => Ok(nested),
                Err(error) => Err(error),
            },
            Err(error) => Err(error),
        }
    }
}

impl CanonicalItem for AttributeChild {
    open spec fn item_fits(value: AttributeChildView, limits: DecodeLimits) -> bool {
        &&& attribute_named(value.first_name.bytes, limits.maximum_name_bytes)
        &&& value.page.kind == ObjectKind::AttributePage
        &&& value.page.digest.len() == 32
    }

    open spec fn item_writable(value: AttributeChildView) -> bool {
        value.first_name.bytes.len() <= u32::MAX
    }

    open spec fn item_bytes(value: AttributeChildView) -> Seq<u8> {
        name_bytes(value.first_name) + value.page.digest
    }

    open spec fn item_at(bytes: Seq<u8>, at: int, limits: DecodeLimits) -> Field<
        AttributeChildView,
    > {
        match name_at(bytes, at, limits.maximum_name_bytes) {
            Err(error) => Err(error),
            Ok((first_name, at)) => match take_at(bytes, at, 32) {
                Err(error) => Err(error),
                Ok((digest, end)) => Ok(
                    (
                        AttributeChildView {
                            first_name,
                            page: ObjectView { kind: ObjectKind::AttributePage, digest },
                        },
                        end,
                    ),
                ),
            },
        }
    }

    open spec fn skip_at(bytes: Seq<u8>, at: int, limits: DecodeLimits) -> Field<nat> {
        match name_skip(bytes, at, limits.maximum_name_bytes) {
            Err(error) => Err(error),
            Ok((nested, at)) => match take_at(bytes, at, 32) {
                Err(error) => Err(error),
                Ok((_, end)) => Ok((nested, end)),
            },
        }
    }

    open spec fn nested(value: AttributeChildView) -> nat {
        value.first_name.bytes.len()
    }

    proof fn item_reads_back(
        value: AttributeChildView,
        before: Seq<u8>,
        after: Seq<u8>,
        limits: DecodeLimits,
    ) {
        let name = name_bytes(value.first_name);
        let digest = value.page.digest;
        let whole = before + Self::item_bytes(value) + after;
        name_reads_back(value.first_name, before, digest + after, limits.maximum_name_bytes);
        assert(whole =~= before + name + (digest + after));
        run_reads_back(digest, before + name, after);
        assert(whole =~= (before + name) + digest + after);
    }

    proof fn item_writes_back(bytes: Seq<u8>, at: int, limits: DecodeLimits) {
        name_writes_back(bytes, at, limits.maximum_name_bytes);
        let (value, end) = Self::item_at(bytes, at, limits)->Ok_0;
        assert(Self::item_bytes(value) =~= bytes.subrange(at, end));
    }

    proof fn skip_stays_within(bytes: Seq<u8>, at: int, limits: DecodeLimits) {
        bounded_writes_back(bytes, at + 1, limits.maximum_name_bytes);
    }

    fn write_item(&self, encoder: &mut Encoder) -> (r: Result<(), CanonicalDecodeError>) {
        let ghost start = encoder@;
        match write_name(encoder, &self.first_name) {
            Ok(()) => {
                encoder.fixed(self.page.digest.bytes.as_slice());
                assert(encoder@ =~= start + Self::item_bytes(self@));
                Ok(())
            },
            Err(error) => Err(error),
        }
    }

    fn read_item(decoder: &mut Decoder<'_>, limits: DecodeLimits) -> (r: Result<
        Self,
        CanonicalDecodeError,
    >) {
        let first_name = match read_name(decoder, limits.maximum_name_bytes) {
            Ok(name) => name,
            Err(error) => {
                return Err(error);
            },
        };
        match decoder.fixed32() {
            Ok(digest) => Ok(
                AttributeChild {
                    first_name,
                    page: ObjectId {
                        kind: ObjectKind::AttributePage,
                        digest: Digest::from_bytes(digest),
                    },
                },
            ),
            Err(error) => Err(error),
        }
    }

    fn skip_item(decoder: &mut Decoder<'_>, limits: DecodeLimits) -> (r: Result<
        usize,
        CanonicalDecodeError,
    >) {
        let nested = match skip_name(decoder, limits.maximum_name_bytes) {
            Ok(nested) => nested,
            Err(error) => {
                return Err(error);
            },
        };
        match decoder.take_exact(32) {
            Ok(_) => Ok(nested),
            Err(error) => Err(error),
        }
    }
}

/// One authenticated named-attribute B+tree page.
#[derive(Debug, PartialEq, Eq)]
pub enum AttributePage {
    /// Strictly ordered named values.
    Leaf(Vec<AttributeEntry>),
    /// Strictly ordered child lower bounds.
    Internal(Vec<AttributeChild>),
}

/// Abstract value of [`AttributePage`].
pub type AttributePageView = PageView<AttributeEntryView, AttributeChildView>;

impl View for AttributePage {
    type V = AttributePageView;

    open spec fn view(&self) -> AttributePageView {
        match *self {
            AttributePage::Leaf(entries) => PageView::Leaf(views(entries@)),
            AttributePage::Internal(children) => PageView::Internal(views(children@)),
        }
    }
}

/// The attribute page format.
pub open spec fn attribute_format() -> PageFormat {
    PageFormat {
        domain: seq![65u8, 67, 89, 70, 83, 65, 84, 82],
        version: 1,
        field: "attribute_page"@,
    }
}

/// The attribute page format: domain `ACYFSATR`, version one.
pub(crate) fn format() -> (r: Format)
    ensures
        r@ == attribute_format(),
{
    let r = Format {
        domain: [65u8, 67, 89, 70, 83, 65, 84, 82],
        version: 1,
        field: "attribute_page",
    };
    assert(r.domain@ =~= attribute_format().domain);
    r
}

/// Whether leaf entries ascend by name and refer to blobs.
pub open spec fn attribute_leaf_ordered(entries: Seq<AttributeEntryView>) -> bool {
    &&& forall|i: int, j: int|
        0 <= i < j < entries.len() ==> name_lt(
            (#[trigger] entries[i]).name,
            (#[trigger] entries[j]).name,
        )
    &&& forall|i: int| 0 <= i < entries.len() ==> (#[trigger] entries[i]).value.kind == ObjectKind::Blob
}

/// Whether children exist, ascend by name and refer to attribute pages.
pub open spec fn attribute_children_ordered(children: Seq<AttributeChildView>) -> bool {
    &&& children.len() > 0
    &&& forall|i: int, j: int|
        0 <= i < j < children.len() ==> name_lt(
            (#[trigger] children[i]).first_name,
            (#[trigger] children[j]).first_name,
        )
    &&& forall|i: int|
        0 <= i < children.len() ==> (#[trigger] children[i]).page.kind == ObjectKind::AttributePage
}

/// Whether a page is in order.
pub open spec fn attribute_page_ordered(page: AttributePageView) -> bool {
    match page {
        PageView::Leaf(entries) => attribute_leaf_ordered(entries),
        PageView::Internal(children) => attribute_children_ordered(children),
    }
}

fn leaf_ordered(entries: &Vec<AttributeEntry>) -> (r: bool)
    ensures
        r == attribute_leaf_ordered(views(entries@)),
{
    let ghost all = views(entries@);
    let mut i: usize = 0;
    while i < entries.len()
        invariant
            i <= entries@.len(),
            all == views(entries@),
            forall|j: int| 0 <= j < i ==> (#[trigger] all[j]).value.kind == ObjectKind::Blob,
            forall|j: int, k: int|
                0 <= j < k < i ==> name_lt((#[trigger] all[j]).name, (#[trigger] all[k]).name),
        decreases entries@.len() - i,
    {
        assert(all[i as int] == entries@[i as int]@);
        if entries[i].value.kind != ObjectKind::Blob {
            return false;
        }
        if i > 0 {
            let ghost last = all[i - 1];
            let ghost here = all[i as int];
            assert(last == entries@[i - 1]@);
            if !entries[i - 1].name.precedes(&entries[i].name) {
                return false;
            }
            assert forall|j: int| 0 <= j < i implies name_lt(
                (#[trigger] all[j]).name,
                here.name,
            ) by {
                lemma_name_order(all[j].name, last.name, here.name);
            }
        }
        i = i + 1;
    }
    true
}

fn children_ordered(children: &Vec<AttributeChild>) -> (r: bool)
    ensures
        r == attribute_children_ordered(views(children@)),
{
    let ghost all = views(children@);
    if children.len() == 0 {
        return false;
    }
    let mut i: usize = 0;
    while i < children.len()
        invariant
            i <= children@.len(),
            all == views(children@),
            forall|j: int| 0 <= j < i ==> (#[trigger] all[j]).page.kind == ObjectKind::AttributePage,
            forall|j: int, k: int|
                0 <= j < k < i ==> name_lt((#[trigger] all[j]).first_name, (#[trigger] all[k]).first_name),
        decreases children@.len() - i,
    {
        assert(all[i as int] == children@[i as int]@);
        if children[i].page.kind != ObjectKind::AttributePage {
            return false;
        }
        if i > 0 {
            let ghost last = all[i - 1];
            let ghost here = all[i as int];
            assert(last == children@[i - 1]@);
            if !children[i - 1].first_name.precedes(&children[i].first_name) {
                return false;
            }
            assert forall|j: int| 0 <= j < i implies name_lt(
                (#[trigger] all[j]).first_name,
                here.first_name,
            ) by {
                lemma_name_order(all[j].first_name, last.first_name, here.first_name);
            }
        }
        i = i + 1;
    }
    true
}

/// Number of entries or children of a page.
pub open spec fn attribute_items(page: AttributePageView) -> nat {
    match page {
        PageView::Leaf(entries) => entries.len(),
        PageView::Internal(children) => children.len(),
    }
}

/// The canonical bytes of a page, or why it has none.
pub open spec fn attribute_encoded(page: AttributePageView, maximum_items: u32) -> Result<
    Seq<u8>,
    DecodeErrorView,
> {
    if attribute_items(page) > maximum_items || !attribute_page_ordered(page) {
        Err(attribute_failure(AttributeError::InvalidPage))
    } else if !page_writable::<AttributeEntry, AttributeChild>(page) {
        Err(DecodeErrorView::LengthOverflow)
    } else {
        Ok(page_bytes::<AttributeEntry, AttributeChild>(attribute_format(), page))
    }
}

/// The page that bytes stand for, or why they stand for none.
pub open spec fn attribute_decoded(bytes: Seq<u8>, limits: DecodeLimits) -> Result<
    AttributePageView,
    DecodeErrorView,
> {
    match page_at::<AttributeEntry, AttributeChild>(bytes, attribute_format(), limits) {
        Err(error) => Err(error),
        Ok(page) => if attribute_page_ordered(page) {
            Ok(page)
        } else {
            Err(attribute_failure(AttributeError::InvalidPage))
        },
    }
}

/// Encodes one canonical attribute page.
pub fn encode_attribute_page(page: &AttributePage, maximum_items: u32) -> (r: Result<
    Vec<u8>,
    CanonicalDecodeError,
>)
    ensures
        stands_for(r, attribute_encoded(page@, maximum_items)),
{
    match page {
        AttributePage::Leaf(entries) => {
            if entries.len() > maximum_items as usize || !leaf_ordered(entries) {
                return Err(broken(AttributeError::InvalidPage));
            }
            write_entries(entries, 1, format())
        },
        AttributePage::Internal(children) => {
            if children.len() > maximum_items as usize || !children_ordered(children) {
                return Err(broken(AttributeError::InvalidPage));
            }
            write_entries(children, 2, format())
        },
    }
}

/// Decodes one bounded canonical attribute page.
pub fn decode_attribute_page(bytes: &[u8], limits: DecodeLimits) -> (r: Result<
    AttributePage,
    CanonicalDecodeError,
>)
    ensures
        stands_for(r, attribute_decoded(bytes@, limits)),
{
    match read_page::<AttributeEntry, AttributeChild>(bytes, format(), limits) {
        Err(error) => Err(error),
        Ok(Page::Leaf(entries)) => {
            if leaf_ordered(&entries) {
                Ok(AttributePage::Leaf(entries))
            } else {
                Err(broken(AttributeError::InvalidPage))
            }
        },
        Ok(Page::Internal(children)) => {
            if children_ordered(&children) {
                Ok(AttributePage::Internal(children))
            } else {
                Err(broken(AttributeError::InvalidPage))
            }
        },
    }
}

/// Finds the extent of an attribute page without building it.
pub fn attribute_page_decode_shape(bytes: &[u8], limits: DecodeLimits) -> (r: Result<
    DecodedPageShape,
    CanonicalDecodeError,
>)
    ensures
        match page_shape::<AttributeEntry, AttributeChild>(bytes@, attribute_format(), limits) {
            Ok((kind, items, nested)) => r matches Ok(shape) && shape.kind == kind && shape.items
                == items && shape.nested_bytes == nested,
            Err(e) => r matches Err(error) && error@ == e,
        },
{
    read_shape::<AttributeEntry, AttributeChild>(bytes, format(), limits)
}

/// Computes one typed authenticated attribute-page identity.
pub fn attribute_page_id(page: &AttributePage, maximum_items: u32) -> (r: Result<
    ObjectId,
    CanonicalDecodeError,
>)
    ensures
        stands_for(
            r,
            match attribute_encoded(page@, maximum_items) {
                Ok(bytes) => Ok(object_named(ObjectKind::AttributePage, bytes)),
                Err(error) => Err(error),
            },
        ),
{
    match encode_attribute_page(page, maximum_items) {
        Ok(bytes) => Ok(object_id(ObjectKind::AttributePage, bytes.as_slice())),
        Err(error) => Err(error),
    }
}

/// A page that can be encoded and fits the bounds decodes to itself.
pub proof fn attribute_page_round_trip(
    page: AttributePageView,
    maximum_items: u32,
    limits: DecodeLimits,
)
    requires
        attribute_encoded(page, maximum_items) is Ok,
        page_fits::<AttributeEntry, AttributeChild>(attribute_format(), page, limits),
    ensures
        attribute_decoded(attribute_encoded(page, maximum_items)->Ok_0, limits) == Ok::<
            AttributePageView,
            DecodeErrorView,
        >(page),
{
    page_reads_back::<AttributeEntry, AttributeChild>(attribute_format(), page, limits);
}

/// Canonical bytes of an attribute page with bytes added or cut off at the end are refused.
pub proof fn attribute_bytes_are_whole(bytes: Seq<u8>, more: Seq<u8>, count: int, limits: DecodeLimits)
    requires
        attribute_decoded(bytes, limits) is Ok,
        more.len() > 0,
        bytes.len() + more.len() <= usize::MAX,
        0 <= count < bytes.len(),
    ensures
        attribute_decoded(bytes + more, limits) == Err::<AttributePageView, DecodeErrorView>(
            refused_more(bytes + more, limits.page_object_bytes()),
        ),
        attribute_decoded(bytes.take(count), limits) is Err,
{
    page_refuses_more::<AttributeEntry, AttributeChild>(bytes, more, attribute_format(), limits);
    page_refuses_less::<AttributeEntry, AttributeChild>(bytes, count, attribute_format(), limits);
}

/// Bytes that decode are the one encoding of what they decode to.
pub proof fn attribute_bytes_are_canonical(bytes: Seq<u8>, limits: DecodeLimits)
    requires
        bytes.len() <= usize::MAX,
        attribute_decoded(bytes, limits) is Ok,
    ensures
        attribute_encoded(attribute_decoded(bytes, limits)->Ok_0, limits.maximum_page_items)
            == Ok::<Seq<u8>, DecodeErrorView>(bytes),
{
    page_writes_back::<AttributeEntry, AttributeChild>(bytes, attribute_format(), limits);
    let page = attribute_decoded(bytes, limits)->Ok_0;
    page_reads_back::<AttributeEntry, AttributeChild>(attribute_format(), page, limits);
}

} // verus!
