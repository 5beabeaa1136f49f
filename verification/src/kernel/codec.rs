//! Small fail-closed codec used by every hash-bearing filesystem object.

use crate::order::{same_bytes, views};
use vstd::bytes::*;
use vstd::prelude::*;
use vstd::string::*;

verus! {

/// Allocation and collection bounds for one canonical object decode.
#[derive(Clone, Copy, Debug, PartialEq, Eq, PartialOrd, Ord, Hash, Structural)]
pub struct DecodeLimits {
    /// Maximum complete canonical object bytes.
    pub maximum_object_bytes: u64,
    /// Maximum bytes in one logical name.
    pub maximum_name_bytes: u32,
    /// Maximum entries or children in one page.
    pub maximum_page_items: u32,
    /// Maximum canonical bytes in one authenticated index or page object.
    pub maximum_page_bytes: u32,
    /// Maximum authenticated page levels followed by one operation.
    pub maximum_page_height: u16,
    /// Maximum distinct authenticated pages retained for cycle and alias checks.
    pub maximum_visited_pages: u32,
}

impl Default for DecodeLimits {
    fn default() -> (r: Self)
        ensures
            r == (DecodeLimits {
                maximum_object_bytes: 67_108_864,
                maximum_name_bytes: 255,
                maximum_page_items: 1_024,
                maximum_page_bytes: 262_144,
                maximum_page_height: 64,
                maximum_visited_pages: 4_096,
            }),
    {
        DecodeLimits {
            maximum_object_bytes: 67_108_864,
            maximum_name_bytes: 255,
            maximum_page_items: 1_024,
            maximum_page_bytes: 262_144,
            maximum_page_height: 64,
            maximum_visited_pages: 4_096,
        }
    }
}

impl DecodeLimits {
    /// The smaller of the object and page bounds.
    pub open spec fn page_object_bytes(self) -> u64 {
        if self.maximum_object_bytes <= self.maximum_page_bytes {
            self.maximum_object_bytes
        } else {
            self.maximum_page_bytes as u64
        }
    }

    /// Largest canonical page that is read.
    pub fn maximum_page_object_bytes(self) -> (r: u64)
        ensures
            r == self.page_object_bytes(),
    {
        if self.maximum_object_bytes <= self.maximum_page_bytes as u64 {
            self.maximum_object_bytes
        } else {
            self.maximum_page_bytes as u64
        }
    }

    /// Whether the page bounds admit any traversal.
    pub open spec fn admits_pages(self, minimum_items: u32) -> bool {
        &&& self.maximum_page_items >= minimum_items
        &&& self.maximum_page_bytes != 0
        &&& self.maximum_page_height != 0
        &&& self.maximum_visited_pages != 0
    }

    /// Tells whether the page bounds admit any traversal.
    pub fn page_limits_valid(self, minimum_items: u32) -> (r: bool)
        ensures
            r == self.admits_pages(minimum_items),
    {
        self.maximum_page_items >= minimum_items && self.maximum_page_bytes != 0
            && self.maximum_page_height != 0 && self.maximum_visited_pages != 0
    }
}

/// Fail-closed canonical object decoding failures.
#[allow(inconsistent_fields)]
#[derive(Debug, PartialEq, Eq)]
pub enum CanonicalDecodeError {
    /// Object belongs to another canonical domain.
    WrongDomain,
    /// Object format version is unsupported.
    UnsupportedVersion(u16),
    /// Object ended before a declared field was complete.
    Truncated,
    /// Complete object exceeds the admitted bound.
    ObjectTooLarge {
        /// Observed bytes.
        observed: u64,
        /// Admitted maximum.
        maximum: u64,
    },
    /// One bounded field exceeds its admitted bytes.
    FieldTooLarge {
        /// Observed bytes or items.
        observed: u32,
        /// Admitted maximum.
        maximum: u32,
    },
    /// Length arithmetic cannot be represented safely.
    LengthOverflow,
    /// Canonical object contains bytes after its final field.
    TrailingBytes,
    /// A field tag is not recognized by this version.
    UnknownTag {
        /// Stable field description.
        field: &'static str,
        /// Unknown tag.
        tag: u8,
    },
    /// Decoded fields violate a semantic invariant.
    Invariant(String),
}

/// Abstract value of [`CanonicalDecodeError`].
#[allow(inconsistent_fields)]
#[verifier::ext_equal]
pub enum DecodeErrorView {
    /// Object belongs to another canonical domain.
    WrongDomain,
    /// Object format version is unsupported.
    UnsupportedVersion(u16),
    /// Object ended before a declared field was complete.
    Truncated,
    /// Complete object exceeds the admitted bound.
    ObjectTooLarge {
        /// Observed bytes.
        observed: u64,
        /// Admitted maximum.
        maximum: u64,
    },
    /// One bounded field exceeds its admitted bytes.
    FieldTooLarge {
        /// Observed bytes or items.
        observed: u32,
        /// Admitted maximum.
        maximum: u32,
    },
    /// Length arithmetic cannot be represented safely.
    LengthOverflow,
    /// Canonical object contains bytes after its final field.
    TrailingBytes,
    /// A field tag is not recognized by this version.
    UnknownTag {
        /// Stable field description.
        field: Seq<char>,
        /// Unknown tag.
        tag: u8,
    },
    /// Decoded fields violate a semantic invariant.
    Invariant(Seq<char>),
}

impl View for CanonicalDecodeError {
    type V = DecodeErrorView;

    open spec fn view(&self) -> DecodeErrorView {
        match *self {
            CanonicalDecodeError::WrongDomain => DecodeErrorView::WrongDomain,
            CanonicalDecodeError::UnsupportedVersion(version) => DecodeErrorView::UnsupportedVersion(
                version,
            ),
            CanonicalDecodeError::Truncated => DecodeErrorView::Truncated,
            CanonicalDecodeError::ObjectTooLarge { observed, maximum } => {
                DecodeErrorView::ObjectTooLarge { observed, maximum }
            },
            CanonicalDecodeError::FieldTooLarge { observed, maximum } => {
                DecodeErrorView::FieldTooLarge { observed, maximum }
            },
            CanonicalDecodeError::LengthOverflow => DecodeErrorView::LengthOverflow,
            CanonicalDecodeError::TrailingBytes => DecodeErrorView::TrailingBytes,
            CanonicalDecodeError::UnknownTag { field, tag } => DecodeErrorView::UnknownTag {
                field: field@,
                tag,
            },
            CanonicalDecodeError::Invariant(reason) => DecodeErrorView::Invariant(reason@),
        }
    }
}

/// Whether an executable result stands for an abstract one.
pub open spec fn stands_for<T: View>(
    r: Result<T, CanonicalDecodeError>,
    value: Result<T::V, DecodeErrorView>,
) -> bool {
    match value {
        Ok(v) => r matches Ok(x) && x@ == v,
        Err(e) => r matches Err(error) && error@ == e,
    }
}

/// Canonical bytes under construction.
pub struct Encoder {
    bytes: Vec<u8>,
}

impl View for Encoder {
    type V = Seq<u8>;

    closed spec fn view(&self) -> Seq<u8> {
        self.bytes@
    }
}

/// Domain and version in front of every canonical object.
pub open spec fn header(domain: Seq<u8>, version: u16) -> Seq<u8> {
    domain + spec_u16_to_le_bytes(version)
}

impl Encoder {
    /// Begins an object with its domain and version.
    pub fn new(domain: &[u8], version: u16) -> (r: Self)
        ensures
            r@ == header(domain@, version),
    {
        let mut r = Encoder { bytes: Vec::new() };
        r.fixed(domain);
        let low = u16_to_le_bytes(version);
        r.fixed(low.as_slice());
        assert(r@ =~= header(domain@, version));
        r
    }

    /// Appends one byte.
    pub fn u8(&mut self, value: u8)
        ensures
            final(self)@ == old(self)@.push(value),
    {
        self.bytes.push(value);
    }

    /// Appends a 32-bit number, low byte first.
    pub fn u32(&mut self, value: u32)
        ensures
            final(self)@ == old(self)@ + spec_u32_to_le_bytes(value),
    {
        let bytes = u32_to_le_bytes(value);
        self.fixed(bytes.as_slice());
    }

    /// Appends a 64-bit number, low byte first.
    pub fn u64(&mut self, value: u64)
        ensures
            final(self)@ == old(self)@ + spec_u64_to_le_bytes(value),
    {
        let bytes = u64_to_le_bytes(value);
        self.fixed(bytes.as_slice());
    }

    /// Appends a signed 64-bit number in two's complement, low byte first.
    pub fn i64(&mut self, value: i64)
        ensures
            final(self)@ == old(self)@ + spec_u64_to_le_bytes(value as u64),
    {
        self.u64(value as u64);
    }

    /// Appends bytes as they are.
    pub fn fixed(&mut self, value: &[u8])
        ensures
            final(self)@ == old(self)@ + value@,
    {
        let ghost start = self@;
        let mut i: usize = 0;
        while i < value.len()
            invariant
                i <= value@.len(),
                self@ =~= start + value@.take(i as int),
                start == old(self)@,
            decreases value@.len() - i,
        {
            self.bytes.push(value[i]);
            assert(value@.take(i + 1) =~= value@.take(i as int).push(value@[i as int]));
            i = i + 1;
        }
        assert(value@.take(i as int) =~= value@);
    }

    /// Appends bytes behind their length.
    pub fn bounded_bytes(&mut self, value: &[u8]) -> (r: Result<(), CanonicalDecodeError>)
        ensures
            r is Ok == (value@.len() <= u32::MAX),
            r is Ok ==> final(self)@ == old(self)@ + bounded(value@),
            r matches Err(error) ==> error@ == DecodeErrorView::LengthOverflow,
    {
        if value.len() > u32::MAX as usize {
            return Err(CanonicalDecodeError::LengthOverflow);
        }
        let ghost start = self@;
        self.u32(value.len() as u32);
        self.fixed(value);
        assert(self@ =~= start + bounded(value@));
        Ok(())
    }

    /// Returns the finished object.
    pub fn finish(self) -> (r: Vec<u8>)
        ensures
            r@ == self@,
    {
        self.bytes
    }
}

/// Bytes behind their length.
pub open spec fn bounded(value: Seq<u8>) -> Seq<u8> {
    spec_u32_to_le_bytes(value.len() as u32) + value
}

/// A field read at a position: its value and the position behind it.
pub type Field<T> = Result<(T, int), DecodeErrorView>;

/// A run of bytes at a position.
pub open spec fn take_at(bytes: Seq<u8>, at: int, count: int) -> Field<Seq<u8>> {
    if at + count > usize::MAX {
        Err(DecodeErrorView::LengthOverflow)
    } else if at + count > bytes.len() {
        Err(DecodeErrorView::Truncated)
    } else {
        Ok((bytes.subrange(at, at + count), at + count))
    }
}

/// One byte at a position.
pub open spec fn u8_at(bytes: Seq<u8>, at: int) -> Field<u8> {
    if at >= bytes.len() {
        Err(DecodeErrorView::Truncated)
    } else {
        Ok((bytes[at], at + 1))
    }
}

/// A 32-bit number at a position.
pub open spec fn u32_at(bytes: Seq<u8>, at: int) -> Field<u32> {
    match take_at(bytes, at, 4) {
        Ok((field, end)) => Ok((spec_u32_from_le_bytes(field), end)),
        Err(error) => Err(error),
    }
}

/// A 64-bit number at a position.
pub open spec fn u64_at(bytes: Seq<u8>, at: int) -> Field<u64> {
    match take_at(bytes, at, 8) {
        Ok((field, end)) => Ok((spec_u64_from_le_bytes(field), end)),
        Err(error) => Err(error),
    }
}

/// Bytes behind their length, at most `maximum` of them.
pub open spec fn bounded_at(bytes: Seq<u8>, at: int, maximum: u32) -> Field<Seq<u8>> {
    match u32_at(bytes, at) {
        Err(error) => Err(error),
        Ok((length, mid)) => if length > maximum {
            Err(DecodeErrorView::FieldTooLarge { observed: length, maximum })
        } else {
            take_at(bytes, mid, length as int)
        },
    }
}

/// Position behind the domain and version of an object.
pub open spec fn header_at(
    bytes: Seq<u8>,
    domain: Seq<u8>,
    version: u16,
    maximum: u64,
) -> Result<int, DecodeErrorView> {
    if bytes.len() > maximum {
        Err(
            DecodeErrorView::ObjectTooLarge {
                observed: bytes.len() as u64,
                maximum,
            },
        )
    } else if bytes.len() < domain.len() + 2 || bytes.take(domain.len() as int) != domain {
        Err(DecodeErrorView::WrongDomain)
    } else {
        let found = spec_u16_from_le_bytes(
            bytes.subrange(domain.len() as int, domain.len() as int + 2),
        );
        if found != version {
            Err(DecodeErrorView::UnsupportedVersion(found))
        } else {
            Ok(domain.len() as int + 2)
        }
    }
}

/// Canonical bytes being read.
pub struct Decoder<'a> {
    /// The whole object.
    pub bytes: &'a [u8],
    /// Position of the next field.
    pub cursor: usize,
}

impl<'a> Decoder<'a> {
    /// Whether the position lies within the object.
    pub open spec fn wf(self) -> bool {
        self.cursor <= self.bytes@.len()
    }

    /// Checks size, domain and version.
    pub fn new(bytes: &'a [u8], domain: &[u8], version: u16, maximum: u64) -> (r: Result<
        Self,
        CanonicalDecodeError,
    >)
        requires
            domain@.len() < 100,
        ensures
            match header_at(bytes@, domain@, version, maximum) {
                Ok(at) => r matches Ok(decoder) && decoder.wf() && decoder.bytes@ == bytes@
                    && decoder.cursor == at,
                Err(e) => r matches Err(error) && error@ == e,
            },
    {
        if bytes.len() as u64 > maximum {
            return Err(
                CanonicalDecodeError::ObjectTooLarge {
                    observed: bytes.len() as u64,
                    maximum,
                },
            );
        }
        let size = domain.len();
        if bytes.len() < size + 2 {
            return Err(CanonicalDecodeError::WrongDomain);
        }
        let front = vstd::slice::slice_subrange(bytes, 0, size);
        assert(front@ =~= bytes@.take(size as int));
        if !same_bytes(front, domain) {
            return Err(CanonicalDecodeError::WrongDomain);
        }
        let found = u16_from_le_bytes(vstd::slice::slice_subrange(bytes, size, size + 2));
        if found != version {
            return Err(CanonicalDecodeError::UnsupportedVersion(found));
        }
        Ok(Decoder { bytes, cursor: size + 2 })
    }

    /// Whether a field was read as an abstract one says.
    pub open spec fn read_as<T>(
        self,
        next: Self,
        r: Result<T, CanonicalDecodeError>,
        field: Field<T>,
    ) -> bool {
        &&& next.bytes@ == self.bytes@
        &&& next.wf()
        &&& match field {
            Ok((value, end)) => r == Ok::<T, CanonicalDecodeError>(value) && next.cursor == end,
            Err(e) => r matches Err(error) && error@ == e,
        }
    }

    /// Reads one byte.
    pub fn u8(&mut self) -> (r: Result<u8, CanonicalDecodeError>)
        requires
            old(self).wf(),
        ensures
            old(self).read_as(*final(self), r, u8_at(old(self).bytes@, old(self).cursor as int)),
    {
        if self.cursor >= self.bytes.len() {
            return Err(CanonicalDecodeError::Truncated);
        }
        let value = self.bytes[self.cursor];
        self.cursor = self.cursor + 1;
        Ok(value)
    }

    /// Reads a run of bytes.
    pub fn take_exact(&mut self, length: usize) -> (r: Result<&'a [u8], CanonicalDecodeError>)
        requires
            old(self).wf(),
        ensures
            final(self).bytes@ == old(self).bytes@,
            final(self).wf(),
            match take_at(old(self).bytes@, old(self).cursor as int, length as int) {
                Ok((field, end)) => r matches Ok(value) && value@ == field && final(self).cursor
                    == end,
                Err(e) => r matches Err(error) && error@ == e,
            },
    {
        if length > usize::MAX - self.cursor {
            return Err(CanonicalDecodeError::LengthOverflow);
        }
        let end: usize = self.cursor + length;
        if end > self.bytes.len() {
            return Err(CanonicalDecodeError::Truncated);
        }
        let value = vstd::slice::slice_subrange(self.bytes, self.cursor, end);
        self.cursor = end;
        Ok(value)
    }

    /// Reads a 32-bit number.
    pub fn u32(&mut self) -> (r: Result<u32, CanonicalDecodeError>)
        requires
            old(self).wf(),
        ensures
            old(self).read_as(*final(self), r, u32_at(old(self).bytes@, old(self).cursor as int)),
    {
        match self.take_exact(4) {
            Ok(field) => Ok(u32_from_le_bytes(field)),
            Err(error) => Err(error),
        }
    }

    /// Reads a 64-bit number.
    pub fn u64(&mut self) -> (r: Result<u64, CanonicalDecodeError>)
        requires
            old(self).wf(),
        ensures
            old(self).read_as(*final(self), r, u64_at(old(self).bytes@, old(self).cursor as int)),
    {
        match self.take_exact(8) {
            Ok(field) => Ok(u64_from_le_bytes(field)),
            Err(error) => Err(error),
        }
    }

    /// Reads a signed 64-bit number.
    pub fn i64(&mut self) -> (r: Result<i64, CanonicalDecodeError>)
        requires
            old(self).wf(),
        ensures
            final(self).bytes@ == old(self).bytes@,
            final(self).wf(),
            match u64_at(old(self).bytes@, old(self).cursor as int) {
                Ok((value, end)) => r == Ok::<i64, CanonicalDecodeError>(value as i64)
                    && final(self).cursor == end,
                Err(e) => r matches Err(error) && error@ == e,
            },
    {
        match self.u64() {
            Ok(value) => Ok(value as i64),
            Err(error) => Err(error),
        }
    }

    /// Reads sixteen bytes.
    pub fn fixed16(&mut self) -> (r: Result<[u8; 16], CanonicalDecodeError>)
        requires
            old(self).wf(),
        ensures
            final(self).bytes@ == old(self).bytes@,
            final(self).wf(),
            match take_at(old(self).bytes@, old(self).cursor as int, 16) {
                Ok((field, end)) => r matches Ok(value) && value@ == field && final(self).cursor
                    == end,
                Err(e) => r matches Err(error) && error@ == e,
            },
    {
        match self.take_exact(16) {
            Ok(field) => {
                let mut value: [u8; 16] = [0u8; 16];
                let mut i: usize = 0;
                while i < 16
                    invariant
                        i <= 16,
                        field@.len() == 16,
                        value@.take(i as int) =~= field@.take(i as int),
                    decreases 16 - i,
                {
                    value[i] = field[i];
                    i = i + 1;
                }
                assert(value@ =~= field@) by {
                    assert(value@.take(16) =~= value@);
                    assert(field@.take(16) =~= field@);
                }
                Ok(value)
            },
            Err(error) => Err(error),
        }
    }

    /// Reads thirty-two bytes.
    pub fn fixed32(&mut self) -> (r: Result<[u8; 32], CanonicalDecodeError>)
        requires
            old(self).wf(),
        ensures
            final(self).bytes@ == old(self).bytes@,
            final(self).wf(),
            match take_at(old(self).bytes@, old(self).cursor as int, 32) {
                Ok((field, end)) => r matches Ok(value) && value@ == field && final(self).cursor
                    == end,
                Err(e) => r matches Err(error) && error@ == e,
            },
    {
        match self.take_exact(32) {
            Ok(field) => {
                let mut value: [u8; 32] = [0u8; 32];
                let mut i: usize = 0;
                while i < 32
                    invariant
                        i <= 32,
                        field@.len() == 32,
                        value@.take(i as int) =~= field@.take(i as int),
                    decreases 32 - i,
                {
                    value[i] = field[i];
                    i = i + 1;
                }
                assert(value@ =~= field@) by {
                    assert(value@.take(32) =~= value@);
                    assert(field@.take(32) =~= field@);
                }
                Ok(value)
            },
            Err(error) => Err(error),
        }
    }

    /// Reads bytes behind their length.
    pub fn bounded_bytes(&mut self, maximum: u32) -> (r: Result<Vec<u8>, CanonicalDecodeError>)
        requires
            old(self).wf(),
        ensures
            final(self).bytes@ == old(self).bytes@,
            final(self).wf(),
            match bounded_at(old(self).bytes@, old(self).cursor as int, maximum) {
                Ok((field, end)) => r matches Ok(value) && value@ == field && final(self).cursor
                    == end,
                Err(e) => r matches Err(error) && error@ == e,
            },
    {
        let length = match self.u32() {
            Ok(length) => length,
            Err(error) => {
                return Err(error);
            },
        };
        if length > maximum {
            return Err(CanonicalDecodeError::FieldTooLarge { observed: length, maximum });
        }
        match self.take_exact(length as usize) {
            Ok(field) => Ok(vstd::slice::slice_to_vec(field)),
            Err(error) => Err(error),
        }
    }

    /// Passes over bytes behind their length.
    pub fn skip_bounded_bytes(&mut self, maximum: u32) -> (r: Result<usize, CanonicalDecodeError>)
        requires
            old(self).wf(),
        ensures
            final(self).bytes@ == old(self).bytes@,
            final(self).wf(),
            match bounded_at(old(self).bytes@, old(self).cursor as int, maximum) {
                Ok((field, end)) => r matches Ok(value) && value == field.len()
                    && final(self).cursor == end,
                Err(e) => r matches Err(error) && error@ == e,
            },
    {
        let length = match self.u32() {
            Ok(length) => length,
            Err(error) => {
                return Err(error);
            },
        };
        if length > maximum {
            return Err(CanonicalDecodeError::FieldTooLarge { observed: length, maximum });
        }
        match self.take_exact(length as usize) {
            Ok(_) => Ok(length as usize),
            Err(error) => Err(error),
        }
    }

    /// Checks that nothing is left.
    pub fn finish(self) -> (r: Result<(), CanonicalDecodeError>)
        ensures
            r is Ok == (self.cursor == self.bytes@.len()),
            r matches Err(error) ==> error@ == DecodeErrorView::TrailingBytes,
    {
        if self.cursor == self.bytes.len() {
            Ok(())
        } else {
            Err(CanonicalDecodeError::TrailingBytes)
        }
    }
}

/// A number written is read back.
pub proof fn u32_reads_back(value: u32, before: Seq<u8>, after: Seq<u8>)
    requires
        before.len() + 4 + after.len() <= usize::MAX,
    ensures
        spec_u32_to_le_bytes(value).len() == 4,
        u32_at(before + spec_u32_to_le_bytes(value) + after, before.len() as int) == Ok::<
            (u32, int),
            DecodeErrorView,
        >((value, before.len() as int + 4)),
{
    lemma_auto_spec_u32_to_from_le_bytes();
    let field = spec_u32_to_le_bytes(value);
    let whole = before + field + after;
    assert(whole.subrange(before.len() as int, before.len() as int + 4) =~= field);
}

/// A number written is read back.
pub proof fn u64_reads_back(value: u64, before: Seq<u8>, after: Seq<u8>)
    requires
        before.len() + 8 + after.len() <= usize::MAX,
    ensures
        spec_u64_to_le_bytes(value).len() == 8,
        u64_at(before + spec_u64_to_le_bytes(value) + after, before.len() as int) == Ok::<
            (u64, int),
            DecodeErrorView,
        >((value, before.len() as int + 8)),
{
    lemma_auto_spec_u64_to_from_le_bytes();
    let field = spec_u64_to_le_bytes(value);
    let whole = before + field + after;
    assert(whole.subrange(before.len() as int, before.len() as int + 8) =~= field);
}

/// A run of bytes written is read back.
pub proof fn run_reads_back(field: Seq<u8>, before: Seq<u8>, after: Seq<u8>)
    requires
        before.len() + field.len() + after.len() <= usize::MAX,
    ensures
        take_at(before + field + after, before.len() as int, field.len() as int) == Ok::<
            (Seq<u8>, int),
            DecodeErrorView,
        >((field, (before.len() + field.len()) as int)),
{
    let whole = before + field + after;
    assert(whole.subrange(before.len() as int, (before.len() + field.len()) as int) =~= field);
}

/// Bytes written behind their length are read back.
pub proof fn bounded_reads_back(value: Seq<u8>, before: Seq<u8>, after: Seq<u8>, maximum: u32)
    requires
        before.len() + 4 + value.len() + after.len() <= usize::MAX,
        value.len() <= maximum,
    ensures
        bounded(value).len() == 4 + value.len(),
        bounded_at(before + bounded(value) + after, before.len() as int, maximum) == Ok::<
            (Seq<u8>, int),
            DecodeErrorView,
        >((value, (before.len() + 4 + value.len()) as int)),
{
    let length = spec_u32_to_le_bytes(value.len() as u32);
    u32_reads_back(value.len() as u32, before, value + after);
    run_reads_back(value, before + length, after);
    assert(before + bounded(value) + after =~= before + length + (value + after));
    assert(before + bounded(value) + after =~= (before + length) + value + after);
}

/// A number read is written back.
pub proof fn u32_writes_back(bytes: Seq<u8>, at: int)
    requires
        0 <= at,
        u32_at(bytes, at) is Ok,
    ensures
        u32_at(bytes, at)->Ok_0.1 == at + 4 <= bytes.len(),
        spec_u32_to_le_bytes(u32_at(bytes, at)->Ok_0.0) == bytes.subrange(at, at + 4),
{
    lemma_auto_spec_u32_to_from_le_bytes();
    assert(bytes.subrange(at, at + 4).len() == 4);
}

/// A number read is written back.
pub proof fn u64_writes_back(bytes: Seq<u8>, at: int)
    requires
        0 <= at,
        u64_at(bytes, at) is Ok,
    ensures
        u64_at(bytes, at)->Ok_0.1 == at + 8 <= bytes.len(),
        spec_u64_to_le_bytes(u64_at(bytes, at)->Ok_0.0) == bytes.subrange(at, at + 8),
{
    lemma_auto_spec_u64_to_from_le_bytes();
    assert(bytes.subrange(at, at + 8).len() == 8);
}

/// Bytes read behind their length are written back.
pub proof fn bounded_writes_back(bytes: Seq<u8>, at: int, maximum: u32)
    requires
        0 <= at,
        bounded_at(bytes, at, maximum) is Ok,
    ensures
        ({
            let (value, end) = bounded_at(bytes, at, maximum)->Ok_0;
            &&& end == at + 4 + value.len() <= bytes.len()
            &&& value.len() <= maximum
            &&& bounded(value) == bytes.subrange(at, end)
        }),
{
    u32_writes_back(bytes, at);
    let (value, end) = bounded_at(bytes, at, maximum)->Ok_0;
    assert(bounded(value) =~= bytes.subrange(at, end));
}

/// One entry of a canonical page.
pub trait CanonicalItem: View + Sized {
    /// Whether an entry can be written and read back under given bounds.
    spec fn item_fits(value: Self::V, limits: DecodeLimits) -> bool;

    /// Whether an entry has a canonical form at all.
    spec fn item_writable(value: Self::V) -> bool;

    /// Canonical bytes of an entry.
    spec fn item_bytes(value: Self::V) -> Seq<u8>;

    /// The entry at a position.
    spec fn item_at(bytes: Seq<u8>, at: int, limits: DecodeLimits) -> Field<Self::V>;

    /// The extent of an entry at a position, without looking at its meaning:
    /// bytes of nested buffers and the position behind it.
    spec fn skip_at(bytes: Seq<u8>, at: int, limits: DecodeLimits) -> Field<nat>;

    /// Bytes of nested buffers of an entry.
    spec fn nested(value: Self::V) -> nat;

    /// An entry written is read back.
    proof fn item_reads_back(
        value: Self::V,
        before: Seq<u8>,
        after: Seq<u8>,
        limits: DecodeLimits,
    )
        requires
            Self::item_fits(value, limits),
            before.len() + Self::item_bytes(value).len() + after.len() <= usize::MAX,
        ensures
            Self::item_writable(value),
            Self::item_at(
                before + Self::item_bytes(value) + after,
                before.len() as int,
                limits,
            ) == Ok::<(Self::V, int), DecodeErrorView>(
                (value, (before.len() + Self::item_bytes(value).len()) as int),
            ),
    ;

    /// An entry read is written back.
    proof fn item_writes_back(bytes: Seq<u8>, at: int, limits: DecodeLimits)
        requires
            0 <= at <= bytes.len(),
            Self::item_at(bytes, at, limits) is Ok,
        ensures
            ({
                let (value, end) = Self::item_at(bytes, at, limits)->Ok_0;
                &&& at <= end <= bytes.len()
                &&& Self::item_bytes(value) == bytes.subrange(at, end)
                &&& Self::item_fits(value, limits)
                &&& Self::skip_at(bytes, at, limits) == Ok::<(nat, int), DecodeErrorView>(
                    (Self::nested(value), end),
                )
            }),
    ;

    /// A passed entry ends within the object.
    proof fn skip_stays_within(bytes: Seq<u8>, at: int, limits: DecodeLimits)
        requires
            0 <= at <= bytes.len(),
            Self::skip_at(bytes, at, limits) is Ok,
        ensures
            ({
                let (nested, end) = Self::skip_at(bytes, at, limits)->Ok_0;
                at <= end <= bytes.len() && nested <= end - at
            }),
    ;

    /// Appends an entry.
    fn write_item(&self, encoder: &mut Encoder) -> (r: Result<(), CanonicalDecodeError>)
        ensures
            r is Ok == Self::item_writable(self@),
            r is Ok ==> final(encoder)@ == old(encoder)@ + Self::item_bytes(self@),
            r matches Err(error) ==> error@ == DecodeErrorView::LengthOverflow,
    ;

    /// Reads an entry.
    fn read_item(decoder: &mut Decoder<'_>, limits: DecodeLimits) -> (r: Result<
        Self,
        CanonicalDecodeError,
    >)
        requires
            old(decoder).wf(),
        ensures
            final(decoder).bytes@ == old(decoder).bytes@,
            final(decoder).wf(),
            match Self::item_at(old(decoder).bytes@, old(decoder).cursor as int, limits) {
                Ok((value, end)) => r matches Ok(item) && item@ == value && final(decoder).cursor
                    == end,
                Err(e) => r matches Err(error) && error@ == e,
            },
    ;

    /// Passes over an entry.
    fn skip_item(decoder: &mut Decoder<'_>, limits: DecodeLimits) -> (r: Result<
        usize,
        CanonicalDecodeError,
    >)
        requires
            old(decoder).wf(),
        ensures
            final(decoder).bytes@ == old(decoder).bytes@,
            final(decoder).wf(),
            match Self::skip_at(old(decoder).bytes@, old(decoder).cursor as int, limits) {
                Ok((nested, end)) => r matches Ok(size) && size == nested && final(decoder).cursor
                    == end,
                Err(e) => r matches Err(error) && error@ == e,
            },
    ;
}

/// Canonical bytes of a run of entries.
pub open spec fn items_bytes<T: CanonicalItem>(items: Seq<T::V>) -> Seq<u8>
    decreases items.len(),
{
    if items.len() == 0 {
        Seq::empty()
    } else {
        items_bytes::<T>(items.drop_last()) + T::item_bytes(items.last())
    }
}

/// A run of entries at a position.
pub open spec fn items_at<T: CanonicalItem>(
    bytes: Seq<u8>,
    at: int,
    limits: DecodeLimits,
    count: nat,
) -> Field<Seq<T::V>>
    decreases count,
{
    if count == 0 {
        Ok((Seq::empty(), at))
    } else {
        match items_at::<T>(bytes, at, limits, (count - 1) as nat) {
            Err(error) => Err(error),
            Ok((items, mid)) => match T::item_at(bytes, mid, limits) {
                Err(error) => Err(error),
                Ok((item, end)) => Ok((items.push(item), end)),
            },
        }
    }
}

/// The extent of a run of entries at a position.
pub open spec fn skips_at<T: CanonicalItem>(
    bytes: Seq<u8>,
    at: int,
    limits: DecodeLimits,
    count: nat,
) -> Field<nat>
    decreases count,
{
    if count == 0 {
        Ok((0, at))
    } else {
        match skips_at::<T>(bytes, at, limits, (count - 1) as nat) {
            Err(error) => Err(error),
            Ok((nested, mid)) => match T::skip_at(bytes, mid, limits) {
                Err(error) => Err(error),
                Ok((more, end)) => Ok((nested + more, end)),
            },
        }
    }
}

/// Bytes of nested buffers of a run of entries.
pub open spec fn nested_bytes<T: CanonicalItem>(items: Seq<T::V>) -> nat
    decreases items.len(),
{
    if items.len() == 0 {
        0
    } else {
        nested_bytes::<T>(items.drop_last()) + T::nested(items.last())
    }
}

/// Whether every entry fits given bounds.
pub open spec fn items_fit<T: CanonicalItem>(items: Seq<T::V>, limits: DecodeLimits) -> bool {
    forall|i: int| 0 <= i < items.len() ==> T::item_fits(#[trigger] items[i], limits)
}

/// Whether every entry has a canonical form.
pub open spec fn items_writable<T: CanonicalItem>(items: Seq<T::V>) -> bool {
    forall|i: int| 0 <= i < items.len() ==> T::item_writable(#[trigger] items[i])
}

/// Entries written are read back.
pub proof fn items_read_back<T: CanonicalItem>(
    items: Seq<T::V>,
    before: Seq<u8>,
    after: Seq<u8>,
    limits: DecodeLimits,
)
    requires
        items_fit::<T>(items, limits),
        before.len() + items_bytes::<T>(items).len() + after.len() <= usize::MAX,
    ensures
        items_writable::<T>(items),
        items_at::<T>(
            before + items_bytes::<T>(items) + after,
            before.len() as int,
            limits,
            items.len(),
        ) == Ok::<(Seq<T::V>, int), DecodeErrorView>(
            (items, (before.len() + items_bytes::<T>(items).len()) as int),
        ),
    decreases items.len(),
{
    if items.len() > 0 {
        let front = items.drop_last();
        let last = items.last();
        let body = T::item_bytes(last);
        let head = items_bytes::<T>(front);
        assert forall|i: int| 0 <= i < front.len() implies T::item_fits(
            #[trigger] front[i],
            limits,
        ) by {
            assert(front[i] == items[i]);
        }
        assert(T::item_fits(items[items.len() - 1], limits));
        items_read_back::<T>(front, before, body + after, limits);
        T::item_reads_back(last, before + head, after, limits);
        let whole = before + items_bytes::<T>(items) + after;
        assert(whole =~= before + head + (body + after));
        assert(whole =~= (before + head) + body + after);
        assert(front.push(last) =~= items);
        assert forall|i: int| 0 <= i < items.len() implies T::item_writable(#[trigger] items[i]) by {
            if i < front.len() {
                assert(front[i] == items[i]);
            }
        }
    } else {
        assert(items =~= Seq::<T::V>::empty());
    }
}

/// Entries read are written back, and their extent is what a pass over them finds.
pub proof fn items_write_back<T: CanonicalItem>(
    bytes: Seq<u8>,
    at: int,
    limits: DecodeLimits,
    count: nat,
)
    requires
        0 <= at <= bytes.len(),
        items_at::<T>(bytes, at, limits, count) is Ok,
    ensures
        ({
            let (items, end) = items_at::<T>(bytes, at, limits, count)->Ok_0;
            &&& items.len() == count
            &&& at <= end <= bytes.len()
            &&& items_bytes::<T>(items) == bytes.subrange(at, end)
            &&& items_fit::<T>(items, limits)
            &&& skips_at::<T>(bytes, at, limits, count) == Ok::<(nat, int), DecodeErrorView>(
                (nested_bytes::<T>(items), end),
            )
        }),
    decreases count,
{
    if count > 0 {
        items_write_back::<T>(bytes, at, limits, (count - 1) as nat);
        let (front, mid) = items_at::<T>(bytes, at, limits, (count - 1) as nat)->Ok_0;
        T::item_writes_back(bytes, mid, limits);
        let (last, end) = T::item_at(bytes, mid, limits)->Ok_0;
        let items = front.push(last);
        assert(items.drop_last() =~= front);
        assert(items_bytes::<T>(items) =~= bytes.subrange(at, end)) by {
            assert(bytes.subrange(at, mid) + bytes.subrange(mid, end) =~= bytes.subrange(at, end));
        }
        assert forall|i: int| 0 <= i < items.len() implies T::item_fits(
            #[trigger] items[i],
            limits,
        ) by {
            if i < front.len() {
                assert(front[i] == items[i]);
            }
        }
    } else {
        assert(bytes.subrange(at, at) =~= Seq::<u8>::empty());
    }
}

proof fn lemma_items_fail<T: CanonicalItem>(
    bytes: Seq<u8>,
    at: int,
    limits: DecodeLimits,
    count: nat,
    upto: nat,
)
    requires
        count <= upto,
        items_at::<T>(bytes, at, limits, count) is Err,
    ensures
        items_at::<T>(bytes, at, limits, upto) == items_at::<T>(bytes, at, limits, count),
    decreases upto,
{
    if count < upto {
        lemma_items_fail::<T>(bytes, at, limits, count, (upto - 1) as nat);
    }
}

proof fn lemma_skips_fail<T: CanonicalItem>(
    bytes: Seq<u8>,
    at: int,
    limits: DecodeLimits,
    count: nat,
    upto: nat,
)
    requires
        count <= upto,
        skips_at::<T>(bytes, at, limits, count) is Err,
    ensures
        skips_at::<T>(bytes, at, limits, upto) == skips_at::<T>(bytes, at, limits, count),
    decreases upto,
{
    if count < upto {
        lemma_skips_fail::<T>(bytes, at, limits, count, (upto - 1) as nat);
    }
}

/// Appends a run of entries.
pub fn write_items<T: CanonicalItem>(items: &Vec<T>, encoder: &mut Encoder) -> (r: Result<
    (),
    CanonicalDecodeError,
>)
    ensures
        r is Ok == items_writable::<T>(views(items@)),
        r is Ok ==> final(encoder)@ == old(encoder)@ + items_bytes::<T>(views(items@)),
        r matches Err(error) ==> error@ == DecodeErrorView::LengthOverflow,
{
    let ghost start = encoder@;
    let ghost all = views(items@);
    let mut i: usize = 0;
    assert(all.take(0) =~= Seq::<T::V>::empty());
    assert(start + items_bytes::<T>(all.take(0)) =~= start);
    while i < items.len()
        invariant
            i <= items@.len(),
            start == old(encoder)@,
            all == views(items@),
            encoder@ == start + items_bytes::<T>(all.take(i as int)),
            forall|j: int| 0 <= j < i ==> T::item_writable(#[trigger] all[j]),
        decreases items@.len() - i,
    {
        assert(all[i as int] == items@[i as int]@);
        match items[i].write_item(encoder) {
            Ok(()) => {
                proof {
                    let next = all.take(i + 1);
                    assert(next.drop_last() =~= all.take(i as int));
                    assert(next.last() == all[i as int]);
                    assert(encoder@ =~= start + items_bytes::<T>(next));
                }
            },
            Err(error) => {
                assert(!T::item_writable(all[i as int]));
                return Err(error);
            },
        }
        i = i + 1;
    }
    assert(all.take(i as int) =~= all);
    Ok(())
}

/// Reads a run of entries.
pub fn read_items<T: CanonicalItem>(
    decoder: &mut Decoder<'_>,
    limits: DecodeLimits,
    count: u32,
) -> (r: Result<Vec<T>, CanonicalDecodeError>)
    requires
        old(decoder).wf(),
    ensures
        final(decoder).bytes@ == old(decoder).bytes@,
        final(decoder).wf(),
        match items_at::<T>(
            old(decoder).bytes@,
            old(decoder).cursor as int,
            limits,
            count as nat,
        ) {
            Ok((items, end)) => r matches Ok(found) && views(found@) == items
                && final(decoder).cursor == end,
            Err(e) => r matches Err(error) && error@ == e,
        },
{
    let ghost bytes = decoder.bytes@;
    let ghost at = decoder.cursor as int;
    let mut items: Vec<T> = Vec::new();
    let mut i: u32 = 0;
    assert(views(items@) =~= Seq::<T::V>::empty());
    while i < count
        invariant
            i <= count,
            bytes == old(decoder).bytes@,
            at == old(decoder).cursor as int,
            decoder.bytes@ == bytes,
            decoder.wf(),
            items_at::<T>(bytes, at, limits, i as nat) == Ok::<
                (Seq<T::V>, int),
                DecodeErrorView,
            >((views(items@), decoder.cursor as int)),
        decreases count - i,
    {
        let ghost before = views(items@);
        match T::read_item(decoder, limits) {
            Ok(item) => {
                let ghost value = item@;
                items.push(item);
                assert(views(items@) =~= before.push(value));
            },
            Err(error) => {
                proof {
                    assert(items_at::<T>(bytes, at, limits, (i + 1) as nat) == Err::<
                        (Seq<T::V>, int),
                        DecodeErrorView,
                    >(error@));
                    lemma_items_fail::<T>(bytes, at, limits, (i + 1) as nat, count as nat);
                }
                return Err(error);
            },
        }
        i = i + 1;
    }
    Ok(items)
}

/// Passes over a run of entries and adds up their nested bytes.
pub fn skip_items<T: CanonicalItem>(
    decoder: &mut Decoder<'_>,
    limits: DecodeLimits,
    count: u32,
) -> (r: Result<u64, CanonicalDecodeError>)
    requires
        old(decoder).wf(),
    ensures
        final(decoder).bytes@ == old(decoder).bytes@,
        final(decoder).wf(),
        match skips_at::<T>(
            old(decoder).bytes@,
            old(decoder).cursor as int,
            limits,
            count as nat,
        ) {
            Ok((nested, end)) => r matches Ok(found) && found == nested && final(decoder).cursor
                == end,
            Err(e) => r matches Err(error) && error@ == e,
        },
{
    let ghost bytes = decoder.bytes@;
    let ghost at = decoder.cursor as int;
    let mut nested: u64 = 0;
    let mut i: u32 = 0;
    while i < count
        invariant
            i <= count,
            bytes == old(decoder).bytes@,
            at == old(decoder).cursor as int,
            decoder.bytes@ == bytes,
            decoder.wf(),
            at <= decoder.cursor,
            nested <= decoder.cursor - at,
            skips_at::<T>(bytes, at, limits, i as nat) == Ok::<(nat, int), DecodeErrorView>(
                (nested as nat, decoder.cursor as int),
            ),
        decreases count - i,
    {
        let ghost mid = decoder.cursor as int;
        match T::skip_item(decoder, limits) {
            Ok(size) => {
                proof {
                    T::skip_stays_within(bytes, mid, limits);
                }
                nested = nested + size as u64;
            },
            Err(error) => {
                proof {
                    assert(skips_at::<T>(bytes, at, limits, (i + 1) as nat) == Err::<
                        (nat, int),
                        DecodeErrorView,
                    >(error@));
                    lemma_skips_fail::<T>(bytes, at, limits, (i + 1) as nat, count as nat);
                }
                return Err(error);
            },
        }
        i = i + 1;
    }
    Ok(nested)
}

/// A page that has been taken apart: leaf entries or inner entries.
pub enum Page<L, C> {
    /// Leaf entries.
    Leaf(Vec<L>),
    /// Inner entries.
    Internal(Vec<C>),
}

/// Abstract value of [`Page`].
#[verifier::ext_equal]
pub enum PageView<L, C> {
    /// Leaf entries.
    Leaf(Seq<L>),
    /// Inner entries.
    Internal(Seq<C>),
}

impl<L: View, C: View> View for Page<L, C> {
    type V = PageView<L::V, C::V>;

    open spec fn view(&self) -> PageView<L::V, C::V> {
        match *self {
            Page::Leaf(entries) => PageView::Leaf(views(entries@)),
            Page::Internal(entries) => PageView::Internal(views(entries@)),
        }
    }
}

/// Domain, version and field name of a page format.
#[verifier::ext_equal]
pub struct PageFormat {
    /// First bytes of every page.
    pub domain: Seq<u8>,
    /// Format version.
    pub version: u16,
    /// Name of the page tag in errors.
    pub field: Seq<char>,
}

/// A page format.
#[derive(Clone, Copy, Debug)]
pub struct Format {
    /// First bytes of every page.
    pub domain: [u8; 8],
    /// Format version.
    pub version: u16,
    /// Name of the page tag in errors.
    pub field: &'static str,
}

impl View for Format {
    type V = PageFormat;

    open spec fn view(&self) -> PageFormat {
        PageFormat { domain: self.domain@, version: self.version, field: self.field@ }
    }
}

/// Number of entries of a page.
pub open spec fn page_count<L, C>(page: PageView<L, C>) -> nat {
    match page {
        PageView::Leaf(entries) => entries.len(),
        PageView::Internal(entries) => entries.len(),
    }
}

/// Canonical bytes of a page with a given tag.
pub open spec fn entries_bytes<T: CanonicalItem>(
    format: PageFormat,
    tag: u8,
    entries: Seq<T::V>,
) -> Seq<u8> {
    header(format.domain, format.version) + seq![tag] + spec_u32_to_le_bytes(entries.len() as u32)
        + items_bytes::<T>(entries)
}

/// Canonical bytes of a page.
pub open spec fn page_bytes<L: CanonicalItem, C: CanonicalItem>(
    format: PageFormat,
    page: PageView<L::V, C::V>,
) -> Seq<u8> {
    match page {
        PageView::Leaf(entries) => entries_bytes::<L>(format, 1, entries),
        PageView::Internal(entries) => entries_bytes::<C>(format, 2, entries),
    }
}

/// Whether every entry of a page has a canonical form.
pub open spec fn page_writable<L: CanonicalItem, C: CanonicalItem>(
    page: PageView<L::V, C::V>,
) -> bool {
    match page {
        PageView::Leaf(entries) => items_writable::<L>(entries),
        PageView::Internal(entries) => items_writable::<C>(entries),
    }
}

/// Whether a page can be read back under given bounds.
pub open spec fn page_fits<L: CanonicalItem, C: CanonicalItem>(
    format: PageFormat,
    page: PageView<L::V, C::V>,
    limits: DecodeLimits,
) -> bool {
    &&& page_bytes::<L, C>(format, page).len() <= limits.page_object_bytes()
    &&& page_bytes::<L, C>(format, page).len() <= usize::MAX
    &&& page_count(page) <= limits.maximum_page_items
    &&& match page {
        PageView::Leaf(entries) => items_fit::<L>(entries, limits),
        PageView::Internal(entries) => items_fit::<C>(entries, limits),
    }
}

/// Tag, count and position of the first entry of a page.
pub open spec fn page_start(bytes: Seq<u8>, format: PageFormat, limits: DecodeLimits) -> Result<
    (u8, u32, int),
    DecodeErrorView,
> {
    match header_at(bytes, format.domain, format.version, limits.page_object_bytes()) {
        Err(error) => Err(error),
        Ok(at) => match u8_at(bytes, at) {
            Err(error) => Err(error),
            Ok((tag, at)) => match u32_at(bytes, at) {
                Err(error) => Err(error),
                Ok((count, at)) => if count > limits.maximum_page_items {
                    Err(
                        DecodeErrorView::FieldTooLarge {
                            observed: count,
                            maximum: limits.maximum_page_items,
                        },
                    )
                } else {
                    Ok((tag, count, at))
                },
            },
        },
    }
}

/// The page that bytes stand for.
pub open spec fn page_at<L: CanonicalItem, C: CanonicalItem>(
    bytes: Seq<u8>,
    format: PageFormat,
    limits: DecodeLimits,
) -> Result<PageView<L::V, C::V>, DecodeErrorView> {
    match page_start(bytes, format, limits) {
        Err(error) => Err(error),
        Ok((tag, count, at)) => if tag == 1 {
            match items_at::<L>(bytes, at, limits, count as nat) {
                Err(error) => Err(error),
                Ok((entries, end)) => if end == bytes.len() {
                    Ok(PageView::Leaf(entries))
                } else {
                    Err(DecodeErrorView::TrailingBytes)
                },
            }
        } else if tag == 2 {
            match items_at::<C>(bytes, at, limits, count as nat) {
                Err(error) => Err(error),
                Ok((entries, end)) => if end == bytes.len() {
                    Ok(PageView::Internal(entries))
                } else {
                    Err(DecodeErrorView::TrailingBytes)
                },
            }
        } else {
            Err(DecodeErrorView::UnknownTag { field: format.field, tag })
        },
    }
}

/// Kind of a page whose entries were passed over.
#[derive(Clone, Copy, Debug, PartialEq, Eq, Structural)]
pub enum DecodedPageKind {
    /// Leaf entries.
    Leaf,
    /// Inner entries.
    Internal,
}

/// Extent of a page whose entries were passed over.
#[derive(Clone, Copy, Debug, PartialEq, Eq, Structural)]
pub struct DecodedPageShape {
    /// Kind of entries.
    pub kind: DecodedPageKind,
    /// Number of entries.
    pub items: usize,
    /// Bytes of nested buffers.
    pub nested_bytes: u64,
}

/// The extent of the page that bytes stand for.
pub open spec fn page_shape<L: CanonicalItem, C: CanonicalItem>(
    bytes: Seq<u8>,
    format: PageFormat,
    limits: DecodeLimits,
) -> Result<(DecodedPageKind, nat, nat), DecodeErrorView> {
    match page_start(bytes, format, limits) {
        Err(error) => Err(error),
        Ok((tag, count, at)) => if tag == 1 || tag == 2 {
            let passed = if tag == 1 {
                skips_at::<L>(bytes, at, limits, count as nat)
            } else {
                skips_at::<C>(bytes, at, limits, count as nat)
            };
            match passed {
                Err(error) => Err(error),
                Ok((nested, end)) => if end == bytes.len() {
                    Ok(
                        (
                            if tag == 1 {
                                DecodedPageKind::Leaf
                            } else {
                                DecodedPageKind::Internal
                            },
                            count as nat,
                            nested,
                        ),
                    )
                } else {
                    Err(DecodeErrorView::TrailingBytes)
                },
            }
        } else {
            Err(DecodeErrorView::UnknownTag { field: format.field, tag })
        },
    }
}

/// A page written is read back.
pub proof fn page_reads_back<L: CanonicalItem, C: CanonicalItem>(
    format: PageFormat,
    page: PageView<L::V, C::V>,
    limits: DecodeLimits,
)
    requires
        page_fits::<L, C>(format, page, limits),
    ensures
        page_writable::<L, C>(page),
        page_at::<L, C>(page_bytes::<L, C>(format, page), format, limits) == Ok::<
            PageView<L::V, C::V>,
            DecodeErrorView,
        >(page),
{
    lemma_auto_spec_u16_to_from_le_bytes();
    lemma_auto_spec_u32_to_from_le_bytes();
    let bytes = page_bytes::<L, C>(format, page);
    let front = header(format.domain, format.version);
    let size = format.domain.len() as int;
    let count = page_count(page) as u32;
    let tag: u8 = match page {
        PageView::Leaf(_) => 1u8,
        PageView::Internal(_) => 2u8,
    };
    let entries = match page {
        PageView::Leaf(entries) => items_bytes::<L>(entries),
        PageView::Internal(entries) => items_bytes::<C>(entries),
    };
    let number = spec_u32_to_le_bytes(count);
    assert(spec_u16_to_le_bytes(format.version).len() == 2);
    assert(number.len() == 4);
    assert(bytes.take(size) =~= format.domain);
    assert(bytes.subrange(size, size + 2) =~= spec_u16_to_le_bytes(format.version));
    assert(bytes[size + 2] == tag);
    let head = front + seq![tag];
    u32_reads_back(count, head, entries);
    assert(bytes =~= head + number + entries);
    match page {
        PageView::Leaf(items) => {
            items_read_back::<L>(items, head + number, Seq::empty(), limits);
        },
        PageView::Internal(items) => {
            items_read_back::<C>(items, head + number, Seq::empty(), limits);
        },
    }
    assert(bytes =~= (head + number) + entries + Seq::<u8>::empty());
}

/// A page read is written back byte for byte, and a pass over it finds its extent.
pub proof fn page_writes_back<L: CanonicalItem, C: CanonicalItem>(
    bytes: Seq<u8>,
    format: PageFormat,
    limits: DecodeLimits,
)
    requires
        bytes.len() <= usize::MAX,
        page_at::<L, C>(bytes, format, limits) is Ok,
    ensures
        ({
            let page = page_at::<L, C>(bytes, format, limits)->Ok_0;
            &&& page_bytes::<L, C>(format, page) == bytes
            &&& page_fits::<L, C>(format, page, limits)
            &&& page_shape::<L, C>(bytes, format, limits) == Ok::<
                (DecodedPageKind, nat, nat),
                DecodeErrorView,
            >(
                match page {
                    PageView::Leaf(entries) => (
                        DecodedPageKind::Leaf,
                        entries.len(),
                        nested_bytes::<L>(entries),
                    ),
                    PageView::Internal(entries) => (
                        DecodedPageKind::Internal,
                        entries.len(),
                        nested_bytes::<C>(entries),
                    ),
                },
            )
        }),
{
    lemma_auto_spec_u16_to_from_le_bytes();
    let page = page_at::<L, C>(bytes, format, limits)->Ok_0;
    let size = format.domain.len() as int;
    let (tag, count, at) = page_start(bytes, format, limits)->Ok_0;
    u32_writes_back(bytes, size + 3);
    assert(at == size + 7);
    if tag == 1 {
        items_write_back::<L>(bytes, at, limits, count as nat);
    } else {
        items_write_back::<C>(bytes, at, limits, count as nat);
    }
    let written = page_bytes::<L, C>(format, page);
    let version = bytes.subrange(size, size + 2);
    assert(version.len() == 2);
    assert(spec_u16_to_le_bytes(format.version) == version);
    assert(bytes =~= bytes.take(size) + version + seq![tag] + bytes.subrange(size + 3, size + 7)
        + bytes.subrange(size + 7, bytes.len() as int));
    assert(written =~= bytes);
}

/// A page with bytes behind it is refused: for its size where that is not admitted, else
/// for the bytes.
pub proof fn page_refuses_more<L: CanonicalItem, C: CanonicalItem>(
    bytes: Seq<u8>,
    more: Seq<u8>,
    format: PageFormat,
    limits: DecodeLimits,
)
    requires
        page_at::<L, C>(bytes, format, limits) is Ok,
        more.len() > 0,
        bytes.len() + more.len() <= usize::MAX,
    ensures
        page_at::<L, C>(bytes + more, format, limits) == Err::<
            PageView<L::V, C::V>,
            DecodeErrorView,
        >(refused_more(bytes + more, limits.page_object_bytes())),
{
    lemma_auto_spec_u16_to_from_le_bytes();
    lemma_auto_spec_u32_to_from_le_bytes();
    page_writes_back::<L, C>(bytes, format, limits);
    let page = page_at::<L, C>(bytes, format, limits)->Ok_0;
    let whole = bytes + more;
    let size = format.domain.len() as int;
    let count = page_count(page) as u32;
    let tag: u8 = match page {
        PageView::Leaf(_) => 1u8,
        PageView::Internal(_) => 2u8,
    };
    let entries = match page {
        PageView::Leaf(entries) => items_bytes::<L>(entries),
        PageView::Internal(entries) => items_bytes::<C>(entries),
    };
    let number = spec_u32_to_le_bytes(count);
    assert(spec_u16_to_le_bytes(format.version).len() == 2);
    assert(number.len() == 4);
    assert(whole.take(size) =~= format.domain);
    assert(whole.subrange(size, size + 2) =~= spec_u16_to_le_bytes(format.version));
    assert(whole[size + 2] == tag);
    let head = header(format.domain, format.version) + seq![tag];
    u32_reads_back(count, head, entries + more);
    assert(whole =~= head + number + (entries + more));
    match page {
        PageView::Leaf(items) => {
            items_read_back::<L>(items, head + number, more, limits);
        },
        PageView::Internal(items) => {
            items_read_back::<C>(items, head + number, more, limits);
        },
    }
    assert(whole =~= (head + number) + entries + more);
}

/// Why bytes behind canonical ones are refused.
pub open spec fn refused_more(bytes: Seq<u8>, maximum: u64) -> DecodeErrorView {
    if bytes.len() > maximum {
        DecodeErrorView::ObjectTooLarge { observed: bytes.len() as u64, maximum }
    } else {
        DecodeErrorView::TrailingBytes
    }
}

/// A page that is cut off is refused.
pub proof fn page_refuses_less<L: CanonicalItem, C: CanonicalItem>(
    bytes: Seq<u8>,
    count: int,
    format: PageFormat,
    limits: DecodeLimits,
)
    requires
        page_at::<L, C>(bytes, format, limits) is Ok,
        0 <= count < bytes.len() <= usize::MAX,
    ensures
        page_at::<L, C>(bytes.take(count), format, limits) is Err,
{
    if page_at::<L, C>(bytes.take(count), format, limits) is Ok {
        page_refuses_more::<L, C>(bytes.take(count), bytes.skip(count), format, limits);
        assert(bytes.take(count) + bytes.skip(count) =~= bytes);
    }
}

/// Writes a page with a given tag.
pub fn write_entries<T: CanonicalItem>(entries: &Vec<T>, tag: u8, format: Format) -> (r: Result<
    Vec<u8>,
    CanonicalDecodeError,
>)
    requires
        entries@.len() <= u32::MAX,
    ensures
        r is Ok == items_writable::<T>(views(entries@)),
        r matches Ok(bytes) ==> bytes@ == entries_bytes::<T>(format@, tag, views(entries@)),
        r matches Err(error) ==> error@ == DecodeErrorView::LengthOverflow,
{
    let mut encoder = Encoder::new(format.domain.as_slice(), format.version);
    encoder.u8(tag);
    encoder.u32(entries.len() as u32);
    match write_items(entries, &mut encoder) {
        Ok(()) => {
            assert(encoder@ =~= entries_bytes::<T>(format@, tag, views(entries@)));
            Ok(encoder.finish())
        },
        Err(error) => Err(error),
    }
}

/// Reads tag and count of a page.
fn read_start<'a>(
    bytes: &'a [u8],
    format: Format,
    limits: DecodeLimits,
) -> (r: Result<(u8, u32, Decoder<'a>), CanonicalDecodeError>)
    ensures
        match page_start(bytes@, format@, limits) {
            Ok((tag, count, at)) => r matches Ok(found) && found.0 == tag && found.1 == count
                && found.2.wf() && found.2.bytes@ == bytes@ && found.2.cursor == at,
            Err(e) => r matches Err(error) && error@ == e,
        },
{
    let mut decoder = match Decoder::new(
        bytes,
        format.domain.as_slice(),
        format.version,
        limits.maximum_page_object_bytes(),
    ) {
        Ok(decoder) => decoder,
        Err(error) => {
            return Err(error);
        },
    };
    let tag = match decoder.u8() {
        Ok(tag) => tag,
        Err(error) => {
            return Err(error);
        },
    };
    let count = match decoder.u32() {
        Ok(count) => count,
        Err(error) => {
            return Err(error);
        },
    };
    if count > limits.maximum_page_items {
        return Err(
            CanonicalDecodeError::FieldTooLarge {
                observed: count,
                maximum: limits.maximum_page_items,
            },
        );
    }
    Ok((tag, count, decoder))
}

/// Reads a page.
pub fn read_page<L: CanonicalItem, C: CanonicalItem>(
    bytes: &[u8],
    format: Format,
    limits: DecodeLimits,
) -> (r: Result<Page<L, C>, CanonicalDecodeError>)
    ensures
        stands_for(r, page_at::<L, C>(bytes@, format@, limits)),
{
    let (tag, count, mut decoder) = match read_start(bytes, format, limits) {
        Ok(found) => found,
        Err(error) => {
            return Err(error);
        },
    };
    if tag == 1 {
        match read_items::<L>(&mut decoder, limits, count) {
            Err(error) => Err(error),
            Ok(entries) => match decoder.finish() {
                Err(error) => Err(error),
                Ok(()) => Ok(Page::Leaf(entries)),
            },
        }
    } else if tag == 2 {
        match read_items::<C>(&mut decoder, limits, count) {
            Err(error) => Err(error),
            Ok(entries) => match decoder.finish() {
                Err(error) => Err(error),
                Ok(()) => Ok(Page::Internal(entries)),
            },
        }
    } else {
        Err(CanonicalDecodeError::UnknownTag { field: format.field, tag })
    }
}

/// Finds the extent of a page without building it.
pub fn read_shape<L: CanonicalItem, C: CanonicalItem>(
    bytes: &[u8],
    format: Format,
    limits: DecodeLimits,
) -> (r: Result<DecodedPageShape, CanonicalDecodeError>)
    ensures
        match page_shape::<L, C>(bytes@, format@, limits) {
            Ok((kind, items, nested)) => r matches Ok(shape) && shape.kind == kind && shape.items
                == items && shape.nested_bytes == nested,
            Err(e) => r matches Err(error) && error@ == e,
        },
{
    let (tag, count, mut decoder) = match read_start(bytes, format, limits) {
        Ok(found) => found,
        Err(error) => {
            return Err(error);
        },
    };
    if tag != 1 && tag != 2 {
        return Err(CanonicalDecodeError::UnknownTag { field: format.field, tag });
    }
    let passed = if tag == 1 {
        skip_items::<L>(&mut decoder, limits, count)
    } else {
        skip_items::<C>(&mut decoder, limits, count)
    };
    match passed {
        Err(error) => Err(error),
        Ok(nested) => match decoder.finish() {
            Err(error) => Err(error),
            Ok(()) => Ok(
                DecodedPageShape {
                    kind: if tag == 1 {
                        DecodedPageKind::Leaf
                    } else {
                        DecodedPageKind::Internal
                    },
                    items: count as usize,
                    nested_bytes: nested,
                },
            ),
        },
    }
}

} // verus!
