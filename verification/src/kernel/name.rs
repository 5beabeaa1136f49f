//! Names and kinds of namespace entries.

use crate::order::Replicate;
use vstd::prelude::*;

verus! {

/// How the bytes of a name are to be read.
#[derive(Clone, Copy, Debug, PartialEq, Eq, PartialOrd, Ord, Hash, Structural)]
pub enum NameEncoding {
    /// UTF-8 text.
    Utf8,
    /// Uninterpreted host bytes.
    PosixBytes,
    /// Little-endian UTF-16 code units.
    WindowsUtf16Le,
}

/// One component of a namespace path.
#[derive(Debug, PartialEq, Eq, PartialOrd, Ord, Hash)]
pub struct LogicalName {
    /// How the bytes are to be read.
    pub encoding: NameEncoding,
    /// Bytes of the name.
    pub bytes: Vec<u8>,
}

/// Abstract value of [`LogicalName`].
#[verifier::ext_equal]
pub struct NameView {
    /// How the bytes are to be read.
    pub encoding: NameEncoding,
    /// Bytes of the name.
    pub bytes: Seq<u8>,
}

impl View for LogicalName {
    type V = NameView;

    open spec fn view(&self) -> NameView {
        NameView { encoding: self.encoding, bytes: self.bytes@ }
    }
}

impl Replicate for LogicalName {
    fn replicate(&self) -> (r: Self) {
        LogicalName {
            encoding: self.encoding,
            bytes: vstd::slice::slice_to_vec(self.bytes.as_slice()),
        }
    }
}

impl Clone for LogicalName {
    fn clone(&self) -> (r: Self)
        ensures
            r@ == self@,
    {
        self.replicate()
    }
}

/// What a file record describes.
#[derive(Clone, Copy, Debug, PartialEq, Eq, PartialOrd, Ord, Hash, Structural)]
pub enum FileKind {
    /// Regular file.
    Regular,
    /// Directory.
    Directory,
    /// Symbolic link.
    SymbolicLink,
    /// Windows reparse point.
    ReparsePoint,
    /// Character device.
    CharacterDevice,
    /// Block device.
    BlockDevice,
    /// Named pipe.
    Fifo,
    /// Socket.
    Socket,
    /// Boundary to another mount.
    MountBoundary,
}

/// Stable tag of a file kind.
pub open spec fn file_kind_tag(kind: FileKind) -> u8 {
    match kind {
        FileKind::Regular => 1,
        FileKind::Directory => 2,
        FileKind::SymbolicLink => 3,
        FileKind::ReparsePoint => 4,
        FileKind::CharacterDevice => 5,
        FileKind::BlockDevice => 6,
        FileKind::Fifo => 7,
        FileKind::Socket => 8,
        FileKind::MountBoundary => 9,
    }
}

/// File kind with a given tag.
pub open spec fn file_kind_of(tag: u8) -> Option<FileKind> {
    if tag == 1 {
        Some(FileKind::Regular)
    } else if tag == 2 {
        Some(FileKind::Directory)
    } else if tag == 3 {
        Some(FileKind::SymbolicLink)
    } else if tag == 4 {
        Some(FileKind::ReparsePoint)
    } else if tag == 5 {
        Some(FileKind::CharacterDevice)
    } else if tag == 6 {
        Some(FileKind::BlockDevice)
    } else if tag == 7 {
        Some(FileKind::Fifo)
    } else if tag == 8 {
        Some(FileKind::Socket)
    } else if tag == 9 {
        Some(FileKind::MountBoundary)
    } else {
        None
    }
}

impl FileKind {
    /// Stable tag.
    pub fn tag(self) -> (r: u8)
        ensures
            r == file_kind_tag(self),
            file_kind_of(r) == Some(self),
    {
        match self {
            FileKind::Regular => 1,
            FileKind::Directory => 2,
            FileKind::SymbolicLink => 3,
            FileKind::ReparsePoint => 4,
            FileKind::CharacterDevice => 5,
            FileKind::BlockDevice => 6,
            FileKind::Fifo => 7,
            FileKind::Socket => 8,
            FileKind::MountBoundary => 9,
        }
    }

    /// Kind with a given tag.
    pub fn from_tag(tag: u8) -> (r: Option<Self>)
        ensures
            r == file_kind_of(tag),
    {
        match tag {
            1 => Some(FileKind::Regular),
            2 => Some(FileKind::Directory),
            3 => Some(FileKind::SymbolicLink),
            4 => Some(FileKind::ReparsePoint),
            5 => Some(FileKind::CharacterDevice),
            6 => Some(FileKind::BlockDevice),
            7 => Some(FileKind::Fifo),
            8 => Some(FileKind::Socket),
            9 => Some(FileKind::MountBoundary),
            _ => None,
        }
    }
}

} // verus!
