//! Portable names and bounded tree walks.

use super::paths::{trim_front, trim_leading_slashes, trim_slashes, trimmed};
use crate::kernel::name::{FileKind, LogicalName, NameEncoding, NameView};
use crate::order::{
    bytes_lt, lemma_bytes_lt_irreflexive, lemma_bytes_lt_total, lemma_bytes_lt_transitive, position,
    views, Position, Replicate,
};
use crate::sort::{ranked, sort_by_rank, Ranked};
use crate::text::{decode_text, text_pair, text_triple};
use vstd::prelude::*;
use vstd::string::*;
use vstd::utf8::{decode_utf8, encode_utf8, valid_utf8};

verus! {

/// Stable textual name of a file kind.
pub open spec fn kind_name(kind: FileKind) -> Seq<char> {
    match kind {
        FileKind::Regular => "regular"@,
        FileKind::Directory => "directory"@,
        FileKind::SymbolicLink => "symbolic-link"@,
        FileKind::Fifo => "fifo"@,
        FileKind::Socket => "socket"@,
        FileKind::CharacterDevice => "character-device"@,
        FileKind::BlockDevice => "block-device"@,
        FileKind::ReparsePoint => "windows-reparse-point"@,
        FileKind::MountBoundary => "mount-boundary"@,
    }
}

/// Stable textual name of a file kind.
pub fn git_kind(kind: FileKind) -> (r: &'static str)
    ensures
        r@ == kind_name(kind),
{
    match kind {
        FileKind::Regular => "regular",
        FileKind::Directory => "directory",
        FileKind::SymbolicLink => "symbolic-link",
        FileKind::Fifo => "fifo",
        FileKind::Socket => "socket",
        FileKind::CharacterDevice => "character-device",
        FileKind::BlockDevice => "block-device",
        FileKind::ReparsePoint => "windows-reparse-point",
        FileKind::MountBoundary => "mount-boundary",
    }
}

/// Why a tree cannot be inspected as portable text.
#[derive(Clone, Copy, Debug, PartialEq, Eq, Structural)]
pub enum GitInspectionError {
    /// A name declared UTF-8 is not.
    NonUtf8Path,
    /// A name has a host encoding.
    NonPortablePath,
    /// A blamed version is not UTF-8.
    NonTextBlame,
}

impl GitInspectionError {
    /// Stable description.
    pub fn message(self) -> (r: &'static str)
        ensures
            r@ == (match self {
                GitInspectionError::NonUtf8Path => "non-UTF-8 Git path"@,
                GitInspectionError::NonPortablePath => "non-portable Git path"@,
                GitInspectionError::NonTextBlame => "Git blame requires UTF-8 text"@,
            }),
    {
        match self {
            GitInspectionError::NonUtf8Path => "non-UTF-8 Git path",
            GitInspectionError::NonPortablePath => "non-portable Git path",
            GitInspectionError::NonTextBlame => "Git blame requires UTF-8 text",
        }
    }
}

/// The portable text of a name.
pub open spec fn portable(name: NameView) -> Result<Seq<char>, GitInspectionError> {
    if name.encoding != NameEncoding::Utf8 {
        Err(GitInspectionError::NonPortablePath)
    } else if !valid_utf8(name.bytes) {
        Err(GitInspectionError::NonUtf8Path)
    } else {
        Ok(decode_utf8(name.bytes))
    }
}

/// Reads a name as portable text.
pub fn portable_name(name: &LogicalName) -> (r: Result<String, GitInspectionError>)
    ensures
        match r {
            Ok(text) => portable(name@) == Ok::<Seq<char>, GitInspectionError>(text@),
            Err(error) => portable(name@) == Err::<Seq<char>, GitInspectionError>(error),
        },
{
    match name.encoding {
        NameEncoding::Utf8 => match decode_text(vstd::slice::slice_to_vec(name.bytes.as_slice())) {
            Some(text) => {
                proof {
                    vstd::utf8::encode_utf8_decode_utf8(text@);
                }
                Ok(text)
            },
            None => Err(GitInspectionError::NonUtf8Path),
        },
        _ => Err(GitInspectionError::NonPortablePath),
    }
}

/// Path of an entry of a directory whose own path is given without slashes in front.
pub open spec fn child(parent: Seq<char>, name: Seq<char>) -> Seq<char> {
    if parent.len() == 0 {
        name
    } else {
        parent + "/"@ + name
    }
}

/// Path of an entry of a directory.
pub fn child_path(parent: &str, name: &str) -> (r: String)
    ensures
        r@ == child(parent@, name@),
{
    if parent.is_empty() {
        name.to_owned()
    } else {
        text_triple(parent, "/", name)
    }
}

/// Portable namespace fact used by Git-shaped inspection commands.
#[derive(Debug, PartialEq, Eq)]
pub struct GitTreeEntry {
    /// Slash-separated path relative to the compatibility root.
    pub path: String,
    /// Stable textual filesystem kind.
    pub kind: String,
}

/// Abstract value of [`GitTreeEntry`].
#[verifier::ext_equal]
pub struct TreeEntryView {
    /// Slash-separated path relative to the compatibility root.
    pub path: Seq<char>,
    /// Stable textual filesystem kind.
    pub kind: Seq<char>,
}

impl View for GitTreeEntry {
    type V = TreeEntryView;

    open spec fn view(&self) -> TreeEntryView {
        TreeEntryView { path: self.path@, kind: self.kind@ }
    }
}

impl Replicate for GitTreeEntry {
    fn replicate(&self) -> (r: Self) {
        GitTreeEntry { path: self.path.clone(), kind: self.kind.clone() }
    }
}

impl Clone for GitTreeEntry {
    fn clone(&self) -> (r: Self)
        ensures
            r@ == self@,
    {
        self.replicate()
    }
}

/// Byte order of texts is a strict weak order.
pub(crate) proof fn lemma_text_order(a: Seq<char>, b: Seq<char>, c: Seq<char>)
    ensures
        !(bytes_lt(encode_utf8(a), encode_utf8(b)) && bytes_lt(encode_utf8(b), encode_utf8(a))),
        bytes_lt(encode_utf8(a), encode_utf8(b)) && !bytes_lt(encode_utf8(c), encode_utf8(b))
            ==> bytes_lt(encode_utf8(a), encode_utf8(c)),
{
    let x = encode_utf8(a);
    let y = encode_utf8(b);
    let z = encode_utf8(c);
    if bytes_lt(x, y) && bytes_lt(y, x) {
        lemma_bytes_lt_transitive(x, y, x);
        lemma_bytes_lt_irreflexive(x);
    }
    if bytes_lt(x, y) && !bytes_lt(z, y) {
        lemma_bytes_lt_total(z, y);
        if bytes_lt(y, z) {
            lemma_bytes_lt_transitive(x, y, z);
        }
    }
}

/// Tells whether one text precedes another in byte order.
pub(crate) fn text_before(a: &str, b: &str) -> (r: bool)
    ensures
        r == bytes_lt(encode_utf8(a@), encode_utf8(b@)),
{
    let at = position(a.as_bytes(), b.as_bytes());
    proof {
        let x = encode_utf8(a@);
        let y = encode_utf8(b@);
        lemma_bytes_lt_irreflexive(x);
        if bytes_lt(x, y) && bytes_lt(y, x) {
            lemma_bytes_lt_transitive(x, y, x);
        }
    }
    match at {
        Position::Before => true,
        _ => false,
    }
}

impl Ranked for GitTreeEntry {
    open spec fn precedes(a: TreeEntryView, b: TreeEntryView) -> bool {
        bytes_lt(encode_utf8(a.path), encode_utf8(b.path))
    }

    proof fn rank_laws(a: TreeEntryView, b: TreeEntryView, c: TreeEntryView) {
        lemma_text_order(a.path, b.path, c.path);
    }

    fn goes_before(&self, other: &Self) -> (r: bool) {
        text_before(self.path.as_str(), other.path.as_str())
    }
}

/// One named entry of a directory page.
#[derive(Debug, PartialEq, Eq)]
pub struct GitListedEntry {
    /// Name inside the directory.
    pub name: LogicalName,
    /// Kind of the entry.
    pub kind: FileKind,
}

/// Abstract value of [`GitListedEntry`].
#[verifier::ext_equal]
pub struct ListedView {
    /// Name inside the directory.
    pub name: NameView,
    /// Kind of the entry.
    pub kind: FileKind,
}

impl View for GitListedEntry {
    type V = ListedView;

    open spec fn view(&self) -> ListedView {
        ListedView { name: self.name@, kind: self.kind }
    }
}

/// What a tree walk needs next.
#[derive(Debug, PartialEq, Eq)]
pub enum GitWalkStep {
    /// The kind of the root.
    Stat(String),
    /// One page of a directory.
    List {
        /// Absolute path of the directory.
        directory: String,
        /// Last name already seen.
        after: Option<LogicalName>,
    },
    /// The walk is over.
    Done(Vec<GitTreeEntry>),
}

/// A tree walk between two requests.
#[derive(Debug)]
pub struct GitTreeWalk {
    root: String,
    maximum: u32,
    entries: Vec<GitTreeEntry>,
    pending: Vec<String>,
    directory: String,
}

/// Abstract value of [`GitTreeWalk`].
#[verifier::ext_equal]
pub struct WalkView {
    /// Root path without slashes at either end.
    pub root: Seq<char>,
    /// Largest number of entries to return.
    pub maximum: u32,
    /// Entries found.
    pub entries: Seq<TreeEntryView>,
    /// Directories to list, the next one last.
    pub pending: Seq<Seq<char>>,
    /// Directory being listed.
    pub directory: Seq<char>,
}

impl View for GitTreeWalk {
    type V = WalkView;

    closed spec fn view(&self) -> WalkView {
        WalkView {
            root: self.root@,
            maximum: self.maximum,
            entries: views(self.entries@),
            pending: views(self.pending@),
            directory: self.directory@,
        }
    }
}

/// A walk takes up entries in page order until it holds its maximum, and
/// remembers each directory for later.
pub open spec fn page_walked(walk: WalkView, page: Seq<ListedView>, count: nat) -> Result<
    WalkView,
    GitInspectionError,
>
    decreases count,
{
    if count == 0 {
        Ok(walk)
    } else {
        match page_walked(walk, page, (count - 1) as nat) {
            Err(error) => Err(error),
            Ok(before) => if before.entries.len() >= before.maximum {
                Ok(before)
            } else {
                let listed = page[count - 1];
                match portable(listed.name) {
                    Err(error) => Err(error),
                    Ok(name) => {
                        let path = child(trim_front(before.directory), name);
                        let entries = before.entries.push(
                            TreeEntryView { path, kind: kind_name(listed.kind) },
                        );
                        Ok(
                            WalkView {
                                entries,
                                pending: if listed.kind == FileKind::Directory && entries.len()
                                    < before.maximum {
                                    before.pending.push("/"@ + path)
                                } else {
                                    before.pending
                                },
                                ..before
                            },
                        )
                    },
                }
            },
        }
    }
}

/// The same entries in path order.
pub open spec fn in_path_order(ordered: Seq<TreeEntryView>, entries: Seq<TreeEntryView>) -> bool {
    ranked::<GitTreeEntry>(ordered) && ordered.to_multiset() == entries.to_multiset()
        && ordered.len() == entries.len()
}

/// What a walk asks for once a page has been taken up: nothing when it is
/// full or no directory is left, else the next page or directory.
pub open spec fn walk_continues(
    walk: WalkView,
    page: Seq<ListedView>,
    has_more: bool,
    next: WalkView,
    step: GitWalkStep,
) -> bool {
    if walk.entries.len() >= walk.maximum || (!has_more && walk.pending.len() == 0) {
        next == walk && (step matches GitWalkStep::Done(entries) && in_path_order(
            views(entries@),
            walk.entries,
        ))
    } else if has_more {
        next == walk && (step matches GitWalkStep::List { directory, after } && directory@
            == walk.directory && (match after {
            Some(name) => page.len() > 0 && name@ == page.last().name,
            None => page.len() == 0,
        }))
    } else {
        next == (WalkView {
            pending: walk.pending.drop_last(),
            directory: walk.pending.last(),
            ..walk
        }) && (step matches GitWalkStep::List { directory, after } && directory@
            == walk.pending.last() && after is None)
    }
}

/// Begins a walk in stable portable path order.
pub fn walk_git_tree(root: Option<&str>, maximum_entries: u32) -> (r: (GitTreeWalk, GitWalkStep))
    ensures
        r.0@ == (WalkView {
            root: (match root {
                Some(path) => trimmed(path@),
                None => Seq::empty(),
            }),
            maximum: maximum_entries,
            entries: Seq::empty(),
            pending: Seq::empty(),
            directory: if r.0@.root.len() == 0 {
                "/"@
            } else {
                "/"@ + r.0@.root
            },
        }),
        maximum_entries == 0 ==> (r.1 matches GitWalkStep::Done(entries) && entries@.len() == 0),
        maximum_entries > 0 && r.0@.root.len() == 0 ==> (r.1 matches GitWalkStep::List {
            directory,
            after,
        } && directory@ == "/"@ && after is None),
        maximum_entries > 0 && r.0@.root.len() > 0 ==> (r.1 matches GitWalkStep::Stat(path)
            && path@ == "/"@ + r.0@.root),
{
    let root = match root {
        Some(path) => trim_slashes(path),
        None => String::new(),
    };
    let at_top = root.as_str().is_empty();
    let start = if at_top {
        "/".to_owned()
    } else {
        text_pair("/", root.as_str())
    };
    let step = if maximum_entries == 0 {
        GitWalkStep::Done(Vec::new())
    } else if at_top {
        GitWalkStep::List { directory: start.clone(), after: None }
    } else {
        GitWalkStep::Stat(start.clone())
    };
    let walk = GitTreeWalk {
        root,
        maximum: maximum_entries,
        entries: Vec::new(),
        pending: Vec::new(),
        directory: start,
    };
    proof {
        assert(views(walk.entries@) =~= Seq::<TreeEntryView>::empty());
        assert(views(walk.pending@) =~= Seq::<Seq<char>>::empty());
        assert(at_top ==> walk.root@ =~= Seq::<char>::empty());
    }
    (walk, step)
}

impl GitTreeWalk {
    /// Takes the kind of the root: a directory is listed, anything else is
    /// the whole result.
    pub fn stated(&self, kind: FileKind) -> (r: GitWalkStep)
        ensures
            kind == FileKind::Directory ==> (r matches GitWalkStep::List { directory, after }
                && directory@ == self@.directory && after is None),
            kind != FileKind::Directory ==> (r matches GitWalkStep::Done(entries) && views(entries@)
                == seq![TreeEntryView { path: self@.root, kind: kind_name(kind) }]),
    {
        if kind == FileKind::Directory {
            GitWalkStep::List { directory: self.directory.clone(), after: None }
        } else {
            let mut entries: Vec<GitTreeEntry> = Vec::new();
            entries.push(GitTreeEntry { path: self.root.clone(), kind: git_kind(kind).to_owned() });
            assert(views(entries@) =~= seq![
                TreeEntryView { path: self@.root, kind: kind_name(kind) },
            ]);
            GitWalkStep::Done(entries)
        }
    }

    /// Takes one page of the directory asked for.
    pub fn listed(&mut self, page: &Vec<GitListedEntry>, has_more: bool) -> (r: Result<
        GitWalkStep,
        GitInspectionError,
    >)
        ensures
            match page_walked(old(self)@, views(page@), page@.len()) {
                Err(error) => r == Err::<GitWalkStep, GitInspectionError>(error),
                Ok(walk) => r matches Ok(step) && walk_continues(
                    walk,
                    views(page@),
                    has_more,
                    final(self)@,
                    step,
                ),
            },
    {
        let ghost start = self@;
        let ghost listed = views(page@);
        let mut i: usize = 0;
        while i < page.len()
            invariant
                i <= page@.len(),
                start == old(self)@,
                listed == views(page@),
                page_walked(start, listed, i as nat) == Ok::<WalkView, GitInspectionError>(self@),
            decreases page@.len() - i,
        {
            let ghost before = self@;
            if self.entries.len() < self.maximum as usize {
                let name = match portable_name(&page[i].name) {
                    Ok(name) => name,
                    Err(error) => {
                        proof {
                            assert(listed[i as int].name == page@[i as int].name@);
                            assert(page_walked(start, listed, (i + 1) as nat) == Err::<
                                WalkView,
                                GitInspectionError,
                            >(error));
                            lemma_walk_fails(start, listed, (i + 1) as nat, listed.len());
                        }
                        return Err(error);
                    },
                };
                let parent = trim_leading_slashes(self.directory.as_str());
                let path = child_path(parent.as_str(), name.as_str());
                let kind = page[i].kind;
                let absolute = text_pair("/", path.as_str());
                let ghost text = path@;
                self.entries.push(GitTreeEntry { path, kind: git_kind(kind).to_owned() });
                assert(self@.entries =~= before.entries.push(
                    TreeEntryView { path: text, kind: kind_name(kind) },
                ));
                assert(self@.pending =~= before.pending);
                if kind == FileKind::Directory && self.entries.len() < self.maximum as usize {
                    self.pending.push(absolute);
                    assert(self@.pending =~= before.pending.push("/"@ + text));
                }
            }
            i = i + 1;
        }
        if self.entries.len() >= self.maximum as usize || (!has_more && self.pending.len() == 0) {
            let found = crate::order::replicate_all(&self.entries);
            return Ok(GitWalkStep::Done(sort_by_rank(found)));
        }
        if has_more {
            let after = if page.len() == 0 {
                None
            } else {
                let name = page[page.len() - 1].name.replicate();
                assert(name@ == listed.last().name);
                Some(name)
            };
            return Ok(GitWalkStep::List { directory: self.directory.clone(), after });
        }
        let ghost before = self@;
        match self.pending.pop() {
            Some(directory) => {
                self.directory = directory.clone();
                assert(self@.pending =~= before.pending.drop_last());
                Ok(GitWalkStep::List { directory, after: None })
            },
            None => Ok(GitWalkStep::Done(Vec::new())),
        }
    }
}

/// A failed walk stays failed.
proof fn lemma_walk_fails(walk: WalkView, page: Seq<ListedView>, count: nat, upto: nat)
    requires
        count <= upto,
        page_walked(walk, page, count) is Err,
    ensures
        page_walked(walk, page, upto) == page_walked(walk, page, count),
    decreases upto,
{
    if count < upto {
        lemma_walk_fails(walk, page, count, (upto - 1) as nat);
    }
}

/// A walk never holds more entries than its maximum.
pub proof fn walk_is_bounded(walk: WalkView, page: Seq<ListedView>, count: nat)
    requires
        walk.entries.len() <= walk.maximum,
    ensures
        page_walked(walk, page, count) matches Ok(next) ==> next.maximum == walk.maximum
            && next.entries.len() <= walk.maximum,
    decreases count,
{
    if count > 0 {
        walk_is_bounded(walk, page, (count - 1) as nat);
    }
}

/// A regular file found by a search walk, with the handle it was listed under.
#[derive(Debug, PartialEq, Eq)]
pub struct GitRegularFile {
    /// Slash-separated path relative to the compatibility root.
    pub path: String,
    /// Handle given by the caller to the listed entry.
    pub handle: u64,
}

/// Abstract value of [`GitRegularFile`].
#[verifier::ext_equal]
pub struct RegularView {
    /// Slash-separated path relative to the compatibility root.
    pub path: Seq<char>,
    /// Handle given by the caller to the listed entry.
    pub handle: u64,
}

impl View for GitRegularFile {
    type V = RegularView;

    open spec fn view(&self) -> RegularView {
        RegularView { path: self.path@, handle: self.handle }
    }
}

impl Ranked for GitRegularFile {
    open spec fn precedes(a: RegularView, b: RegularView) -> bool {
        bytes_lt(encode_utf8(a.path), encode_utf8(b.path))
    }

    proof fn rank_laws(a: RegularView, b: RegularView, c: RegularView) {
        lemma_text_order(a.path, b.path, c.path);
    }

    fn goes_before(&self, other: &Self) -> (r: bool) {
        text_before(self.path.as_str(), other.path.as_str())
    }
}

/// A search walk: regular files and directories still to be listed.
#[derive(Debug)]
pub struct GitFileScan {
    /// Regular files found.
    pub files: Vec<GitRegularFile>,
    /// Directories to list, the next one last.
    pub pending: Vec<GitRegularFile>,
    /// Number of entries seen.
    pub visited: u32,
    /// Whether an entry was left out because the bound was reached.
    pub truncated: bool,
}

/// Abstract value of [`GitFileScan`].
#[verifier::ext_equal]
pub struct ScanView {
    /// Regular files found.
    pub files: Seq<RegularView>,
    /// Directories to list, the next one last.
    pub pending: Seq<RegularView>,
    /// Number of entries seen.
    pub visited: u32,
    /// Whether an entry was left out because the bound was reached.
    pub truncated: bool,
}

impl View for GitFileScan {
    type V = ScanView;

    open spec fn view(&self) -> ScanView {
        ScanView {
            files: views(self.files@),
            pending: views(self.pending@),
            visited: self.visited,
            truncated: self.truncated,
        }
    }
}

/// A search walk visits entries in page order and stops at the first one
/// beyond its bound; handles number the page from `first`.
pub open spec fn page_scanned(
    scan: ScanView,
    directory: Seq<char>,
    page: Seq<ListedView>,
    first: u64,
    maximum: u32,
    count: nat,
) -> Result<ScanView, GitInspectionError>
    decreases count,
{
    if count == 0 {
        Ok(scan)
    } else {
        match page_scanned(scan, directory, page, first, maximum, (count - 1) as nat) {
            Err(error) => Err(error),
            Ok(before) => if before.truncated {
                Ok(before)
            } else if before.visited >= maximum {
                Ok(ScanView { truncated: true, ..before })
            } else {
                let listed = page[count - 1];
                match portable(listed.name) {
                    Err(error) => Err(error),
                    Ok(name) => {
                        let found = RegularView {
                            path: child(directory, name),
                            handle: (first + count - 1) as u64,
                        };
                        Ok(
                            ScanView {
                                files: if listed.kind == FileKind::Regular {
                                    before.files.push(found)
                                } else {
                                    before.files
                                },
                                pending: if listed.kind == FileKind::Directory {
                                    before.pending.push(found)
                                } else {
                                    before.pending
                                },
                                visited: (before.visited + 1) as u32,
                                truncated: false,
                            },
                        )
                    },
                }
            },
        }
    }
}

proof fn lemma_scan_fails(
    scan: ScanView,
    directory: Seq<char>,
    page: Seq<ListedView>,
    first: u64,
    maximum: u32,
    count: nat,
    upto: nat,
)
    requires
        count <= upto,
        page_scanned(scan, directory, page, first, maximum, count) is Err,
    ensures
        page_scanned(scan, directory, page, first, maximum, upto) == page_scanned(
            scan,
            directory,
            page,
            first,
            maximum,
            count,
        ),
    decreases upto,
{
    if count < upto {
        lemma_scan_fails(scan, directory, page, first, maximum, count, (upto - 1) as nat);
    }
}

impl GitFileScan {
    /// Begins a search walk.
    pub fn new() -> (r: Self)
        ensures
            r@ == (ScanView {
                files: Seq::empty(),
                pending: Seq::empty(),
                visited: 0,
                truncated: false,
            }),
    {
        let r = GitFileScan {
            files: Vec::new(),
            pending: Vec::new(),
            visited: 0,
            truncated: false,
        };
        assert(r@.files =~= Seq::<RegularView>::empty());
        assert(r@.pending =~= Seq::<RegularView>::empty());
        r
    }

    /// Takes one page of a directory.
    pub fn listed(
        &mut self,
        directory: &str,
        page: &Vec<GitListedEntry>,
        first: u64,
        maximum: u32,
    ) -> (r: Result<(), GitInspectionError>)
        requires
            first + page@.len() <= u64::MAX,
        ensures
            match page_scanned(
                old(self)@,
                directory@,
                views(page@),
                first,
                maximum,
                page@.len(),
            ) {
                Err(error) => r == Err::<(), GitInspectionError>(error),
                Ok(scan) => r is Ok && final(self)@ == scan,
            },
    {
        let ghost start = self@;
        let ghost listed = views(page@);
        let mut i: usize = 0;
        while i < page.len()
            invariant
                i <= page@.len(),
                first + page@.len() <= u64::MAX,
                start == old(self)@,
                listed == views(page@),
                page_scanned(start, directory@, listed, first, maximum, i as nat) == Ok::<
                    ScanView,
                    GitInspectionError,
                >(self@),
            decreases page@.len() - i,
        {
            let ghost before = self@;
            assert(listed[i as int] == page@[i as int]@);
            if self.truncated {
            } else if self.visited >= maximum {
                self.truncated = true;
            } else {
                let name = match portable_name(&page[i].name) {
                    Ok(name) => name,
                    Err(error) => {
                        proof {
                            assert(page_scanned(
                                start,
                                directory@,
                                listed,
                                first,
                                maximum,
                                (i + 1) as nat,
                            ) == Err::<ScanView, GitInspectionError>(error));
                            lemma_scan_fails(
                                start,
                                directory@,
                                listed,
                                first,
                                maximum,
                                (i + 1) as nat,
                                listed.len(),
                            );
                        }
                        return Err(error);
                    },
                };
                let path = child_path(directory, name.as_str());
                let found = GitRegularFile { path, handle: first + i as u64 };
                let ghost made = found@;
                self.visited = self.visited + 1;
                match page[i].kind {
                    FileKind::Regular => {
                        self.files.push(found);
                        assert(self@.files =~= before.files.push(made));
                        assert(self@.pending =~= before.pending);
                    },
                    FileKind::Directory => {
                        self.pending.push(found);
                        assert(self@.pending =~= before.pending.push(made));
                        assert(self@.files =~= before.files);
                    },
                    _ => {
                        assert(self@.pending =~= before.pending);
                        assert(self@.files =~= before.files);
                    },
                }
            }
            i = i + 1;
        }
        Ok(())
    }

    /// Ends the walk: its files in path order, and whether it was cut short.
    pub fn finish(self) -> (r: (Vec<GitRegularFile>, bool))
        ensures
            ranked::<GitRegularFile>(views(r.0@)),
            views(r.0@).to_multiset() == self@.files.to_multiset(),
            r.0@.len() == self@.files.len(),
            r.1 == self@.truncated,
    {
        (sort_by_rank(self.files), self.truncated)
    }
}

/// How a search treats its root.
#[derive(Clone, Copy, Debug, PartialEq, Eq, Structural)]
pub enum GitGrepRoot {
    /// The directory is walked.
    Walk,
    /// The one regular file is searched.
    File,
    /// There is nothing to search.
    Nothing,
}

/// Decides how a search treats its root: the top is a directory, and of other
/// roots only directories and regular files are searched.
pub fn grep_root(root: &str, kind: FileKind) -> (r: GitGrepRoot)
    ensures
        r == (if root@.len() == 0 || kind == FileKind::Directory {
            GitGrepRoot::Walk
        } else if kind == FileKind::Regular {
            GitGrepRoot::File
        } else {
            GitGrepRoot::Nothing
        }),
{
    if root.is_empty() {
        return GitGrepRoot::Walk;
    }
    match kind {
        FileKind::Directory => GitGrepRoot::Walk,
        FileKind::Regular => GitGrepRoot::File,
        _ => GitGrepRoot::Nothing,
    }
}

/// A search walk that is cut short has seen exactly its maximum.
pub proof fn scan_is_bounded(
    scan: ScanView,
    directory: Seq<char>,
    page: Seq<ListedView>,
    first: u64,
    maximum: u32,
    count: nat,
)
    requires
        scan.visited <= maximum,
        scan.truncated ==> scan.visited == maximum,
    ensures
        page_scanned(scan, directory, page, first, maximum, count) matches Ok(next) ==> next.visited
            <= maximum && (next.truncated ==> next.visited == maximum),
    decreases count,
{
    if count > 0 {
        scan_is_bounded(scan, directory, page, first, maximum, (count - 1) as nat);
    }
}

} // verus!
