//! Which paths a compatibility snapshot keeps.

use super::ignore::{
    admits, git_path_eligible, path_admitted, rules_of, GitIgnorePolicy, Nested, RuleView,
};
use super::paths::{below, depth, is_path_below, path_separators};
use super::tree::{
    child_path, lemma_text_order, portable, portable_name, text_before, GitListedEntry, ListedView,
};
use super::paths::{trim_front, trim_leading_slashes};
use crate::digest::{hex_chars, hex_text};
use crate::foundation::{GenerationId, IdempotencyKey, OperationId, WorkspaceId};
use crate::kernel::name::{FileKind, LogicalName, NameView};
use crate::order::{bytes_lt, ascending, views, OrderedMap, OrderedSet, Replicate};
use crate::sort::{ranked, sort_by_rank, Ranked};
use crate::text::{
    chars_of, decode_text, lines, split_on, text_between, text_is, text_pair, text_triple,
};
use vstd::prelude::*;
use vstd::string::*;
use vstd::utf8::encode_utf8;

verus! {

/// Failure while producing an ignore-aware compatibility snapshot.
#[derive(Clone, Copy, Debug, PartialEq, Eq, Structural)]
pub enum GitCaptureError {
    /// A host-native name cannot be represented by portable UTF-8 paths.
    NonPortableName,
    /// A deterministic capture workspace was concurrently changed.
    Conflict,
}

/// Exact ignore-aware snapshot produced for one compatibility commit.
#[derive(Debug)]
pub struct GitCapturedGeneration<G> {
    /// Immutable generation containing only compatibility-eligible paths.
    pub generation: G,
    /// Initial generation of the capture workspace, when capture forked.
    pub initial_generation: Option<GenerationId>,
    /// Eligible non-directory paths represented by the snapshot.
    pub tracked_paths: OrderedSet<String>,
}

/// Parses the ignore file of a directory, which must be UTF-8.
pub fn nested_ignores(contents: Vec<u8>) -> (r: Result<GitIgnorePolicy, GitCaptureError>)
    ensures
        match r {
            Ok(policy) => exists|text: Seq<char>| #[trigger]
                encode_utf8(text) == contents@ && policy@ == rules_of(lines(text)),
            Err(error) => error == GitCaptureError::NonPortableName && !vstd::utf8::valid_utf8(
                contents@,
            ),
        },
        vstd::utf8::valid_utf8(contents@) ==> r is Ok,
{
    match decode_text(contents) {
        Some(text) => Ok(GitIgnorePolicy::parse(text.as_str())),
        None => Err(GitCaptureError::NonPortableName),
    }
}

/// One scanned entry.
#[derive(Debug, PartialEq, Eq)]
pub struct GitCaptureEntry {
    /// Slash-separated portable path.
    pub path: String,
    /// Whether the entry is a directory.
    pub is_directory: bool,
}

/// Abstract value of [`GitCaptureEntry`].
#[verifier::ext_equal]
pub struct CaptureEntryView {
    /// Slash-separated portable path.
    pub path: Seq<char>,
    /// Whether the entry is a directory.
    pub is_directory: bool,
}

impl View for GitCaptureEntry {
    type V = CaptureEntryView;

    open spec fn view(&self) -> CaptureEntryView {
        CaptureEntryView { path: self.path@, is_directory: self.is_directory }
    }
}

impl Ranked for GitCaptureEntry {
    open spec fn precedes(a: CaptureEntryView, b: CaptureEntryView) -> bool {
        depth(a.path) < depth(b.path) || (depth(a.path) == depth(b.path) && bytes_lt(
            encode_utf8(a.path),
            encode_utf8(b.path),
        ))
    }

    proof fn rank_laws(a: CaptureEntryView, b: CaptureEntryView, c: CaptureEntryView) {
        lemma_text_order(a.path, b.path, c.path);
    }

    fn goes_before(&self, other: &Self) -> (r: bool) {
        let own = path_separators(self.path.as_str());
        let others = path_separators(other.path.as_str());
        own < others || (own == others && text_before(self.path.as_str(), other.path.as_str()))
    }
}

/// A scan of a tree for capture.
#[derive(Debug)]
pub struct GitCaptureScan {
    /// Entries found.
    pub entries: Vec<GitCaptureEntry>,
    /// Directories to list, the next one last.
    pub pending: Vec<String>,
    /// Directories with an ignore file of their own.
    pub ignores: Vec<String>,
}

/// Abstract value of [`GitCaptureScan`].
#[verifier::ext_equal]
pub struct CaptureScanView {
    /// Entries found.
    pub entries: Seq<CaptureEntryView>,
    /// Directories to list, the next one last.
    pub pending: Seq<Seq<char>>,
    /// Directories with an ignore file of their own.
    pub ignores: Seq<Seq<char>>,
}

impl View for GitCaptureScan {
    type V = CaptureScanView;

    open spec fn view(&self) -> CaptureScanView {
        CaptureScanView {
            entries: views(self.entries@),
            pending: views(self.pending@),
            ignores: views(self.ignores@),
        }
    }
}

/// A scan takes up every entry of a page; directories are listed later, and an
/// ignore file below the top is read.
pub open spec fn capture_scanned(
    scan: CaptureScanView,
    directory: Seq<char>,
    page: Seq<ListedView>,
    count: nat,
) -> Option<CaptureScanView>
    decreases count,
{
    if count == 0 {
        Some(scan)
    } else {
        match capture_scanned(scan, directory, page, (count - 1) as nat) {
            None => None,
            Some(before) => match portable(page[count - 1].name) {
                Err(_) => None,
                Ok(name) => {
                    let path = if directory == "/"@ {
                        name
                    } else {
                        trim_front(directory) + "/"@ + name
                    };
                    let is_directory = page[count - 1].kind == FileKind::Directory;
                    Some(
                        CaptureScanView {
                            entries: before.entries.push(CaptureEntryView { path, is_directory }),
                            pending: if is_directory {
                                before.pending.push("/"@ + path)
                            } else {
                                before.pending
                            },
                            ignores: if !is_directory && name == ".gitignore"@ && directory
                                != "/"@ {
                                before.ignores.push(trim_front(directory))
                            } else {
                                before.ignores
                            },
                        },
                    )
                },
            },
        }
    }
}

proof fn lemma_capture_scan_fails(
    scan: CaptureScanView,
    directory: Seq<char>,
    page: Seq<ListedView>,
    count: nat,
    upto: nat,
)
    requires
        count <= upto,
        capture_scanned(scan, directory, page, count) is None,
    ensures
        capture_scanned(scan, directory, page, upto) is None,
    decreases upto,
{
    if count < upto {
        lemma_capture_scan_fails(scan, directory, page, count, (upto - 1) as nat);
    }
}

impl GitCaptureScan {
    /// Begins a scan at the top of a tree.
    pub fn new() -> (r: Self)
        ensures
            r@ == (CaptureScanView {
                entries: Seq::empty(),
                pending: seq!["/"@],
                ignores: Seq::empty(),
            }),
    {
        let mut pending: Vec<String> = Vec::new();
        pending.push("/".to_owned());
        let r = GitCaptureScan { entries: Vec::new(), pending, ignores: Vec::new() };
        assert(r@.entries =~= Seq::<CaptureEntryView>::empty());
        assert(r@.pending =~= seq!["/"@]);
        assert(r@.ignores =~= Seq::<Seq<char>>::empty());
        r
    }

    /// Takes one page of a directory given by its absolute path.
    pub fn listed(&mut self, directory: &str, page: &Vec<GitListedEntry>) -> (r: Result<
        (),
        GitCaptureError,
    >)
        ensures
            match capture_scanned(old(self)@, directory@, views(page@), page@.len()) {
                None => r == Err::<(), GitCaptureError>(GitCaptureError::NonPortableName),
                Some(scan) => r is Ok && final(self)@ == scan,
            },
    {
        let ghost start = self@;
        let ghost listed = views(page@);
        let at_top = text_is(directory, "/");
        let parent = trim_leading_slashes(directory);
        let mut i: usize = 0;
        while i < page.len()
            invariant
                i <= page@.len(),
                start == old(self)@,
                listed == views(page@),
                at_top == (directory@ == "/"@),
                parent@ == trim_front(directory@),
                capture_scanned(start, directory@, listed, i as nat) == Some(self@),
            decreases page@.len() - i,
        {
            let ghost before = self@;
            assert(listed[i as int] == page@[i as int]@);
            let name = match portable_name(&page[i].name) {
                Ok(name) => name,
                Err(_) => {
                    proof {
                        assert(capture_scanned(start, directory@, listed, (i + 1) as nat) is None);
                        lemma_capture_scan_fails(
                            start,
                            directory@,
                            listed,
                            (i + 1) as nat,
                            listed.len(),
                        );
                    }
                    return Err(GitCaptureError::NonPortableName);
                },
            };
            let path = if at_top {
                name.clone()
            } else {
                text_triple(parent.as_str(), "/", name.as_str())
            };
            let ghost text = path@;
            let is_directory = page[i].kind == FileKind::Directory;
            let absolute = text_pair("/", path.as_str());
            self.entries.push(GitCaptureEntry { path, is_directory });
            assert(self@.entries =~= before.entries.push(
                CaptureEntryView { path: text, is_directory },
            ));
            if is_directory {
                self.pending.push(absolute);
                assert(self@.pending =~= before.pending.push("/"@ + text));
                assert(self@.ignores =~= before.ignores);
            } else if text_is(name.as_str(), ".gitignore") && !at_top {
                self.ignores.push(parent.clone());
                assert(self@.ignores =~= before.ignores.push(parent@));
                assert(self@.pending =~= before.pending);
            } else {
                assert(self@.ignores =~= before.ignores);
                assert(self@.pending =~= before.pending);
            }
            i = i + 1;
        }
        Ok(())
    }
}

/// Rules under which entries are kept.
#[verifier::ext_equal]
pub struct Keeping {
    /// Root ignore rules.
    pub root: Seq<RuleView>,
    /// Ignore rules of single directories.
    pub nested: Nested,
    /// Paths already represented.
    pub catalog: Set<Seq<char>>,
}

/// Whether a directory leads to a represented path.
pub open spec fn leads_to_catalog(catalog: Set<Seq<char>>, path: Seq<char>) -> bool {
    exists|t: Seq<char>| #[trigger] catalog.contains(t) && below(t, path)
}

/// Whether the rules refuse an entry by itself.
pub open spec fn refused(rules: Keeping, entry: CaptureEntryView) -> bool {
    !path_admitted(
        rules.root,
        rules.nested,
        entry.path,
        entry.is_directory,
        rules.catalog.contains(entry.path),
    ) && !(entry.is_directory && leads_to_catalog(rules.catalog, entry.path))
}

/// Whether an entry is left out: it or a directory above it is refused.
pub open spec fn left_out(
    rules: Keeping,
    entries: Seq<CaptureEntryView>,
    entry: CaptureEntryView,
) -> bool {
    refused(rules, entry) || exists|i: int|
        0 <= i < entries.len() && refused(rules, #[trigger] entries[i]) && below(
            entry.path,
            entries[i].path,
        )
}

/// Paths left out among the first `count` entries, in order.
pub open spec fn omitted(rules: Keeping, entries: Seq<CaptureEntryView>, count: nat) -> Seq<
    Seq<char>,
>
    decreases count,
{
    if count == 0 {
        Seq::empty()
    } else {
        let before = omitted(rules, entries, (count - 1) as nat);
        if left_out(rules, entries, entries[count - 1]) {
            before.push(entries[count - 1].path)
        } else {
            before
        }
    }
}

/// Paths represented among the first `count` entries.
pub open spec fn represented(rules: Keeping, entries: Seq<CaptureEntryView>, count: nat) -> Set<
    Seq<char>,
>
    decreases count,
{
    if count == 0 {
        Set::empty()
    } else {
        let before = represented(rules, entries, (count - 1) as nat);
        if !left_out(rules, entries, entries[count - 1]) && !entries[count - 1].is_directory {
            before.insert(entries[count - 1].path)
        } else {
            before
        }
    }
}

/// Something below a directory is deeper than it.
pub proof fn lemma_below_is_deeper(candidate: Seq<char>, parent: Seq<char>)
    requires
        below(candidate, parent),
    ensures
        depth(parent) < depth(candidate),
    decreases candidate.len(),
{
    let front = candidate.drop_last();
    if candidate.len() == parent.len() + 1 {
        assert(front =~= parent);
        assert(candidate.last() == '/');
    } else {
        assert(parent.is_prefix_of(front)) by {
            assert(parent =~= front.subrange(0, parent.len() as int));
        }
        assert(front[parent.len() as int] == '/');
        lemma_below_is_deeper(front, parent);
        lemma_split_nonempty(front);
    }
}

proof fn lemma_split_nonempty(text: Seq<char>)
    ensures
        split_on(text, '/').len() >= 1,
    decreases text.len(),
{
    if text.len() > 0 {
        lemma_split_nonempty(text.drop_last());
    }
}

/// What lies below something that lies below a directory lies below that directory.
pub proof fn lemma_below_transitive(a: Seq<char>, b: Seq<char>, c: Seq<char>)
    requires
        below(a, b),
        below(b, c),
    ensures
        below(a, c),
{
    assert(a.subrange(0, b.len() as int) =~= b);
    assert(c =~= a.subrange(0, c.len() as int)) by {
        assert forall|i: int| 0 <= i < c.len() implies c[i] == a[i] by {
            assert(b.subrange(0, c.len() as int)[i] == c[i]);
            assert(a.subrange(0, b.len() as int)[i] == b[i]);
        }
    }
    assert(a[c.len() as int] == b[c.len() as int]) by {
        assert(a.subrange(0, b.len() as int)[c.len() as int] == b[c.len() as int]);
    }
}

/// Tells whether a directory leads to a represented path.
fn has_catalog_below(catalog: &OrderedSet<String>, path: &str) -> (r: bool)
    ensures
        r == leads_to_catalog(catalog@, path@),
{
    let count = catalog.len();
    let ghost order = ascending::<String>(catalog@);
    let mut i: usize = 0;
    while i < count
        invariant
            i <= count,
            count == order.len(),
            order == ascending::<String>(catalog@),
            order.to_set() == catalog@,
            forall|j: int| 0 <= j < i ==> !below(#[trigger] order[j], path@),
        decreases count - i,
    {
        let candidate = catalog.at(i);
        if is_path_below(candidate.as_str(), path) {
            return true;
        }
        i = i + 1;
    }
    assert forall|t: Seq<char>| #[trigger] catalog@.contains(t) implies !below(t, path@) by {
        assert(order.to_set().contains(t));
        let j = order.index_of(t);
        assert(order[j] == t);
    }
    false
}

/// Tells whether a path lies below one of a list of directories.
fn lies_below_any(path: &str, parents: &Vec<String>) -> (r: bool)
    ensures
        r == exists|i: int| 0 <= i < parents@.len() && below(path@, #[trigger] views(parents@)[i]),
{
    let mut i: usize = 0;
    while i < parents.len()
        invariant
            i <= parents@.len(),
            forall|j: int| 0 <= j < i ==> !below(path@, #[trigger] views(parents@)[j]),
        decreases parents@.len() - i,
    {
        assert(views(parents@)[i as int] == parents@[i as int]@);
        if is_path_below(path, parents[i].as_str()) {
            return true;
        }
        i = i + 1;
    }
    false
}

/// What a capture keeps and leaves out.
#[derive(Debug)]
pub struct GitCaptureSelection {
    /// Paths to remove, shallow ones first; they are removed from the back.
    pub excluded: Vec<String>,
    /// Eligible non-directory paths.
    pub tracked_paths: OrderedSet<String>,
}

proof fn lemma_omitted_member(
    rules: Keeping,
    entries: Seq<CaptureEntryView>,
    count: nat,
    at: int,
) -> (k: int)
    requires
        0 <= at < count,
        left_out(rules, entries, entries[at]),
    ensures
        0 <= k < omitted(rules, entries, count).len(),
        omitted(rules, entries, count)[k] == entries[at].path,
    decreases count,
{
    let before = omitted(rules, entries, (count - 1) as nat);
    if at == count - 1 {
        before.len() as int
    } else {
        lemma_omitted_member(rules, entries, (count - 1) as nat, at)
    }
}

proof fn lemma_omitted_source(
    rules: Keeping,
    entries: Seq<CaptureEntryView>,
    count: nat,
    k: int,
) -> (at: int)
    requires
        0 <= k < omitted(rules, entries, count).len(),
    ensures
        0 <= at < count,
        left_out(rules, entries, entries[at]),
        omitted(rules, entries, count)[k] == entries[at].path,
    decreases count,
{
    let before = omitted(rules, entries, (count - 1) as nat);
    if k < before.len() {
        lemma_omitted_source(rules, entries, (count - 1) as nat, k)
    } else {
        count - 1
    }
}

/// Among entries ordered by depth, an entry lies below a refused one exactly
/// when it lies below one that was already left out.
proof fn lemma_left_out(rules: Keeping, entries: Seq<CaptureEntryView>, at: nat)
    requires
        at < entries.len(),
        ranked::<GitCaptureEntry>(entries),
    ensures
        left_out(rules, entries, entries[at as int]) == (refused(rules, entries[at as int]) || exists|
            i: int,
        |
            0 <= i < omitted(rules, entries, at).len() && below(
                entries[at as int].path,
                #[trigger] omitted(rules, entries, at)[i],
            )),
{
    let entry = entries[at as int];
    let gone = omitted(rules, entries, at);
    if exists|i: int| 0 <= i < gone.len() && below(entry.path, #[trigger] gone[i]) {
        let k = choose|i: int| 0 <= i < gone.len() && below(entry.path, #[trigger] gone[i]);
        let j = lemma_omitted_source(rules, entries, at, k);
        if refused(rules, entries[j]) {
        } else {
            let q = choose|i: int|
                0 <= i < entries.len() && refused(rules, #[trigger] entries[i]) && below(
                    entries[j].path,
                    entries[i].path,
                );
            lemma_below_transitive(entry.path, entries[j].path, entries[q].path);
            assert(refused(rules, entries[q]));
        }
    }
    if left_out(rules, entries, entry) && !refused(rules, entry) {
        let q = choose|i: int|
            0 <= i < entries.len() && refused(rules, #[trigger] entries[i]) && below(
                entry.path,
                entries[i].path,
            );
        lemma_below_is_deeper(entry.path, entries[q].path);
        if q > at {
            assert(!GitCaptureEntry::precedes(entries[q], entries[at as int]));
        }
        let k = lemma_omitted_member(rules, entries, at, q);
        assert(below(entry.path, gone[k]));
    }
}

/// Chooses what a capture keeps among entries ordered by depth and path.
pub fn select_ordered(
    entries: &Vec<GitCaptureEntry>,
    nested: &OrderedMap<String, GitIgnorePolicy>,
    policy: &GitIgnorePolicy,
    already_tracked: &OrderedSet<String>,
) -> (r: GitCaptureSelection)
    requires
        ranked::<GitCaptureEntry>(views(entries@)),
    ensures
        ({
            let rules = Keeping { root: policy@, nested: nested@, catalog: already_tracked@ };
            &&& views(r.excluded@) == omitted(rules, views(entries@), entries@.len())
            &&& r.tracked_paths@ == represented(rules, views(entries@), entries@.len())
        }),
{
    let ghost rules = Keeping { root: policy@, nested: nested@, catalog: already_tracked@ };
    let ghost all = views(entries@);
    let mut excluded: Vec<String> = Vec::new();
    let mut kept: OrderedSet<String> = OrderedSet::new();
    let mut i: usize = 0;
    assert(views(excluded@) =~= Seq::<Seq<char>>::empty());
    while i < entries.len()
        invariant
            i <= entries@.len(),
            all == views(entries@),
            ranked::<GitCaptureEntry>(all),
            rules == (Keeping { root: policy@, nested: nested@, catalog: already_tracked@ }),
            views(excluded@) == omitted(rules, all, i as nat),
            kept@ == represented(rules, all, i as nat),
        decreases entries@.len() - i,
    {
        let entry = &entries[i];
        let ghost gone = views(excluded@);
        proof {
            assert(all[i as int] == entry@);
            lemma_left_out(rules, all, i as nat);
        }
        let inside = lies_below_any(entry.path.as_str(), &excluded);
        let listed = already_tracked.contains(&entry.path);
        let leads = entry.is_directory && has_catalog_below(already_tracked, entry.path.as_str());
        let fits = git_path_eligible(policy, nested, entry.path.as_str(), entry.is_directory, listed);
        if inside || (!fits && !leads) {
            excluded.push(entry.path.clone());
            assert(views(excluded@) =~= gone.push(entry@.path));
        } else if !entry.is_directory {
            kept.insert(entry.path.clone());
        }
        i = i + 1;
    }
    GitCaptureSelection { excluded, tracked_paths: kept }
}

/// Chooses what a capture keeps among scanned entries: everything but what is
/// refused and what lies below a refused directory.
pub fn select_capture(
    entries: Vec<GitCaptureEntry>,
    nested: &OrderedMap<String, GitIgnorePolicy>,
    policy: &GitIgnorePolicy,
    already_tracked: &OrderedSet<String>,
) -> (r: GitCaptureSelection)
    ensures
        exists|ordered: Seq<CaptureEntryView>|
            {
                let rules = Keeping { root: policy@, nested: nested@, catalog: already_tracked@ };
                &&& #[trigger] ranked::<GitCaptureEntry>(ordered)
                &&& ordered.to_multiset() == views(entries@).to_multiset()
                &&& views(r.excluded@) == omitted(rules, ordered, ordered.len())
                &&& r.tracked_paths@ == represented(rules, ordered, ordered.len())
            },
{
    let ordered = sort_by_rank(entries);
    let r = select_ordered(&ordered, nested, policy, already_tracked);
    assert(ranked::<GitCaptureEntry>(views(ordered@)));
    r
}

/// Name of the workspace that a capture forks into.
pub fn capture_name(workspace: &WorkspaceId, operation: &OperationId) -> (r: String)
    ensures
        r@ == "git-capture-"@ + hex_chars(workspace.bytes@.take(6)) + "-"@ + hex_chars(
            operation.bytes@,
        ),
{
    let short = vstd::slice::slice_subrange(workspace.bytes.as_slice(), 0, 6);
    assert(short@ =~= workspace.bytes@.take(6));
    let head = text_triple("git-capture-", hex_text(short).as_str(), "-");
    text_pair(head.as_str(), hex_text(operation.bytes.as_slice()).as_str())
}

/// Name under which a captured generation is retained.
pub fn capture_pin(operation: &OperationId) -> (r: String)
    ensures
        r@ == "capture-"@ + hex_chars(operation.bytes@),
{
    text_pair("capture-", hex_text(operation.bytes.as_slice()).as_str())
}

/// Key under which a capture forks.
pub fn capture_fork_key(operation: &OperationId) -> (r: IdempotencyKey)
    ensures
        r.bytes@ == operation.bytes@,
{
    IdempotencyKey::from_bytes(operation.bytes)
}

/// Key under which a capture publishes: the operation with its first byte changed.
pub fn capture_commit_key(operation: &OperationId) -> (r: IdempotencyKey)
    ensures
        r.bytes@ == operation.bytes@.update(0, operation.bytes@[0] ^ 0xa5),
        r.bytes@ != operation.bytes@,
{
    let mut bytes = operation.bytes;
    let first = bytes[0];
    bytes[0] = first ^ 0xa5;
    proof {
        assert(first ^ 0xa5 != first) by (bit_vector);
        assert(bytes@[0] != operation.bytes@[0]);
    }
    IdempotencyKey::from_bytes(bytes)
}

/// Components joined by single slashes.
pub open spec fn joined_names(components: Seq<NameView>, count: nat) -> Option<Seq<char>>
    decreases count,
{
    if count == 0 {
        Some(Seq::empty())
    } else {
        match joined_names(components, (count - 1) as nat) {
            None => None,
            Some(front) => match portable(components[count - 1]) {
                Err(_) => None,
                Ok(name) => Some(
                    if front.len() == 0 {
                        name
                    } else {
                        front + "/"@ + name
                    },
                ),
            },
        }
    }
}

proof fn lemma_joined_fails(components: Seq<NameView>, count: nat, upto: nat)
    requires
        count <= upto,
        joined_names(components, count) is None,
    ensures
        joined_names(components, upto) is None,
    decreases upto,
{
    if count < upto {
        lemma_joined_fails(components, count, (upto - 1) as nat);
    }
}

/// Writes a changed path as portable text.
pub fn portable_changed_path(components: &Vec<LogicalName>) -> (r: Result<String, GitCaptureError>)
    ensures
        match joined_names(views(components@), components@.len()) {
            Some(path) => r matches Ok(text) && text@ == path,
            None => r matches Err(error) && error == GitCaptureError::NonPortableName,
        },
{
    let ghost all = views(components@);
    let mut path = String::new();
    let mut i: usize = 0;
    assert(path@ =~= Seq::<char>::empty());
    while i < components.len()
        invariant
            i <= components@.len(),
            all == views(components@),
            joined_names(all, i as nat) == Some(path@),
        decreases components@.len() - i,
    {
        assert(all[i as int] == components@[i as int]@);
        match portable_name(&components[i]) {
            Ok(name) => {
                path = child_path(path.as_str(), name.as_str());
            },
            Err(_) => {
                proof {
                    assert(joined_names(all, (i + 1) as nat) is None);
                    lemma_joined_fails(all, (i + 1) as nat, all.len());
                }
                return Err(GitCaptureError::NonPortableName);
            },
        }
        i = i + 1;
    }
    Ok(path)
}

/// The text after the last slash.
pub fn last_component(path: &str) -> (r: String)
    ensures
        r@ == split_on(path@, '/').last(),
{
    let chars = chars_of(path);
    let mut start: usize = 0;
    let mut i: usize = 0;
    assert(chars@.take(0) =~= Seq::<char>::empty());
    assert(chars@.subrange(0, 0) =~= Seq::<char>::empty());
    while i < chars.len()
        invariant
            start <= i <= chars@.len(),
            chars@.subrange(start as int, i as int) == split_on(chars@.take(i as int), '/').last(),
        decreases chars@.len() - i,
    {
        proof {
            assert(chars@.take(i + 1).drop_last() =~= chars@.take(i as int));
            assert(chars@.take(i + 1).last() == chars@[i as int]);
        }
        if chars[i] == '/' {
            start = i + 1;
            assert(chars@.subrange(start as int, i + 1) =~= Seq::<char>::empty());
        } else {
            assert(chars@.subrange(start as int, i + 1) =~= chars@.subrange(
                start as int,
                i as int,
            ).push(chars@[i as int]));
        }
        i = i + 1;
    }
    assert(chars@.take(i as int) =~= chars@);
    text_between(chars.as_slice(), start, chars.len())
}

/// One path that differs between two generations.
#[derive(Debug, PartialEq, Eq)]
pub struct GitPathChange {
    /// Components of the path.
    pub path: Vec<LogicalName>,
    /// Kind before the change, where the path existed.
    pub before: Option<FileKind>,
    /// Kind after the change, where the path exists.
    pub after: Option<FileKind>,
}

/// Abstract value of [`GitPathChange`].
#[verifier::ext_equal]
pub struct PathChangeView {
    /// Components of the path.
    pub path: Seq<NameView>,
    /// Kind before the change, where the path existed.
    pub before: Option<FileKind>,
    /// Kind after the change, where the path exists.
    pub after: Option<FileKind>,
}

impl View for GitPathChange {
    type V = PathChangeView;

    open spec fn view(&self) -> PathChangeView {
        PathChangeView { path: views(self.path@), before: self.before, after: self.after }
    }
}

/// Portable path of a change.
pub open spec fn change_path(change: PathChangeView) -> Option<Seq<char>> {
    joined_names(change.path, change.path.len())
}

/// What the paths of a change list say, up to the first that decides.
pub enum Outlook {
    /// A name is not portable.
    Unportable,
    /// An ignore file changed.
    Exact,
    /// Every path is ordinary.
    Ordinary,
}

/// What the first `count` changes say.
pub open spec fn outlook(changes: Seq<PathChangeView>, count: nat) -> Outlook
    decreases count,
{
    if count == 0 {
        Outlook::Ordinary
    } else {
        match outlook(changes, (count - 1) as nat) {
            Outlook::Ordinary => match change_path(changes[count - 1]) {
                None => Outlook::Unportable,
                Some(path) => if split_on(path, '/').last() == ".gitignore"@ {
                    Outlook::Exact
                } else {
                    Outlook::Ordinary
                },
            },
            decided => decided,
        }
    }
}

/// Whether a change concerns a directory.
pub open spec fn changes_directory(change: PathChangeView) -> bool {
    (if change.after is Some {
        change.after
    } else {
        change.before
    }) == Some(FileKind::Directory)
}

/// Whether a change is carried over.
pub open spec fn carried(
    root: Seq<RuleView>,
    catalog: Set<Seq<char>>,
    change: PathChangeView,
) -> bool {
    let path = change_path(change)->0;
    catalog.contains(path) || (changes_directory(change) && leads_to_catalog(catalog, path)) || admits(
        root,
        path,
        changes_directory(change),
        false,
    )
}

/// Paths of the first `count` changes that are carried over.
pub open spec fn carried_paths(
    root: Seq<RuleView>,
    catalog: Set<Seq<char>>,
    changes: Seq<PathChangeView>,
    count: nat,
) -> Seq<Seq<char>>
    decreases count,
{
    if count == 0 {
        Seq::empty()
    } else {
        let before = carried_paths(root, catalog, changes, (count - 1) as nat);
        if carried(root, catalog, changes[count - 1]) {
            before.push(change_path(changes[count - 1])->0)
        } else {
            before
        }
    }
}

/// Represented paths after the first `count` changes.
pub open spec fn carried_catalog(
    root: Seq<RuleView>,
    catalog: Set<Seq<char>>,
    changes: Seq<PathChangeView>,
    count: nat,
) -> Set<Seq<char>>
    decreases count,
{
    if count == 0 {
        catalog
    } else {
        let before = carried_catalog(root, catalog, changes, (count - 1) as nat);
        let change = changes[count - 1];
        let path = change_path(change)->0;
        if changes_directory(change) {
            before
        } else if change.after is Some && (catalog.contains(path) || admits(root, path, false, false)) {
            before.insert(path)
        } else {
            before.remove(path)
        }
    }
}

/// How an incremental capture proceeds.
#[derive(Debug)]
pub enum GitIncrementalCapture {
    /// Eligibility may have changed elsewhere; the whole tree is captured.
    Exact,
    /// The listed paths are applied to the preceding snapshot.
    Changed {
        /// Changed paths that are carried over; without any, the preceding
        /// snapshot stands.
        eligible: Vec<String>,
        /// Represented paths afterwards.
        tracked_paths: OrderedSet<String>,
    },
}

proof fn lemma_outlook_decided(changes: Seq<PathChangeView>, count: nat, upto: nat)
    requires
        count <= upto,
        outlook(changes, count) !is Ordinary,
    ensures
        outlook(changes, upto) == outlook(changes, count),
    decreases upto,
{
    if count < upto {
        lemma_outlook_decided(changes, count, (upto - 1) as nat);
    }
}

/// Reads the portable paths of changes until one decides.
fn portable_changes(changes: &Vec<GitPathChange>) -> (r: Result<Option<Vec<String>>, GitCaptureError>)
    ensures
        match outlook(views(changes@), changes@.len()) {
            Outlook::Unportable => r matches Err(error) && error == GitCaptureError::NonPortableName,
            Outlook::Exact => r matches Ok(None),
            Outlook::Ordinary => r matches Ok(Some(paths)) && paths@.len() == changes@.len() && forall|
                i: int,
            |
                0 <= i < changes@.len() ==> change_path(views(changes@)[i]) == Some(
                    #[trigger] views(paths@)[i],
                ),
        },
{
    let ghost all = views(changes@);
    let mut paths: Vec<String> = Vec::new();
    let mut i: usize = 0;
    while i < changes.len()
        invariant
            i <= changes@.len(),
            all == views(changes@),
            paths@.len() == i,
            outlook(all, i as nat) is Ordinary,
            forall|j: int| 0 <= j < i ==> change_path(all[j]) == Some(#[trigger] views(paths@)[j]),
        decreases changes@.len() - i,
    {
        assert(all[i as int] == changes@[i as int]@);
        let ghost before = views(paths@);
        match portable_changed_path(&changes[i].path) {
            Err(error) => {
                proof {
                    assert(outlook(all, (i + 1) as nat) is Unportable);
                    lemma_outlook_decided(all, (i + 1) as nat, all.len());
                }
                return Err(error);
            },
            Ok(path) => {
                if text_is(last_component(path.as_str()).as_str(), ".gitignore") {
                    proof {
                        assert(outlook(all, (i + 1) as nat) is Exact);
                        lemma_outlook_decided(all, (i + 1) as nat, all.len());
                    }
                    return Ok(None);
                }
                let ghost text = path@;
                paths.push(path);
                assert(views(paths@) =~= before.push(text));
            },
        }
        i = i + 1;
    }
    Ok(Some(paths))
}

/// Chooses what an incremental capture applies to the preceding snapshot.
///
/// A changed ignore file makes the whole tree be captured, because it may
/// change the eligibility of an otherwise unchanged path.
pub fn select_incremental(
    changes: &Vec<GitPathChange>,
    policy: &GitIgnorePolicy,
    already_tracked: &OrderedSet<String>,
) -> (r: Result<GitIncrementalCapture, GitCaptureError>)
    ensures
        match outlook(views(changes@), changes@.len()) {
            Outlook::Unportable => r matches Err(error) && error == GitCaptureError::NonPortableName,
            Outlook::Exact => r matches Ok(GitIncrementalCapture::Exact),
            Outlook::Ordinary => r matches Ok(
                GitIncrementalCapture::Changed { eligible, tracked_paths },
            ) && views(eligible@) == carried_paths(
                policy@,
                already_tracked@,
                views(changes@),
                changes@.len(),
            ) && tracked_paths@ == carried_catalog(
                policy@,
                already_tracked@,
                views(changes@),
                changes@.len(),
            ),
        },
{
    let ghost all = views(changes@);
    let paths = match portable_changes(changes) {
        Err(error) => {
            return Err(error);
        },
        Ok(None) => {
            return Ok(GitIncrementalCapture::Exact);
        },
        Ok(Some(paths)) => paths,
    };
    let mut eligible: Vec<String> = Vec::new();
    let mut kept = already_tracked.replicate();
    let mut i: usize = 0;
    assert(views(eligible@) =~= Seq::<Seq<char>>::empty());
    while i < changes.len()
        invariant
            i <= changes@.len(),
            all == views(changes@),
            paths@.len() == changes@.len(),
            forall|j: int|
                0 <= j < changes@.len() ==> change_path(all[j]) == Some(#[trigger] views(paths@)[j]),
            views(eligible@) == carried_paths(policy@, already_tracked@, all, i as nat),
            kept@ == carried_catalog(policy@, already_tracked@, all, i as nat),
        decreases changes@.len() - i,
    {
        let change = &changes[i];
        let path = &paths[i];
        proof {
            assert(all[i as int] == change@);
            assert(views(paths@)[i as int] == path@);
            assert(change_path(all[i as int]) == Some(path@));
        }
        let ghost before = views(eligible@);
        let kind = if change.after.is_some() {
            change.after
        } else {
            change.before
        };
        let is_directory = match kind {
            Some(FileKind::Directory) => true,
            _ => false,
        };
        let listed = already_tracked.contains(path);
        let leads = is_directory && has_catalog_below(already_tracked, path.as_str());
        if listed || leads || policy.eligible(path.as_str(), is_directory, listed) {
            eligible.push(path.clone());
            assert(views(eligible@) =~= before.push(path@));
        }
        if !is_directory {
            if change.after.is_some() && (listed || policy.eligible(path.as_str(), false, listed)) {
                kept.insert(path.clone());
            } else {
                kept.remove(path);
            }
        }
        i = i + 1;
    }
    Ok(GitIncrementalCapture::Changed { eligible, tracked_paths: kept })
}

/// A path that is already represented is never left out unless a directory
/// above it is refused, and no directory above it is refused by its own rules.
pub proof fn represented_paths_stay(
    rules: Keeping,
    entries: Seq<CaptureEntryView>,
    entry: CaptureEntryView,
)
    requires
        rules.catalog.contains(entry.path),
        forall|i: int|
            0 <= i < entries.len() && below(entry.path, (#[trigger] entries[i]).path)
                ==> entries[i].is_directory,
    ensures
        !left_out(rules, entries, entry),
{
    assert(!refused(rules, entry));
    assert forall|i: int|
        0 <= i < entries.len() && below(
            entry.path,
            (#[trigger] entries[i]).path,
        ) implies !refused(rules, entries[i]) by {
        assert(leads_to_catalog(rules.catalog, entries[i].path));
    }
}

proof fn lemma_represented_member(
    rules: Keeping,
    entries: Seq<CaptureEntryView>,
    count: nat,
    at: int,
)
    requires
        0 <= at < count <= entries.len(),
        !left_out(rules, entries, entries[at]),
        !entries[at].is_directory,
    ensures
        represented(rules, entries, count).contains(entries[at].path),
    decreases count,
{
    if at < count - 1 {
        lemma_represented_member(rules, entries, (count - 1) as nat, at);
    }
}

proof fn lemma_represented_source(
    rules: Keeping,
    entries: Seq<CaptureEntryView>,
    count: nat,
    path: Seq<char>,
) -> (at: int)
    requires
        count <= entries.len(),
        represented(rules, entries, count).contains(path),
    ensures
        0 <= at < count,
        !left_out(rules, entries, entries[at]),
        !entries[at].is_directory,
        entries[at].path == path,
    decreases count,
{
    if !left_out(rules, entries, entries[count - 1]) && !entries[count - 1].is_directory
        && entries[count - 1].path == path {
        count - 1
    } else {
        lemma_represented_source(rules, entries, (count - 1) as nat, path)
    }
}

/// A capture keeps every file that is already represented, also below a directory that
/// the rules refuse, and removes every other file that they refuse.
pub proof fn captures_keep_tracked_files(
    rules: Keeping,
    entries: Seq<CaptureEntryView>,
    at: int,
)
    requires
        0 <= at < entries.len(),
        !entries[at].is_directory,
        forall|i: int|
            0 <= i < entries.len() && below(entries[at].path, (#[trigger] entries[i]).path)
                ==> entries[i].is_directory,
        forall|i: int, j: int|
            0 <= i < entries.len() && 0 <= j < entries.len() && (#[trigger] entries[i]).path == (
            #[trigger] entries[j]).path ==> i == j,
    ensures
        rules.catalog.contains(entries[at].path) ==> represented(
            rules,
            entries,
            entries.len(),
        ).contains(entries[at].path) && !omitted(rules, entries, entries.len()).contains(
            entries[at].path,
        ),
        !path_admitted(
            rules.root,
            rules.nested,
            entries[at].path,
            false,
            rules.catalog.contains(entries[at].path),
        ) ==> omitted(rules, entries, entries.len()).contains(entries[at].path) && !represented(
            rules,
            entries,
            entries.len(),
        ).contains(entries[at].path),
{
    let entry = entries[at];
    let gone = omitted(rules, entries, entries.len());
    if rules.catalog.contains(entry.path) {
        represented_paths_stay(rules, entries, entry);
        lemma_represented_member(rules, entries, entries.len(), at);
        if gone.contains(entry.path) {
            let k = gone.index_of(entry.path);
            let source = lemma_omitted_source(rules, entries, entries.len(), k);
            assert(entries[source].path == entries[at].path);
        }
    }
    if !path_admitted(
        rules.root,
        rules.nested,
        entry.path,
        false,
        rules.catalog.contains(entry.path),
    ) {
        assert(refused(rules, entry));
        let k = lemma_omitted_member(rules, entries, entries.len(), at);
        assert(gone[k] == entry.path);
        if represented(rules, entries, entries.len()).contains(entry.path) {
            let source = lemma_represented_source(rules, entries, entries.len(), entry.path);
            assert(entries[source].path == entries[at].path);
        }
    }
}

} // verus!
