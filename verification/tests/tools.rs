//! Text tools of the compatibility layer.

use acyclic_filesystem::foundation::{Digest, GenerationId, OperationId, WorkspaceId};
use acyclic_filesystem::git::ancestry::nearest_common_ancestor;
use acyclic_filesystem::git::capture::{
    capture_commit_key, capture_fork_key, capture_name, capture_pin, nested_ignores,
    select_capture, select_incremental, GitCaptureEntry, GitCaptureError, GitCaptureScan, GitIncrementalCapture,
    GitPathChange,
};
use acyclic_filesystem::git::commit::GitCommitIdError;
use acyclic_filesystem::git::ignore::{git_path_eligible, wildcard_matches, GitIgnorePolicy};
use acyclic_filesystem::git::inspect::{
    blame_git_generations, grep_git_generation, text_lines, GitGrepFile,
};
use acyclic_filesystem::git::patch::{
    apply_unified_hunks, parse_unified_patch, GitPatchEffect, GitPatchError,
};
use acyclic_filesystem::git::paths::{expand_pathspecs, is_path_below, trim_slashes};
use acyclic_filesystem::git::tree::{
    portable_name, walk_git_tree, GitInspectionError, GitListedEntry, GitWalkStep,
};
use acyclic_filesystem::git::types::{GitCommit, GitCommitId, GitTreeRef};
use acyclic_filesystem::kernel::name::{FileKind, LogicalName, NameEncoding};
use acyclic_filesystem::order::{OrderedMap, OrderedSet};
use acyclic_filesystem::storage::{object_digest, ObjectKind};

fn set(names: &[&str]) -> OrderedSet<String> {
    OrderedSet::from_vec(names.iter().map(|name| (*name).to_owned()).collect())
}

fn name(text: &str) -> LogicalName {
    LogicalName { encoding: NameEncoding::Utf8, bytes: text.as_bytes().to_vec() }
}

fn listed(text: &str, kind: FileKind) -> GitListedEntry {
    GitListedEntry { name: name(text), kind }
}

fn tree(byte: u8) -> GitTreeRef {
    GitTreeRef::exact(
        WorkspaceId::from_bytes([9; 16]),
        GenerationId::new(Digest::from_bytes([byte; 32])),
    )
}

fn commit(byte: u8, parents: Vec<GitCommitId>) -> GitCommit {
    GitCommit::new_with_metadata(
        tree(byte),
        tree(byte),
        set(&["a.txt"]),
        parents,
        "agent".to_owned(),
        i64::from(byte),
        format!("commit {byte}"),
    )
}

#[test]
fn digests_and_hexadecimal_are_those_of_the_outside_functions() {
    let id = GitCommitId::from_bytes([0x1a; 32]);
    assert_eq!(id.to_hex(), hex::encode([0x1a; 32]));
    assert_eq!(GitCommitId::from_hex(&id.to_hex()), Ok(id));
    assert_eq!(GitCommitId::from_hex(&"1A".repeat(32)), Ok(id));
    assert_eq!(GitCommitId::from_hex("1a2"), Err(GitCommitIdError::NotHexadecimal));
    assert_eq!(GitCommitId::from_hex("xy"), Err(GitCommitIdError::NotHexadecimal));
    assert_eq!(GitCommitId::from_hex("1a"), Err(GitCommitIdError::WrongLength(1)));
    let mut preimage = vec![ObjectKind::BlobChunk.canonical_tag()];
    preimage.extend_from_slice(b"contents");
    let digest = object_digest(ObjectKind::BlobChunk, b"contents");
    assert_eq!(digest.bytes, *blake3::hash(&preimage).as_bytes());
    assert_ne!(digest, object_digest(ObjectKind::Blob, b"contents"));
}

#[test]
fn nested_rules_inherit_and_negate() {
    let root = GitIgnorePolicy::parse("*.txt\n");
    let mut nested: OrderedMap<String, GitIgnorePolicy> = OrderedMap::new();
    nested.insert("src".to_owned(), GitIgnorePolicy::parse("!keep.txt\n"));
    assert!(!git_path_eligible(&root, &nested, "other.txt", false, false));
    assert!(git_path_eligible(&root, &nested, "src/keep.txt", false, false));
    assert!(!git_path_eligible(&root, &nested, "src/drop.txt", false, false));
    assert!(git_path_eligible(&root, &nested, "src/drop.txt", false, true));
}

#[test]
fn ignore_files_are_text() {
    let policy = nested_ignores(b"*.log\n".to_vec()).expect("text");
    let none: OrderedMap<String, GitIgnorePolicy> = OrderedMap::new();
    assert!(!git_path_eligible(&policy, &none, "trace.log", false, false));
    assert!(git_path_eligible(&policy, &none, "trace.txt", false, false));
    assert_eq!(
        nested_ignores(vec![0x2a, 0xff]).expect_err("not text"),
        GitCaptureError::NonPortableName
    );
}

#[test]
fn the_last_line_about_a_name_decides() {
    for text in ["", "*.txt", "!keep\n*"] {
        let ignoring = GitIgnorePolicy::parse(&format!("{text}\nkeep"));
        assert!(!ignoring.eligible("keep", false, false));
        assert!(!ignoring.eligible("keep", true, false));
        assert!(ignoring.eligible("keep", false, true));
        let keeping = GitIgnorePolicy::parse(&format!("{text}\nkeep\n!keep"));
        assert!(keeping.eligible("keep", false, false));
    }
}

#[test]
fn asterisks_match_asterisks() {
    assert!(wildcard_matches(b"*", b"*a"));
    assert!(wildcard_matches(b"*", b""));
    assert!(wildcard_matches(b"**b", b"*ab"));
    assert!(wildcard_matches(b"a?c*", b"a*c*d"));
    assert!(!wildcard_matches(b"*b", b"*a"));
}

#[test]
fn patches_change_add_and_delete_text() {
    let patch = b"--- a/a.txt\n+++ b/a.txt\n@@ -1,2 +1,2 @@\n one\n-old\n+new\n";
    let files = parse_unified_patch(patch).expect("patch");
    assert_eq!(files.len(), 1);
    assert_eq!(files[0].path(), Some(&"a.txt".to_owned()));
    assert_eq!(
        apply_unified_hunks("a.txt", "one\nold\n", &files[0].hunks).expect("applies"),
        "one\nnew\n"
    );
    assert!(matches!(
        apply_unified_hunks("a.txt", "one\nnew\n", &files[0].hunks),
        Err(GitPatchError::Conflict { path, line: 1 }) if path == "a.txt"
    ));
    let add_and_delete = b"--- /dev/null\n+++ b/nested/new.txt\n@@ -0,0 +1 @@\n+made\n--- a/gone.txt\n+++ /dev/null\n@@ -1 +0,0 @@\n-gone\n\\ No newline at end of file\n";
    let files = parse_unified_patch(add_and_delete).expect("patch");
    assert_eq!(files.len(), 2);
    assert_eq!(
        files[0].effect(b"").expect("addition"),
        GitPatchEffect::Write {
            parent: Some("nested".to_owned()),
            path: "nested/new.txt".to_owned(),
            text: "made\n".to_owned(),
        }
    );
    assert_eq!(
        files[1].effect(b"gone").expect("deletion"),
        GitPatchEffect::Remove { path: "gone.txt".to_owned() }
    );
    assert!(matches!(
        files[1].effect(&[0xff]),
        Err(GitPatchError::NonText)
    ));
}

#[test]
fn patches_outside_the_tree_are_invalid() {
    assert!(matches!(
        parse_unified_patch(b"--- C:/outside\n+++ C:/outside\n@@ -0,0 +1 @@\n+x\n"),
        Err(GitPatchError::Invalid(_))
    ));
    assert!(matches!(
        parse_unified_patch(b"--- a/../x\n+++ b/../x\n@@ -0,0 +1 @@\n+x\n"),
        Err(GitPatchError::Invalid(_))
    ));
    assert!(matches!(parse_unified_patch(&[0xff, 0xfe]), Err(GitPatchError::NonText)));
}

#[test]
fn tree_walk_lists_portable_paths_in_order() {
    let (mut walk, first) = walk_git_tree(Some("src"), 10);
    assert_eq!(first, GitWalkStep::Stat("/src".to_owned()));
    let GitWalkStep::List { directory, after } = walk.stated(FileKind::Directory) else {
        panic!("expected a listing");
    };
    assert_eq!(directory, "/src");
    assert!(after.is_none());
    let page = vec![
        listed("a.txt", FileKind::Regular),
        listed("b.txt", FileKind::Regular),
        listed("binary.bin", FileKind::Regular),
    ];
    let GitWalkStep::Done(entries) = walk.listed(&page, false).expect("portable") else {
        panic!("expected the end");
    };
    let found: Vec<&str> = entries.iter().map(|entry| entry.path.as_str()).collect();
    assert_eq!(found, vec!["src/a.txt", "src/b.txt", "src/binary.bin"]);
}

#[test]
fn names_that_are_not_portable_are_refused() {
    assert_eq!(portable_name(&name("plain")), Ok("plain".to_owned()));
    let bytes = LogicalName { encoding: NameEncoding::Utf8, bytes: vec![0xff] };
    assert_eq!(portable_name(&bytes), Err(GitInspectionError::NonUtf8Path));
    let posix = LogicalName { encoding: NameEncoding::PosixBytes, bytes: b"x".to_vec() };
    assert_eq!(portable_name(&posix), Err(GitInspectionError::NonPortablePath));
}

#[test]
fn grep_skips_large_and_binary_files() {
    let file = |path: &str, contents: &[u8]| GitGrepFile {
        path: path.to_owned(),
        logical_bytes: contents.len() as u64,
        contents: contents.to_vec(),
    };
    let files = vec![
        file("src/a.txt", b"one\nneedle\n"),
        file("src/b.txt", b"needle two\n"),
        file("src/binary.bin", b"needle\xffbinary"),
        file("src/large.txt", b"needle is too large"),
    ];
    let result = grep_git_generation("needle", &files, false, 16, 10);
    assert!(result.truncated);
    assert_eq!(result.matches.len(), 2);
    assert_eq!(result.matches[0].line, 2);
    assert_eq!(result.matches[1].line, 1);
    let single = grep_git_generation("needle", &vec![file("src/a.txt", b"one\nneedle\n")], false, 16, 10);
    assert!(!single.truncated);
    assert_eq!(single.matches.len(), 1);
    assert_eq!(single.matches[0].path, "src/a.txt");
    assert_eq!(single.matches[0].line, 2);
}

#[test]
fn blame_attributes_unchanged_lines_to_their_oldest_commit() {
    let first = commit(1, Vec::new());
    let second = commit(2, vec![first.id]);
    let history = vec![second.clone(), first.clone()];
    let contents = vec![b"one\nchanged\n".to_vec(), b"one\ntwo\n".to_vec()];
    let lines = blame_git_generations(&history, &contents, "a.txt").expect("text");
    assert_eq!(lines.len(), 2);
    assert_eq!(lines[0].commit, first.id);
    assert_eq!(lines[1].commit, second.id);
    assert_eq!(lines[1].text, "changed");
    assert_eq!(text_lines("a\r\nb"), vec!["a".to_owned(), "b".to_owned()]);
}

#[test]
fn common_ancestor_of_two_branches() {
    let root = commit(1, Vec::new());
    let left = commit(2, vec![root.id]);
    let right = commit(3, vec![root.id]);
    let mut commits: OrderedMap<GitCommitId, GitCommit> = OrderedMap::new();
    for each in [&root, &left, &right] {
        commits.insert(each.id, each.clone());
    }
    assert_eq!(nearest_common_ancestor(&commits, left.id, right.id), Some(root.id));
    assert_eq!(nearest_common_ancestor(&commits, left.id, root.id), Some(root.id));
}

#[test]
fn capture_keeps_tracked_descendants_of_ignored_directories() {
    let mut scan = GitCaptureScan::new();
    assert_eq!(scan.pending, vec!["/".to_owned()]);
    scan.listed(
        "/",
        &vec![
            listed("target", FileKind::Directory),
            listed("kept.txt", FileKind::Regular),
        ],
    )
    .expect("portable");
    scan.listed(
        "/target",
        &vec![
            listed("tracked.bin", FileKind::Regular),
            listed("new.bin", FileKind::Regular),
        ],
    )
    .expect("portable");
    let entries: Vec<GitCaptureEntry> = scan.entries;
    let policy = GitIgnorePolicy::parse("target/\n");
    let selection = select_capture(
        entries,
        &OrderedMap::new(),
        &policy,
        &set(&["target/tracked.bin"]),
    );
    assert_eq!(selection.tracked_paths, set(&["kept.txt", "target/tracked.bin"]));
    assert_eq!(selection.excluded, vec!["target/new.bin".to_owned()]);
}

#[test]
fn incremental_capture_follows_ignore_files() {
    let change = |path: &str| GitPathChange {
        path: path.split('/').map(name).collect(),
        before: None,
        after: Some(FileKind::Regular),
    };
    let policy = GitIgnorePolicy::parse("*.log\n");
    let changed = select_incremental(
        &vec![change("src/a.txt"), change("src/b.log")],
        &policy,
        &set(&["old.txt"]),
    )
    .expect("portable");
    match changed {
        GitIncrementalCapture::Changed { eligible, tracked_paths } => {
            assert_eq!(eligible, vec!["src/a.txt".to_owned()]);
            assert_eq!(tracked_paths, set(&["old.txt", "src/a.txt"]));
        }
        GitIncrementalCapture::Exact => panic!("expected an incremental capture"),
    }
    let exact = select_incremental(&vec![change("src/.gitignore")], &policy, &set(&[]))
        .expect("portable");
    assert!(matches!(exact, GitIncrementalCapture::Exact));
    let unportable = GitPathChange {
        path: vec![LogicalName { encoding: NameEncoding::PosixBytes, bytes: vec![0xff] }],
        before: None,
        after: Some(FileKind::Regular),
    };
    assert!(matches!(
        select_incremental(&vec![unportable], &policy, &set(&[])),
        Err(GitCaptureError::NonPortableName)
    ));
}

#[test]
fn capture_identities_are_stable_and_distinct() {
    let operation = OperationId::from_bytes([7; 16]);
    let other = OperationId::from_bytes([8; 16]);
    let workspace = WorkspaceId::from_bytes([9; 16]);
    assert_eq!(capture_name(&workspace, &operation), capture_name(&workspace, &operation));
    assert_ne!(capture_name(&workspace, &operation), capture_name(&workspace, &other));
    assert_ne!(capture_pin(&operation), capture_pin(&other));
    assert_ne!(capture_fork_key(&operation), capture_commit_key(&operation));
}

#[test]
fn pathspecs_expand_to_tracked_paths() {
    let catalog = set(&["src/a.txt", "src/b.txt", "top.txt"]);
    assert_eq!(
        expand_pathspecs(&["src/".to_owned()], &catalog),
        vec!["src/a.txt".to_owned(), "src/b.txt".to_owned()]
    );
    assert_eq!(
        expand_pathspecs(&["new.txt".to_owned()], &catalog),
        vec!["new.txt".to_owned()]
    );
    assert_eq!(trim_slashes("/src/"), "src");
    assert!(is_path_below("src/a.txt", "src"));
    assert!(!is_path_below("srcs/a.txt", "src"));
}
