//! What command lines spell.

use super::argv::{
    any_word, commit_options, composes, first_where, is_option, long_option, parsed_command,
    restore_options, Words,
};
use super::types::{CommandView, CompatErrorView, GitResetMode};
use crate::text::{
    decimal, decimals_read_back, first_index, lemma_decimal, lemma_first_index, occurs, occurs_at,
};
use vstd::prelude::*;
use vstd::string::*;

verus! {

/// Whether a character means something to a shell.
pub open spec fn shell_char(c: char) -> bool {
    c == '`' || c == '$' || c == '&' || c == '|' || c == ';' || c == '<' || c == '>'
}

/// Whether a word means nothing to a shell.
pub open spec fn harmless(word: Seq<char>) -> bool {
    forall|i: int| 0 <= i < word.len() ==> !shell_char(#[trigger] word[i])
}

/// Whether a word is harmless and no option.
pub open spec fn plain(word: Seq<char>) -> bool {
    harmless(word) && (word.len() > 0 ==> word[0] != '-')
}

/// Whether all words are harmless.
pub open spec fn all_harmless(words: Words) -> bool {
    forall|i: int| 0 <= i < words.len() ==> harmless(#[trigger] words[i])
}

/// Whether all words are plain.
pub open spec fn all_plain(words: Words) -> bool {
    forall|i: int| 0 <= i < words.len() ==> plain(#[trigger] words[i])
}

/// A word that may be absent.
pub open spec fn optional(word: Option<Seq<char>>) -> Words {
    match word {
        Some(word) => seq![word],
        None => Seq::empty(),
    }
}

/// Words that spell a command.
pub open spec fn spelled(command: CommandView) -> Words {
    match command {
        CommandView::Status => seq!["status"@],
        CommandView::Diff { cached } => if cached {
            seq!["diff"@, "--cached"@]
        } else {
            seq!["diff"@]
        },
        CommandView::Log { maximum } => seq!["log"@, "-n"@, decimal(maximum as nat)],
        CommandView::Show { object } => seq!["show"@] + optional(object),
        CommandView::Add { paths } => seq!["add"@, "-A"@, "--"@] + paths,
        CommandView::Commit { message, author, .. } => seq![
            "commit"@,
            "-m"@,
            message,
            "--author"@,
            author,
        ],
        CommandView::Branch { create } => seq!["branch"@] + optional(create),
        CommandView::Switch { branch, create } => if create {
            seq!["switch"@, "-c"@, branch]
        } else {
            seq!["switch"@, branch]
        },
        CommandView::Restore { source, paths } => match source {
            Some(source) => seq!["restore"@, "--source"@, source, "--"@] + paths,
            None => seq!["restore"@, "--"@] + paths,
        },
        CommandView::Reset { target, mode } => seq![
            "reset"@,
            match mode {
                GitResetMode::Hard => "--hard"@,
                GitResetMode::Soft => "--soft"@,
                GitResetMode::Mixed => "--mixed"@,
            },
            target,
        ],
        CommandView::Merge { branch } => seq!["merge"@, branch],
        CommandView::MergeContinue => seq!["merge"@, "--continue"@],
        CommandView::MergeAbort => seq!["merge"@, "--abort"@],
        CommandView::Rebase { branch } => seq!["rebase"@, branch],
        CommandView::StashPush => seq!["stash"@],
        CommandView::StashPop => seq!["stash"@, "pop"@],
        CommandView::CherryPick { object } => seq!["cherry-pick"@, object],
        CommandView::Revert { object } => seq!["revert"@, object],
        CommandView::Tag { name, target, delete } => if delete {
            seq!["tag"@, "-d"@, name->0]
        } else {
            seq!["tag"@] + optional(name) + optional(target)
        },
        CommandView::Blame { path } => seq!["blame"@, path],
        CommandView::Grep { pattern, path } => seq!["grep"@, pattern] + optional(path),
        CommandView::Clean { dry_run } => if dry_run {
            seq!["clean"@, "-n"@]
        } else {
            seq!["clean"@, "-f"@]
        },
        CommandView::Archive { object } => seq!["archive"@] + optional(object),
        CommandView::Apply { .. } => seq!["apply"@],
        CommandView::Bisect { arguments } => seq!["bisect"@] + arguments,
        CommandView::RevParse { argument } => seq!["rev-parse"@, argument],
        CommandView::SymbolicRef { short } => if short {
            seq!["symbolic-ref"@, "--short"@, "HEAD"@]
        } else {
            seq!["symbolic-ref"@, "HEAD"@]
        },
        CommandView::MergeBase { left, right } => seq!["merge-base"@, left, right],
        CommandView::LsFiles => seq!["ls-files"@],
        CommandView::CheckIgnore { paths } => seq!["check-ignore"@] + paths,
    }
}

/// Whether a command can be spelled: its words mean nothing to a shell, and those that
/// stand where an option could are none.
pub open spec fn can_be_spelled(command: CommandView, now_seconds: i64) -> bool {
    match command {
        CommandView::Show { object } => all_plain(optional(object)),
        CommandView::Add { paths } => all_harmless(paths),
        CommandView::Commit { message, author, authored_at_seconds } => harmless(message)
            && harmless(author) && authored_at_seconds == now_seconds,
        CommandView::Branch { create } => all_plain(optional(create)),
        CommandView::Switch { branch, .. } => plain(branch),
        CommandView::Restore { source, paths } => all_harmless(optional(source)) && all_harmless(
            paths,
        ) && paths.len() > 0,
        CommandView::Reset { target, .. } => plain(target),
        CommandView::Merge { branch } => plain(branch),
        CommandView::Rebase { branch } => plain(branch),
        CommandView::CherryPick { object } => plain(object),
        CommandView::Revert { object } => plain(object),
        CommandView::Tag { name, target, delete } => {
            &&& all_plain(optional(name)) && all_plain(optional(target))
            &&& name is None ==> target is None && !delete
            &&& delete ==> target is None
        },
        CommandView::Blame { path } => plain(path),
        CommandView::Grep { pattern, path } => harmless(pattern) && all_harmless(optional(path)),
        CommandView::Archive { object } => all_plain(optional(object)),
        CommandView::Apply { .. } => false,
        CommandView::Bisect { arguments } => all_harmless(arguments),
        CommandView::RevParse { argument } => plain(argument),
        CommandView::MergeBase { left, right } => harmless(left) && harmless(right),
        CommandView::CheckIgnore { paths } => all_plain(paths) && paths.len() > 0,
        _ => true,
    }
}

spec fn safe_at(word: Seq<char>, i: int) -> bool {
    i < word.len() ==> !shell_char(word[i])
}

proof fn lemma_harmless(word: Seq<char>)
    requires
        word.len() <= 12,
        safe_at(word, 0) && safe_at(word, 1) && safe_at(word, 2) && safe_at(word, 3),
        safe_at(word, 4) && safe_at(word, 5) && safe_at(word, 6) && safe_at(word, 7),
        safe_at(word, 8) && safe_at(word, 9) && safe_at(word, 10) && safe_at(word, 11),
    ensures
        harmless(word),
{
    assert forall|i: int| 0 <= i < word.len() implies !shell_char(#[trigger] word[i]) by {
        assert(i == 0 || i == 1 || i == 2 || i == 3 || i == 4 || i == 5 || i == 6 || i == 7 || i
            == 8 || i == 9 || i == 10 || i == 11);
        assert(safe_at(word, i));
    }
}

proof fn lemma_not_composed(word: Seq<char>)
    requires
        harmless(word),
    ensures
        !composes(word),
{
    reveal_strlit("&&");
    reveal_strlit("||");
    reveal_strlit(";");
    reveal_strlit("|");
    reveal_strlit("&");
    reveal_strlit("$(");
    if word.len() > 0 {
        assert(!shell_char(word[0]));
    }
    if word.contains('`') {
        let i = word.index_of('`');
        assert(!shell_char(word[i]));
    }
    if occurs(word, "$("@) {
        let at = choose|at: int| occurs_at(word, "$("@, at);
        assert(word.subrange(at, at + 2)[0] == word[at]);
        assert(!shell_char(word[at]));
    }
}

proof fn lemma_first_none(words: Words, property: spec_fn(Seq<char>) -> bool)
    requires
        forall|i: int| 0 <= i < words.len() ==> !property(#[trigger] words[i]),
    ensures
        first_where(words, property) is None,
    decreases words.len(),
{
    if words.len() > 0 {
        assert(!property(words[0]));
        let rest = words.skip(1);
        assert forall|i: int| 0 <= i < rest.len() implies !property(#[trigger] rest[i]) by {
            assert(rest[i] == words[i + 1]);
        }
        lemma_first_none(rest, property);
    }
}

proof fn lemma_nothing_composed(words: Words)
    requires
        all_harmless(words),
    ensures
        first_where(words, |word: Seq<char>| composes(word)) is None,
{
    let property = |word: Seq<char>| composes(word);
    assert forall|i: int| 0 <= i < words.len() implies !property(#[trigger] words[i]) by {
        lemma_not_composed(words[i]);
    }
    lemma_first_none(words, property);
}

proof fn lemma_filter_all(words: Words, property: spec_fn(Seq<char>) -> bool)
    requires
        forall|i: int| 0 <= i < words.len() ==> property(#[trigger] words[i]),
    ensures
        words.filter(property) == words,
    decreases words.len(),
{
    reveal(Seq::filter);
    if words.len() > 0 {
        let front = words.drop_last();
        assert forall|i: int| 0 <= i < front.len() implies property(#[trigger] front[i]) by {
            assert(front[i] == words[i]);
        }
        lemma_filter_all(front, property);
        assert(property(words[words.len() - 1]));
        assert(front.push(words.last()) =~= words);
    } else {
        assert(words.filter(property) =~= words);
    }
}

proof fn lemma_filter_one(word: Seq<char>, property: spec_fn(Seq<char>) -> bool)
    ensures
        seq![word].filter(property) == (if property(word) {
            seq![word]
        } else {
            Seq::empty()
        }),
{
    reveal(Seq::filter);
    let none = Seq::<Seq<char>>::empty();
    assert(seq![word].drop_last() =~= none);
    assert(none.filter(property) =~= none);
    assert(none.push(word) =~= seq![word]);
}

proof fn lemma_filter_two(a: Seq<char>, b: Seq<char>, property: spec_fn(Seq<char>) -> bool)
    ensures
        seq![a, b].filter(property) == seq![a].filter(property) + seq![b].filter(property),
{
    reveal(Seq::filter);
    lemma_filter_one(a, property);
    lemma_filter_one(b, property);
    assert(seq![a, b].drop_last() =~= seq![a]);
    assert(seq![a, b].filter(property) =~= seq![a].filter(property) + seq![b].filter(property));
}

proof fn lemma_no_inline(word: Seq<char>)
    requires
        forall|i: int| 0 <= i < word.len() ==> #[trigger] word[i] != '=',
    ensures
        long_option(word) == (word, None::<Seq<char>>),
{
    lemma_first_index(word, '=', 0);
}

proof fn lemma_restore_rest<E>(
    args: Words,
    source: Option<Seq<char>>,
    paths: Words,
)
    ensures
        restore_options::<E>(args, source, paths, true) == Ok::<
            (Option<Seq<char>>, Words),
            CompatErrorView<E>,
        >((source, paths + args)),
    decreases args.len(),
{
    if args.len() == 0 {
        assert(paths + args =~= paths);
    } else {
        lemma_restore_rest::<E>(args.skip(1), source, paths.push(args[0]));
        assert(paths.push(args[0]) + args.skip(1) =~= paths + args);
    }
}

/// The names of commands differ.
proof fn lemma_names()
    ensures
        "status"@.len() == 6 && "status"@[0] == 's' && "status"@[1] == 't' && "status"@[2]
            == 'a',
        "diff"@.len() == 4 && "diff"@[0] == 'd' && "diff"@[1] == 'i' && "diff"@[2]
            == 'f',
        "log"@.len() == 3 && "log"@[0] == 'l' && "log"@[1] == 'o' && "log"@[2]
            == 'g',
        "show"@.len() == 4 && "show"@[0] == 's' && "show"@[1] == 'h' && "show"@[2]
            == 'o',
        "blame"@.len() == 5 && "blame"@[0] == 'b' && "blame"@[1] == 'l' && "blame"@[2]
            == 'a',
        "grep"@.len() == 4 && "grep"@[0] == 'g' && "grep"@[1] == 'r' && "grep"@[2]
            == 'e',
        "archive"@.len() == 7 && "archive"@[0] == 'a' && "archive"@[1] == 'r' && "archive"@[2]
            == 'c',
        "rev-parse"@.len() == 9 && "rev-parse"@[0] == 'r' && "rev-parse"@[1] == 'e' && "rev-parse"@[2]
            == 'v',
        "symbolic-ref"@.len() == 12 && "symbolic-ref"@[0] == 's' && "symbolic-ref"@[1] == 'y' && "symbolic-ref"@[2]
            == 'm',
        "merge-base"@.len() == 10 && "merge-base"@[0] == 'm' && "merge-base"@[1] == 'e' && "merge-base"@[2]
            == 'r',
        "ls-files"@.len() == 8 && "ls-files"@[0] == 'l' && "ls-files"@[1] == 's' && "ls-files"@[2]
            == '-',
        "check-ignore"@.len() == 12 && "check-ignore"@[0] == 'c' && "check-ignore"@[1] == 'h' && "check-ignore"@[2]
            == 'e',
        "add"@.len() == 3 && "add"@[0] == 'a' && "add"@[1] == 'd' && "add"@[2]
            == 'd',
        "commit"@.len() == 6 && "commit"@[0] == 'c' && "commit"@[1] == 'o' && "commit"@[2]
            == 'm',
        "branch"@.len() == 6 && "branch"@[0] == 'b' && "branch"@[1] == 'r' && "branch"@[2]
            == 'a',
        "switch"@.len() == 6 && "switch"@[0] == 's' && "switch"@[1] == 'w' && "switch"@[2]
            == 'i',
        "checkout"@.len() == 8 && "checkout"@[0] == 'c' && "checkout"@[1] == 'h' && "checkout"@[2]
            == 'e',
        "restore"@.len() == 7 && "restore"@[0] == 'r' && "restore"@[1] == 'e' && "restore"@[2]
            == 's',
        "reset"@.len() == 5 && "reset"@[0] == 'r' && "reset"@[1] == 'e' && "reset"@[2]
            == 's',
        "merge"@.len() == 5 && "merge"@[0] == 'm' && "merge"@[1] == 'e' && "merge"@[2]
            == 'r',
        "rebase"@.len() == 6 && "rebase"@[0] == 'r' && "rebase"@[1] == 'e' && "rebase"@[2]
            == 'b',
        "cherry-pick"@.len() == 11 && "cherry-pick"@[0] == 'c' && "cherry-pick"@[1] == 'h' && "cherry-pick"@[2]
            == 'e',
        "revert"@.len() == 6 && "revert"@[0] == 'r' && "revert"@[1] == 'e' && "revert"@[2]
            == 'v',
        "stash"@.len() == 5 && "stash"@[0] == 's' && "stash"@[1] == 't' && "stash"@[2]
            == 'a',
        "tag"@.len() == 3 && "tag"@[0] == 't' && "tag"@[1] == 'a' && "tag"@[2]
            == 'g',
        "clean"@.len() == 5 && "clean"@[0] == 'c' && "clean"@[1] == 'l' && "clean"@[2]
            == 'e',
        "apply"@.len() == 5 && "apply"@[0] == 'a' && "apply"@[1] == 'p' && "apply"@[2]
            == 'p',
        "bisect"@.len() == 6 && "bisect"@[0] == 'b' && "bisect"@[1] == 'i' && "bisect"@[2]
            == 's',
{
    reveal_strlit("status");
    reveal_strlit("diff");
    reveal_strlit("log");
    reveal_strlit("show");
    reveal_strlit("blame");
    reveal_strlit("grep");
    reveal_strlit("archive");
    reveal_strlit("rev-parse");
    reveal_strlit("symbolic-ref");
    reveal_strlit("merge-base");
    reveal_strlit("ls-files");
    reveal_strlit("check-ignore");
    reveal_strlit("add");
    reveal_strlit("commit");
    reveal_strlit("branch");
    reveal_strlit("switch");
    reveal_strlit("checkout");
    reveal_strlit("restore");
    reveal_strlit("reset");
    reveal_strlit("merge");
    reveal_strlit("rebase");
    reveal_strlit("cherry-pick");
    reveal_strlit("revert");
    reveal_strlit("stash");
    reveal_strlit("tag");
    reveal_strlit("clean");
    reveal_strlit("apply");
    reveal_strlit("bisect");
}

/// The words of commands mean nothing to a shell.
proof fn lemma_known_words()
    ensures
        harmless("status"@),
        harmless("diff"@),
        harmless("log"@),
        harmless("show"@),
        harmless("blame"@),
        harmless("grep"@),
        harmless("archive"@),
        harmless("rev-parse"@),
        harmless("symbolic-ref"@),
        harmless("merge-base"@),
        harmless("ls-files"@),
        harmless("check-ignore"@),
        harmless("add"@),
        harmless("commit"@),
        harmless("branch"@),
        harmless("switch"@),
        harmless("checkout"@),
        harmless("restore"@),
        harmless("reset"@),
        harmless("merge"@),
        harmless("rebase"@),
        harmless("cherry-pick"@),
        harmless("revert"@),
        harmless("stash"@),
        harmless("tag"@),
        harmless("clean"@),
        harmless("apply"@),
        harmless("bisect"@),
        harmless("--cached"@),
        harmless("-n"@),
        harmless("-A"@),
        harmless("--"@),
        harmless("-m"@),
        harmless("--author"@),
        harmless("-c"@),
        harmless("--source"@),
        harmless("--hard"@),
        harmless("--soft"@),
        harmless("--mixed"@),
        harmless("HEAD"@),
        harmless("--continue"@),
        harmless("--abort"@),
        harmless("pop"@),
        harmless("-d"@),
        harmless("-f"@),
        harmless("--short"@),
{
    reveal_strlit("status");
    reveal_strlit("diff");
    reveal_strlit("log");
    reveal_strlit("show");
    reveal_strlit("blame");
    reveal_strlit("grep");
    reveal_strlit("archive");
    reveal_strlit("rev-parse");
    reveal_strlit("symbolic-ref");
    reveal_strlit("merge-base");
    reveal_strlit("ls-files");
    reveal_strlit("check-ignore");
    reveal_strlit("add");
    reveal_strlit("commit");
    reveal_strlit("branch");
    reveal_strlit("switch");
    reveal_strlit("checkout");
    reveal_strlit("restore");
    reveal_strlit("reset");
    reveal_strlit("merge");
    reveal_strlit("rebase");
    reveal_strlit("cherry-pick");
    reveal_strlit("revert");
    reveal_strlit("stash");
    reveal_strlit("tag");
    reveal_strlit("clean");
    reveal_strlit("apply");
    reveal_strlit("bisect");
    reveal_strlit("--cached");
    reveal_strlit("-n");
    reveal_strlit("-A");
    reveal_strlit("--");
    reveal_strlit("-m");
    reveal_strlit("--author");
    reveal_strlit("-c");
    reveal_strlit("--source");
    reveal_strlit("--hard");
    reveal_strlit("--soft");
    reveal_strlit("--mixed");
    reveal_strlit("HEAD");
    reveal_strlit("--continue");
    reveal_strlit("--abort");
    reveal_strlit("pop");
    reveal_strlit("-d");
    reveal_strlit("-f");
    reveal_strlit("--short");
    lemma_harmless("status"@);
    lemma_harmless("diff"@);
    lemma_harmless("log"@);
    lemma_harmless("show"@);
    lemma_harmless("blame"@);
    lemma_harmless("grep"@);
    lemma_harmless("archive"@);
    lemma_harmless("rev-parse"@);
    lemma_harmless("symbolic-ref"@);
    lemma_harmless("merge-base"@);
    lemma_harmless("ls-files"@);
    lemma_harmless("check-ignore"@);
    lemma_harmless("add"@);
    lemma_harmless("commit"@);
    lemma_harmless("branch"@);
    lemma_harmless("switch"@);
    lemma_harmless("checkout"@);
    lemma_harmless("restore"@);
    lemma_harmless("reset"@);
    lemma_harmless("merge"@);
    lemma_harmless("rebase"@);
    lemma_harmless("cherry-pick"@);
    lemma_harmless("revert"@);
    lemma_harmless("stash"@);
    lemma_harmless("tag"@);
    lemma_harmless("clean"@);
    lemma_harmless("apply"@);
    lemma_harmless("bisect"@);
    lemma_harmless("--cached"@);
    lemma_harmless("-n"@);
    lemma_harmless("-A"@);
    lemma_harmless("--"@);
    lemma_harmless("-m"@);
    lemma_harmless("--author"@);
    lemma_harmless("-c"@);
    lemma_harmless("--source"@);
    lemma_harmless("--hard"@);
    lemma_harmless("--soft"@);
    lemma_harmless("--mixed"@);
    lemma_harmless("HEAD"@);
    lemma_harmless("--continue"@);
    lemma_harmless("--abort"@);
    lemma_harmless("pop"@);
    lemma_harmless("-d"@);
    lemma_harmless("-f"@);
    lemma_harmless("--short"@);
}

/// Whether words are read as an inspection command.
spec fn inspects<E>(words: Words, command: CommandView) -> bool {
    super::argv::inspection_command::<E>(words[0], words.skip(1)) == Some(
        Ok::<CommandView, CompatErrorView<E>>(command),
    )
}

/// Whether words are read as a history command.
spec fn changes<E>(words: Words, now_seconds: i64, author: Seq<char>, command: CommandView) -> bool {
    &&& super::argv::inspection_command::<E>(words[0], words.skip(1)) is None
    &&& super::argv::history_command::<E>(words[0], words.skip(1), author, now_seconds) == Some(
        Ok::<CommandView, CompatErrorView<E>>(command),
    )
}

proof fn lemma_options_alone(args: Words, allowed: Words, property: spec_fn(Seq<char>) -> bool)
    requires
        forall|i: int| 0 <= i < args.len() ==> allowed.contains(#[trigger] args[i]),
        property == (|word: Seq<char>| is_option(word) && !allowed.contains(word)),
    ensures
        first_where(args, property) is None,
{
    lemma_first_none(args, property);
}

proof fn lemma_plain_inspections<E>(command: CommandView, now_seconds: i64)
    requires
        can_be_spelled(command, now_seconds),
        command is Status || command is LsFiles || command is Show || command is Blame
            || command is Grep || command is Archive || command is RevParse
            || command is MergeBase,
    ensures
        inspects::<E>(spelled(command), command),
{
    lemma_names();
    let words = spelled(command);
    let args = words.skip(1);
    let none = Seq::<Seq<char>>::empty();
    match command {
        CommandView::Status => {
            assert(args =~= none);
        },
        CommandView::LsFiles => {
            assert(args =~= none);
        },
        CommandView::Show { object } => {
            assert(args =~= optional(object));
            if object is Some {
                assert(plain(optional(object)[0]));
            }
        },
        CommandView::Archive { object } => {
            assert(args =~= optional(object));
            if object is Some {
                assert(plain(optional(object)[0]));
            }
        },
        CommandView::Blame { path } => {
            assert(args =~= seq![path]);
        },
        CommandView::Grep { pattern, path } => {
            assert(args =~= seq![pattern] + optional(path));
        },
        CommandView::RevParse { argument } => {
            assert(args =~= seq![argument]);
            reveal_strlit("--is-inside-work-tree");
        },
        CommandView::MergeBase { left, right } => {
            assert(args =~= seq![left, right]);
        },
        _ => {},
    }
}

proof fn lemma_diff<E>(cached: bool)
    ensures
        inspects::<E>(spelled(CommandView::Diff { cached }), CommandView::Diff { cached }),
{
    lemma_names();
    reveal_strlit("--cached");
    reveal_strlit("--staged");
    let words = spelled(CommandView::Diff { cached });
    let args = words.skip(1);
    let allowed = seq!["--cached"@, "--staged"@];
    assert(allowed[0] == "--cached"@);
    assert(allowed.contains("--cached"@));
    if cached {
        assert(args =~= seq!["--cached"@]);
        assert(args[0] == "--cached"@);
        assert(args.contains("--cached"@));
    } else {
        assert(args =~= Seq::empty());
    }
    lemma_options_alone(
        args,
        allowed,
        |word: Seq<char>| is_option(word) && !allowed.contains(word),
    );
}

proof fn lemma_log<E>(maximum: u32)
    ensures
        inspects::<E>(spelled(CommandView::Log { maximum }), CommandView::Log { maximum }),
        all_harmless(seq![decimal(maximum as nat)]),
{
    lemma_names();
    let words = spelled(CommandView::Log { maximum });
    let args = words.skip(1);
    assert(args =~= seq!["-n"@, decimal(maximum as nat)]);
    decimals_read_back(maximum as nat, u32::MAX as nat);
    lemma_decimal(maximum as nat);
    let digits = decimal(maximum as nat);
    assert(harmless(digits)) by {
        assert forall|i: int| 0 <= i < digits.len() implies !shell_char(#[trigger] digits[i]) by {
            assert('0' <= digits[i] <= '9');
        }
    }
}

proof fn lemma_symbolic_ref<E>(short: bool)
    ensures
        inspects::<E>(
            spelled(CommandView::SymbolicRef { short }),
            CommandView::SymbolicRef { short },
        ),
{
    lemma_names();
    reveal_strlit("--short");
    reveal_strlit("HEAD");
    let words = spelled(CommandView::SymbolicRef { short });
    let args = words.skip(1);
    let allowed = seq!["--short"@];
    assert(allowed[0] == "--short"@);
    assert(allowed.contains("--short"@));
    let property = |word: Seq<char>| !is_option(word);
    lemma_filter_one("HEAD"@, property);
    lemma_filter_one("--short"@, property);
    lemma_filter_two("--short"@, "HEAD"@, property);
    if short {
        assert(args =~= seq!["--short"@, "HEAD"@]);
        assert(args[0] == "--short"@);
        assert(args.contains("--short"@));
        assert(Seq::<Seq<char>>::empty() + seq!["HEAD"@] =~= seq!["HEAD"@]);
    } else {
        assert(args =~= seq!["HEAD"@]);
        assert("HEAD"@.len() != "--short"@.len());
        assert(!args.contains("--short"@));
    }
    lemma_first_none(args, |word: Seq<char>| is_option(word) && !allowed.contains(word));
}

proof fn lemma_check_ignore<E>(paths: Words)
    requires
        all_plain(paths),
        paths.len() > 0,
    ensures
        inspects::<E>(
            spelled(CommandView::CheckIgnore { paths }),
            CommandView::CheckIgnore { paths },
        ),
{
    lemma_names();
    reveal_strlit("--");
    let words = spelled(CommandView::CheckIgnore { paths });
    let args = words.skip(1);
    assert(args =~= paths);
    assert forall|i: int| 0 <= i < paths.len() implies #[trigger] paths[i] != "--"@ && !is_option(
        paths[i],
    ) by {
        assert(plain(paths[i]));
    }
    lemma_first_none(args, |word: Seq<char>| word != "--"@ && is_option(word));
    lemma_filter_all(args, |word: Seq<char>| word != "--"@);
}

proof fn lemma_single_changes<E>(command: CommandView, now_seconds: i64, author: Seq<char>)
    requires
        can_be_spelled(command, now_seconds),
        command is Branch || command is Merge || command is MergeContinue || command is MergeAbort
            || command is Rebase || command is CherryPick || command is Revert
            || command is StashPush || command is StashPop || command is Bisect,
    ensures
        changes::<E>(spelled(command), now_seconds, author, command),
{
    lemma_names();
    reveal_strlit("--continue");
    reveal_strlit("--abort");
    reveal_strlit("push");
    reveal_strlit("pop");
    let words = spelled(command);
    let args = words.skip(1);
    let none = Seq::<Seq<char>>::empty();
    match command {
        CommandView::Branch { create } => {
            assert(args =~= optional(create));
            if create is Some {
                assert(plain(optional(create)[0]));
            }
        },
        CommandView::Merge { branch } => {
            assert(args =~= seq![branch]);
            assert(args[0] == branch);
            if args == seq!["--continue"@] {
                assert(seq!["--continue"@][0] == branch);
            }
            if args == seq!["--abort"@] {
                assert(seq!["--abort"@][0] == branch);
            }
        },
        CommandView::MergeContinue => {
            assert(args =~= seq!["--continue"@]);
        },
        CommandView::MergeAbort => {
            assert(args =~= seq!["--abort"@]);
            assert(args[0] == "--abort"@);
            if args == seq!["--continue"@] {
                assert(seq!["--continue"@][0] == "--abort"@);
            }
        },
        CommandView::Rebase { branch } => {
            assert(args =~= seq![branch]);
        },
        CommandView::CherryPick { object } => {
            assert(args =~= seq![object]);
        },
        CommandView::Revert { object } => {
            assert(args =~= seq![object]);
        },
        CommandView::StashPush => {
            assert(args =~= none);
        },
        CommandView::StashPop => {
            assert(args =~= seq!["pop"@]);
        },
        CommandView::Bisect { arguments } => {
            assert(args =~= arguments);
        },
        _ => {},
    }
}

proof fn lemma_add<E>(paths: Words, now_seconds: i64, author: Seq<char>)
    ensures
        changes::<E>(
            spelled(CommandView::Add { paths }),
            now_seconds,
            author,
            CommandView::Add { paths },
        ),
{
    lemma_names();
    lemma_add_words::<E>(paths);
}

proof fn lemma_add_words<E>(paths: Words)
    ensures
        super::argv::add_command::<E>(spelled(CommandView::Add { paths }).skip(1)) == Ok::<
            CommandView,
            CompatErrorView<E>,
        >(CommandView::Add { paths }),
{
    reveal_strlit("-A");
    reveal_strlit("--");
    let words = spelled(CommandView::Add { paths });
    let args = words.skip(1);
    assert(args =~= seq!["-A"@, "--"@] + paths);
    assert(args[0] == "-A"@);
    assert(args[1] == "--"@);
    assert("-A"@[1] != "--"@[1]);
    lemma_first_index(args, "--"@, 0);
    let end = first_index(args, "--"@, 0);
    assert(args.contains("--"@));
    assert(end == 1) by {
        if end > 1 {
            assert(args[1] != "--"@);
        }
    }
    let before = args.take(end);
    let staging = seq!["-A"@, "--all"@, "-u"@, "--update"@];
    assert(before =~= seq!["-A"@]);
    assert(staging[0] == "-A"@);
    assert(staging.contains("-A"@));
    lemma_first_none(before, |word: Seq<char>| is_option(word) && !staging.contains(word));
    lemma_filter_one("-A"@, |word: Seq<char>| !is_option(word));
    assert(args.skip(end + 1) =~= paths);
    assert(Seq::<Seq<char>>::empty() + paths =~= paths);
    let property = |word: Seq<char>| staging.contains(word);
    assert(property(before[0]));
    assert(any_word(before, property));
}

proof fn lemma_commit<E>(
    message: Seq<char>,
    given: Seq<char>,
    now_seconds: i64,
    author: Seq<char>,
)
    ensures
        ({
            let command = CommandView::Commit {
                message,
                author: given,
                authored_at_seconds: now_seconds,
            };
            changes::<E>(spelled(command), now_seconds, author, command)
        }),
{
    lemma_names();
    reveal_strlit("-m");
    reveal_strlit("--message");
    reveal_strlit("--author");
    let command = CommandView::Commit { message, author: given, authored_at_seconds: now_seconds };
    let args = spelled(command).skip(1);
    assert(args =~= seq!["-m"@, message, "--author"@, given]);
    assert forall|i: int| 0 <= i < "-m"@.len() implies #[trigger] "-m"@[i] != '=' by {
        assert(i == 0 || i == 1);
    }
    assert forall|i: int| 0 <= i < "--author"@.len() implies #[trigger] "--author"@[i] != '=' by {
        assert(i == 0 || i == 1 || i == 2 || i == 3 || i == 4 || i == 5 || i == 6 || i == 7);
    }
    lemma_no_inline("-m"@);
    lemma_no_inline("--author"@);
    let rest = args.skip(2);
    assert(rest =~= seq!["--author"@, given]);
    let none = rest.skip(2);
    assert(none =~= Seq::empty());
    assert(commit_options::<E>(none, Some(message), given) == Ok::<
        (Option<Seq<char>>, Seq<char>),
        CompatErrorView<E>,
    >((Some(message), given)));
    assert(rest[0] == "--author"@);
    assert(commit_options::<E>(rest, Some(message), author) == Ok::<
        (Option<Seq<char>>, Seq<char>),
        CompatErrorView<E>,
    >((Some(message), given)));
    assert(args[0] == "-m"@);
    assert(commit_options::<E>(args, None, author) == Ok::<
        (Option<Seq<char>>, Seq<char>),
        CompatErrorView<E>,
    >((Some(message), given)));
}

proof fn lemma_switch<E>(branch: Seq<char>, create: bool, now_seconds: i64, author: Seq<char>)
    requires
        plain(branch),
    ensures
        changes::<E>(
            spelled(CommandView::Switch { branch, create }),
            now_seconds,
            author,
            CommandView::Switch { branch, create },
        ),
{
    lemma_names();
    lemma_switch_words::<E>(branch, create);
}

proof fn lemma_switch_words<E>(branch: Seq<char>, create: bool)
    requires
        plain(branch),
    ensures
        super::argv::switch_command::<E>(
            "switch"@,
            spelled(CommandView::Switch { branch, create }).skip(1),
            "-c"@,
        ) == Ok::<CommandView, CompatErrorView<E>>(CommandView::Switch { branch, create }),
{
    reveal_strlit("-c");
    let args = spelled(CommandView::Switch { branch, create }).skip(1);
    let allowed = seq!["-c"@];
    assert(allowed[0] == "-c"@);
    assert(allowed.contains("-c"@));
    assert(!allowed.contains(branch)) by {
        if allowed.contains(branch) {
            let i = allowed.index_of(branch);
            assert(allowed[i] == "-c"@);
        }
    }
    let others = |word: Seq<char>| !allowed.contains(word);
    let creating = |word: Seq<char>| allowed.contains(word);
    lemma_filter_one("-c"@, others);
    lemma_filter_one(branch, others);
    lemma_filter_two("-c"@, branch, others);
    if create {
        assert(args =~= seq!["-c"@, branch]);
        assert(creating(args[0]));
        assert(any_word(args, creating));
        assert(Seq::<Seq<char>>::empty() + seq![branch] =~= seq![branch]);
    } else {
        assert(args =~= seq![branch]);
        assert(!any_word(args, creating));
    }
    lemma_first_none(args, |word: Seq<char>| is_option(word) && !allowed.contains(word));
}

proof fn lemma_restore<E>(
    source: Option<Seq<char>>,
    paths: Words,
    now_seconds: i64,
    author: Seq<char>,
)
    requires
        paths.len() > 0,
    ensures
        changes::<E>(
            spelled(CommandView::Restore { source, paths }),
            now_seconds,
            author,
            CommandView::Restore { source, paths },
        ),
{
    lemma_names();
    reveal_strlit("--source");
    reveal_strlit("--");
    let args = spelled(CommandView::Restore { source, paths }).skip(1);
    let none = Seq::<Seq<char>>::empty();
    let marked = seq!["--"@] + paths;
    assert(marked.skip(1) =~= paths);
    assert(marked[0] == "--"@);
    lemma_restore_rest::<E>(paths, source, none);
    assert(none + paths =~= paths);
    assert(restore_options::<E>(marked, source, none, false) == Ok::<
        (Option<Seq<char>>, Words),
        CompatErrorView<E>,
    >((source, paths)));
    match source {
        None => {
            assert(args =~= marked);
        },
        Some(object) => {
            assert(args =~= seq!["--source"@, object] + marked);
            assert(args[0] == "--source"@);
            assert(args[1] == object);
            assert forall|i: int| 0 <= i < "--source"@.len() implies #[trigger] "--source"@[i]
                != '=' by {
                assert(i == 0 || i == 1 || i == 2 || i == 3 || i == 4 || i == 5 || i == 6 || i
                    == 7);
            }
            lemma_no_inline("--source"@);
            assert(args.skip(2) =~= marked);
            assert(restore_options::<E>(args, None, none, false) == restore_options::<E>(
                marked,
                source,
                none,
                false,
            ));
        },
    }
}

proof fn lemma_reset<E>(target: Seq<char>, mode: GitResetMode, now_seconds: i64, author: Seq<char>)
    requires
        plain(target),
    ensures
        changes::<E>(
            spelled(CommandView::Reset { target, mode }),
            now_seconds,
            author,
            CommandView::Reset { target, mode },
        ),
{
    lemma_names();
    lemma_reset_words::<E>(target, mode);
}

proof fn lemma_reset_words<E>(target: Seq<char>, mode: GitResetMode)
    requires
        plain(target),
    ensures
        super::argv::reset_command::<E>(spelled(CommandView::Reset { target, mode }).skip(1))
            == Ok::<CommandView, CompatErrorView<E>>(CommandView::Reset { target, mode }),
{
    reveal_strlit("--hard");
    reveal_strlit("--soft");
    reveal_strlit("--mixed");
    let word = match mode {
        GitResetMode::Hard => "--hard"@,
        GitResetMode::Soft => "--soft"@,
        GitResetMode::Mixed => "--mixed"@,
    };
    let args = spelled(CommandView::Reset { target, mode }).skip(1);
    let modes = seq!["--hard"@, "--soft"@, "--mixed"@];
    assert(args =~= seq![word, target]);
    assert(args[0] == word && args[1] == target);
    assert(modes[0] == "--hard"@ && modes[1] == "--soft"@ && modes[2] == "--mixed"@);
    assert(modes.contains(word));
    assert("--hard"@[2] != "--soft"@[2]);
    assert("--mixed"@[2] != "--hard"@[2]);
    assert("--mixed"@[2] != "--soft"@[2]);
    assert("--hard"@ != "--soft"@ && "--hard"@ != "--mixed"@ && "--soft"@ != "--mixed"@);
    assert(target != "--hard"@ && target != "--soft"@ && target != "--mixed"@);
    assert(!modes.contains(target)) by {
        if modes.contains(target) {
            let i = modes.index_of(target);
            assert(i == 0 || i == 1 || i == 2);
        }
    }
    let named = |other: Seq<char>| !is_option(other);
    let chosen = |other: Seq<char>| modes.contains(other);
    lemma_filter_one(word, named);
    lemma_filter_one(target, named);
    lemma_filter_two(word, target, named);
    lemma_filter_one(word, chosen);
    lemma_filter_one(target, chosen);
    lemma_filter_two(word, target, chosen);
    assert(Seq::<Seq<char>>::empty() + seq![target] =~= seq![target]);
    assert(args.contains("--hard"@) == (mode == GitResetMode::Hard)) by {
        if args.contains("--hard"@) {
            let i = args.index_of("--hard"@);
            assert(i == 0 || i == 1);
            assert(args[i] == "--hard"@);
        }
        if mode == GitResetMode::Hard {
            assert(args[0] == "--hard"@);
        }
    }
    assert(args.contains("--soft"@) == (mode == GitResetMode::Soft)) by {
        if args.contains("--soft"@) {
            let i = args.index_of("--soft"@);
            assert(i == 0 || i == 1);
            assert(args[i] == "--soft"@);
        }
        if mode == GitResetMode::Soft {
            assert(args[0] == "--soft"@);
        }
    }
    lemma_first_none(args, |other: Seq<char>| is_option(other) && !modes.contains(other));
}

proof fn lemma_tag<E>(
    name: Option<Seq<char>>,
    target: Option<Seq<char>>,
    delete: bool,
    now_seconds: i64,
    author: Seq<char>,
)
    requires
        can_be_spelled(CommandView::Tag { name, target, delete }, now_seconds),
    ensures
        changes::<E>(
            spelled(CommandView::Tag { name, target, delete }),
            now_seconds,
            author,
            CommandView::Tag { name, target, delete },
        ),
{
    lemma_names();
    lemma_tag_words::<E>(name, target, delete, now_seconds);
}

proof fn lemma_no_deletion(word: Seq<char>)
    requires
        plain(word),
    ensures
        !seq!["-d"@, "--delete"@].contains(word),
        !is_option(word),
{
    reveal_strlit("-d");
    reveal_strlit("--delete");
    let allowed = seq!["-d"@, "--delete"@];
    if allowed.contains(word) {
        let i = allowed.index_of(word);
        assert(i == 0 || i == 1);
        assert(allowed[i] == word);
    }
}

proof fn lemma_tag_words<E>(
    name: Option<Seq<char>>,
    target: Option<Seq<char>>,
    delete: bool,
    now_seconds: i64,
)
    requires
        can_be_spelled(CommandView::Tag { name, target, delete }, now_seconds),
    ensures
        super::argv::tag_command::<E>(spelled(CommandView::Tag { name, target, delete }).skip(1))
            == Ok::<CommandView, CompatErrorView<E>>(CommandView::Tag { name, target, delete }),
{
    let args = spelled(CommandView::Tag { name, target, delete }).skip(1);
    if delete {
        assert(plain(optional(name)[0]));
        assert(args =~= seq!["-d"@, name->0]);
        lemma_deletion::<E>(name->0);
    } else {
        let given = optional(name) + optional(target);
        assert(args =~= given);
        assert forall|i: int| 0 <= i < given.len() implies plain(#[trigger] given[i]) by {
            if i < optional(name).len() {
                assert(given[i] == optional(name)[i]);
            } else {
                assert(given[i] == optional(target)[i - optional(name).len()]);
            }
        }
        lemma_creation::<E>(given);
        if name is Some {
            assert(given[0] == name->0);
        }
        if target is Some {
            assert(given[1] == target->0);
        }
    }
}

proof fn lemma_deletion<E>(name: Seq<char>)
    requires
        plain(name),
    ensures
        super::argv::tag_command::<E>(seq!["-d"@, name]) == Ok::<CommandView, CompatErrorView<E>>(
            CommandView::Tag { name: Some(name), target: None, delete: true },
        ),
{
    reveal_strlit("-d");
    let args = seq!["-d"@, name];
    let allowed = seq!["-d"@, "--delete"@];
    let values = |word: Seq<char>| !is_option(word);
    let deleting = |word: Seq<char>| allowed.contains(word);
    assert(allowed[0] == "-d"@);
    assert(allowed.contains("-d"@));
    lemma_no_deletion(name);
    assert(args[0] == "-d"@ && args[1] == name);
    assert(deleting(args[0]));
    assert(any_word(args, deleting));
    lemma_filter_one("-d"@, values);
    lemma_filter_one(name, values);
    lemma_filter_two("-d"@, name, values);
    assert(Seq::<Seq<char>>::empty() + seq![name] =~= seq![name]);
    lemma_first_none(args, |word: Seq<char>| is_option(word) && !allowed.contains(word));
}

proof fn lemma_creation<E>(args: Words)
    requires
        all_plain(args),
        args.len() <= 2,
    ensures
        super::argv::tag_command::<E>(args) == Ok::<CommandView, CompatErrorView<E>>(
            CommandView::Tag {
                name: if args.len() > 0 {
                    Some(args[0])
                } else {
                    None
                },
                target: if args.len() > 1 {
                    Some(args[1])
                } else {
                    None
                },
                delete: false,
            },
        ),
{
    let allowed = seq!["-d"@, "--delete"@];
    let values = |word: Seq<char>| !is_option(word);
    let deleting = |word: Seq<char>| allowed.contains(word);
    assert forall|i: int| 0 <= i < args.len() implies values(#[trigger] args[i]) && !deleting(
        args[i],
    ) by {
        assert(plain(args[i]));
        lemma_no_deletion(args[i]);
    }
    lemma_filter_all(args, values);
    assert(!any_word(args, deleting));
    lemma_first_none(args, |word: Seq<char>| is_option(word) && !allowed.contains(word));
}

proof fn lemma_clean<E>(dry_run: bool, now_seconds: i64, author: Seq<char>)
    ensures
        changes::<E>(
            spelled(CommandView::Clean { dry_run }),
            now_seconds,
            author,
            CommandView::Clean { dry_run },
        ),
{
    lemma_names();
    lemma_clean_words::<E>(dry_run);
}

proof fn lemma_clean_words<E>(dry_run: bool)
    ensures
        super::argv::clean_command::<E>(spelled(CommandView::Clean { dry_run }).skip(1)) == Ok::<
            CommandView,
            CompatErrorView<E>,
        >(CommandView::Clean { dry_run }),
{
    reveal_strlit("-n");
    reveal_strlit("--dry-run");
    reveal_strlit("-f");
    reveal_strlit("--force");
    let args = spelled(CommandView::Clean { dry_run }).skip(1);
    let dry = seq!["-n"@, "--dry-run"@];
    let forced = seq!["-f"@, "--force"@];
    let allowed = dry + forced;
    let word = if dry_run {
        "-n"@
    } else {
        "-f"@
    };
    assert(args =~= seq![word]);
    assert(args[0] == word);
    assert(dry[0] == "-n"@ && dry[1] == "--dry-run"@);
    assert(forced[0] == "-f"@);
    assert(allowed[0] == "-n"@ && allowed[2] == "-f"@);
    assert(allowed.contains(word));
    assert(dry.contains("-n"@));
    assert(forced.contains("-f"@));
    let drying = |other: Seq<char>| dry.contains(other);
    let forcing = |other: Seq<char>| forced.contains(other);
    if dry_run {
        assert(drying(args[0]));
        assert(any_word(args, drying));
    } else {
        assert("-f"@[1] != "-n"@[1] && "-f"@.len() != "--dry-run"@.len());
        assert(!dry.contains("-f"@)) by {
            if dry.contains("-f"@) {
                let i = dry.index_of("-f"@);
                assert(i == 0 || i == 1);
            }
        }
        assert(!any_word(args, drying));
        assert(forcing(args[0]));
        assert(any_word(args, forcing));
    }
    lemma_first_none(args, |other: Seq<char>| is_option(other) && !allowed.contains(other));
}

proof fn lemma_spelled_harmless(command: CommandView, now_seconds: i64)
    requires
        can_be_spelled(command, now_seconds),
    ensures
        all_harmless(spelled(command)),
        spelled(command).len() > 0,
{
    lemma_known_words();
    let words = spelled(command);
    match command {
        CommandView::Log { maximum } => {
            lemma_log::<()>(maximum);
            assert(seq![decimal(maximum as nat)][0] == decimal(maximum as nat));
        },
        CommandView::Show { object } => {
            lemma_joined_harmless(seq!["show"@], optional(object));
        },
        CommandView::Add { paths } => {
            lemma_joined_harmless(seq!["add"@, "-A"@, "--"@], paths);
        },
        CommandView::Branch { create } => {
            lemma_joined_harmless(seq!["branch"@], optional(create));
        },
        CommandView::Restore { source, paths } => {
            if let Some(object) = source {
                assert(harmless(optional(source)[0]));
                lemma_joined_harmless(seq!["restore"@, "--source"@, object, "--"@], paths);
            } else {
                lemma_joined_harmless(seq!["restore"@, "--"@], paths);
            }
        },
        CommandView::Tag { name, target, delete } => {
            if delete {
                assert(plain(optional(name)[0]));
            } else {
                lemma_joined_harmless(seq!["tag"@], optional(name));
                lemma_joined_harmless(seq!["tag"@] + optional(name), optional(target));
            }
        },
        CommandView::Grep { pattern, path } => {
            lemma_joined_harmless(seq!["grep"@, pattern], optional(path));
        },
        CommandView::Archive { object } => {
            lemma_joined_harmless(seq!["archive"@], optional(object));
        },
        CommandView::Bisect { arguments } => {
            lemma_joined_harmless(seq!["bisect"@], arguments);
        },
        CommandView::CheckIgnore { paths } => {
            lemma_joined_harmless(seq!["check-ignore"@], paths);
        },
        _ => {},
    }
}

proof fn lemma_joined_harmless(a: Words, b: Words)
    requires
        all_harmless(a),
        all_harmless(b) || all_plain(b),
    ensures
        all_harmless(a + b),
{
    assert forall|i: int| 0 <= i < (a + b).len() implies harmless(#[trigger] (a + b)[i]) by {
        if i < a.len() {
            assert((a + b)[i] == a[i]);
        } else {
            assert((a + b)[i] == b[i - a.len()]);
            assert(all_plain(b) ==> plain(b[i - a.len()]));
        }
    }
}

/// A command that is spelled out is read back, whatever its names, paths and texts.
pub proof fn spelled_commands_read_back<E>(
    command: CommandView,
    default_author: Seq<char>,
    now_seconds: i64,
)
    requires
        can_be_spelled(command, now_seconds),
    ensures
        parsed_command::<E>(spelled(command), default_author, now_seconds) == Ok::<
            CommandView,
            CompatErrorView<E>,
        >(command),
{
    let words = spelled(command);
    lemma_spelled_harmless(command, now_seconds);
    lemma_nothing_composed(words);
    match command {
        CommandView::Diff { cached } => lemma_diff::<E>(cached),
        CommandView::Log { maximum } => lemma_log::<E>(maximum),
        CommandView::SymbolicRef { short } => lemma_symbolic_ref::<E>(short),
        CommandView::CheckIgnore { paths } => lemma_check_ignore::<E>(paths),
        CommandView::Add { paths } => lemma_add::<E>(paths, now_seconds, default_author),
        CommandView::Commit { message, author, .. } => lemma_commit::<E>(
            message,
            author,
            now_seconds,
            default_author,
        ),
        CommandView::Switch { branch, create } => lemma_switch::<E>(
            branch,
            create,
            now_seconds,
            default_author,
        ),
        CommandView::Restore { source, paths } => lemma_restore::<E>(
            source,
            paths,
            now_seconds,
            default_author,
        ),
        CommandView::Reset { target, mode } => lemma_reset::<E>(
            target,
            mode,
            now_seconds,
            default_author,
        ),
        CommandView::Tag { name, target, delete } => lemma_tag::<E>(
            name,
            target,
            delete,
            now_seconds,
            default_author,
        ),
        CommandView::Clean { dry_run } => lemma_clean::<E>(dry_run, now_seconds, default_author),
        CommandView::Status
        | CommandView::LsFiles
        | CommandView::Show { .. }
        | CommandView::Blame { .. }
        | CommandView::Grep { .. }
        | CommandView::Archive { .. }
        | CommandView::RevParse { .. }
        | CommandView::MergeBase { .. } => lemma_plain_inspections::<E>(command, now_seconds),
        _ => lemma_single_changes::<E>(command, now_seconds, default_author),
    }
}

proof fn lemma_first_found(words: Words, property: spec_fn(Seq<char>) -> bool, at: int)
    requires
        0 <= at < words.len(),
        property(words[at]),
    ensures
        first_where(words, property) is Some,
    decreases words.len(),
{
    if !property(words[0]) {
        assert(words.skip(1)[at - 1] == words[at]);
        lemma_first_found(words.skip(1), property, at - 1);
    }
}

/// A line with a word that composes commands, redirects them or substitutes one is refused,
/// whatever else it says.
pub proof fn shell_words_are_refused<E>(
    words: Words,
    default_author: Seq<char>,
    now_seconds: i64,
    at: int,
)
    requires
        0 <= at < words.len(),
        words[at] == seq!['&', '&'] || words[at] == seq!['|', '|'] || words[at] == seq![';']
            || words[at] == seq!['|'] || words[at] == seq!['&'] || words[at].contains('`') || (
        words[at].len() > 0 && (words[at][0] == '>' || words[at][0] == '<')) || exists|i: int|
            0 <= i < words[at].len() - 1 && #[trigger] words[at][i] == '$' && words[at][i + 1]
                == '(',
    ensures
        parsed_command::<E>(words, default_author, now_seconds) matches Err(
            CompatErrorView::Unsupported { .. },
        ),
{
    reveal_strlit("&&");
    reveal_strlit("||");
    reveal_strlit(";");
    reveal_strlit("|");
    reveal_strlit("&");
    reveal_strlit("$(");
    let word = words[at];
    assert("&&"@ =~= seq!['&', '&']);
    assert("||"@ =~= seq!['|', '|']);
    assert(";"@ =~= seq![';']);
    assert("|"@ =~= seq!['|']);
    assert("&"@ =~= seq!['&']);
    if exists|i: int|
        0 <= i < word.len() - 1 && #[trigger] word[i] == '$' && word[i + 1] == '(' {
        let i = choose|i: int|
            0 <= i < word.len() - 1 && #[trigger] word[i] == '$' && word[i + 1] == '(';
        assert(word.subrange(i, i + 2) =~= "$("@);
        assert(occurs_at(word, "$("@, i));
    }
    let property = |word: Seq<char>| composes(word);
    assert(property(words[at]));
    lemma_first_found(words, property, at);
}

} // verus!
