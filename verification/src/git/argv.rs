//! Command lines of the compatibility layer.
//!
//! [`parse_argv`] accepts the words that follow the umbrella command and
//! yields one typed command. Everything that the typed commands cannot
//! represent is refused with a stable message.

use super::types::{
    CommandView, CompatErrorView, GitCommand, GitCompatError, GitObjectName, GitResetMode,
};
use crate::order::{views, Replicate};
use crate::text::{
    begins, begins_with, chars_of, find_char, first_index, has_char, has_part, has_prefix,
    occurs, parse_unsigned, text_between, text_is, text_pair, text_triple, unsigned_number,
};
use vstd::prelude::*;
use vstd::slice::slice_subrange;
use vstd::string::*;
use vstd::utf8::encode_utf8;

verus! {

/// Words of a command line.
pub type Words = Seq<Seq<char>>;

/// A word that looks like an option.
pub open spec fn is_option(word: Seq<char>) -> bool {
    begins(word, '-')
}

/// The first word with a property.
pub open spec fn first_where(words: Words, property: spec_fn(Seq<char>) -> bool) -> Option<
    Seq<char>,
>
    decreases words.len(),
{
    if words.len() == 0 {
        None
    } else if property(words[0]) {
        Some(words[0])
    } else {
        first_where(words.skip(1), property)
    }
}

/// Whether some word has a property.
pub open spec fn any_word(words: Words, property: spec_fn(Seq<char>) -> bool) -> bool {
    exists|i: int| 0 <= i < words.len() && property(#[trigger] words[i])
}

/// A word that a shell would take as composition.
pub open spec fn composes(word: Seq<char>) -> bool {
    ||| word == "&&"@
    ||| word == "||"@
    ||| word == ";"@
    ||| word == "|"@
    ||| word == "&"@
    ||| begins(word, '>')
    ||| begins(word, '<')
    ||| word.contains('`')
    ||| occurs(word, "$("@)
}

/// The failure for an option that has no typed form.
pub open spec fn option_refused<E>(command: Seq<char>, argument: Seq<char>) -> CompatErrorView<E> {
    CompatErrorView::Unsupported {
        command,
        reason: "option '"@ + argument + "' cannot be represented by the compatibility façade"@,
    }
}

/// The failure for words that are options outside `allowed`.
pub open spec fn options_problem<E>(command: Seq<char>, args: Words, allowed: Words) -> Option<
    CompatErrorView<E>,
> {
    match first_where(args, |word: Seq<char>| is_option(word) && !allowed.contains(word)) {
        Some(word) => Some(option_refused(command, word)),
        None => None,
    }
}

/// The failure for words that are not options within `allowed`.
pub open spec fn only_options_problem<E>(
    command: Seq<char>,
    args: Words,
    allowed: Words,
) -> Option<CompatErrorView<E>> {
    match options_problem::<E>(command, args, allowed) {
        Some(problem) => Some(problem),
        None => if any_word(args, |word: Seq<char>| !is_option(word)) {
            Some(
                CompatErrorView::InvalidCommand(
                    command + " does not accept positional arguments"@,
                ),
            )
        } else {
            None
        },
    }
}

/// At most one word, which is no option.
pub open spec fn single_value<E>(command: Seq<char>, args: Words) -> Result<
    Option<Seq<char>>,
    CompatErrorView<E>,
> {
    if args.len() == 0 {
        Ok(None)
    } else if args.len() == 1 {
        if is_option(args[0]) {
            Err(option_refused(command, args[0]))
        } else {
            Ok(Some(args[0]))
        }
    } else {
        Err(CompatErrorView::InvalidCommand(command + " accepts at most one argument"@))
    }
}

/// Exactly one word, which is no option.
pub open spec fn one_value<E>(command: Seq<char>, values: Words) -> Result<
    Seq<char>,
    CompatErrorView<E>,
> {
    if values.len() == 1 {
        if is_option(values[0]) {
            Err(option_refused(command, values[0]))
        } else {
            Ok(values[0])
        }
    } else {
        Err(CompatErrorView::InvalidCommand(command + " requires exactly one argument"@))
    }
}

/// The name and inline value of a word such as `--name=value`.
pub open spec fn long_option(word: Seq<char>) -> (Seq<char>, Option<Seq<char>>) {
    let at = first_index(word, '=', 0);
    if at < word.len() {
        (word.take(at), Some(word.skip(at + 1)))
    } else {
        (word, None)
    }
}

/// The number of commits that `log` shows.
pub open spec fn log_maximum<E>(args: Words) -> Result<u32, CompatErrorView<E>> {
    let value: Result<Seq<char>, CompatErrorView<E>> = if args.len() == 2 && (args[0] == "-n"@
        || args[0] == "--max-count"@) {
        Ok(args[1])
    } else if args.len() == 1 && "--max-count="@.is_prefix_of(args[0]) {
        Ok(
            match long_option(args[0]).1 {
                Some(inline) => inline,
                None => Seq::empty(),
            },
        )
    } else if args.len() == 1 && encode_utf8(args[0]).len() > 1 {
        if is_option(args[0]) {
            Ok(args[0].skip(1))
        } else {
            Err(CompatErrorView::InvalidCommand("invalid log count"@))
        }
    } else if args.len() == 1 {
        Err(option_refused("log"@, args[0]))
    } else {
        Err(
            CompatErrorView::InvalidCommand(
                "log accepts only -n <count>, -<count>, or --max-count=<count>"@,
            ),
        )
    };
    if args.len() == 0 {
        Ok(100)
    } else {
        match value {
            Err(problem) => Err(problem),
            Ok(digits) => match unsigned_number(digits, u32::MAX as nat) {
                Some(number) => Ok(number as u32),
                None => Err(
                    CompatErrorView::InvalidCommand("log count must be an unsigned 32-bit integer"@),
                ),
            },
        }
    }
}

/// What `add` stages: options stand before the first `--`, paths anywhere else.
pub open spec fn add_command<E>(args: Words) -> Result<CommandView, CompatErrorView<E>> {
    let end = first_index(args, "--"@, 0);
    let before = args.take(end);
    let after = if end < args.len() {
        args.skip(end + 1)
    } else {
        Seq::empty()
    };
    let staging = seq!["-A"@, "--all"@, "-u"@, "--update"@];
    let paths = before.filter(|word: Seq<char>| !is_option(word)) + after;
    if args.len() == 0 {
        Err(CompatErrorView::InvalidCommand("add requires a path or -A/--all"@))
    } else {
        match options_problem::<E>("add"@, before, staging) {
            Some(problem) => Err(problem),
            None => if paths.len() == 0 && !any_word(
                before,
                |word: Seq<char>| staging.contains(word),
            ) {
                Err(CompatErrorView::InvalidCommand("add requires a path or -A/--all"@))
            } else {
                Ok(CommandView::Add { paths })
            },
        }
    }
}

/// The value of an option, inline or in the next word.
pub open spec fn option_value(args: Words) -> Option<Seq<char>> {
    match long_option(args[0]).1 {
        Some(inline) => Some(inline),
        None => if args.len() > 1 {
            Some(args[1])
        } else {
            None
        },
    }
}

/// The words after an option and its value.
pub open spec fn after_option(args: Words) -> Words {
    if long_option(args[0]).1 is Some || args.len() == 1 {
        args.skip(1)
    } else {
        args.skip(2)
    }
}

/// Message and author of `commit`, given those read so far.
pub open spec fn commit_options<E>(
    args: Words,
    message: Option<Seq<char>>,
    author: Seq<char>,
) -> Result<(Option<Seq<char>>, Seq<char>), CompatErrorView<E>>
    decreases args.len(),
{
    if args.len() == 0 {
        Ok((message, author))
    } else {
        let name = long_option(args[0]).0;
        if name == "-m"@ || name == "--message"@ {
            match option_value(args) {
                None => Err(CompatErrorView::InvalidCommand("commit requires a message after -m"@)),
                Some(value) => if message is Some {
                    Err(
                        CompatErrorView::InvalidCommand(
                            "multiple commit messages are not supported"@,
                        ),
                    )
                } else {
                    commit_options(after_option(args), Some(value), author)
                },
            }
        } else if name == "--author"@ {
            match option_value(args) {
                None => Err(
                    CompatErrorView::InvalidCommand("commit requires an author after --author"@),
                ),
                Some(value) => commit_options(after_option(args), message, value),
            }
        } else {
            Err(option_refused("commit"@, args[0]))
        }
    }
}

/// Source and paths of `restore`, given those read so far.
pub open spec fn restore_options<E>(
    args: Words,
    source: Option<Seq<char>>,
    paths: Words,
    ended: bool,
) -> Result<(Option<Seq<char>>, Words), CompatErrorView<E>>
    decreases args.len(),
{
    if args.len() == 0 {
        Ok((source, paths))
    } else if ended {
        restore_options(args.skip(1), source, paths.push(args[0]), ended)
    } else if args[0] == "--"@ {
        restore_options(args.skip(1), source, paths, true)
    } else if long_option(args[0]).0 == "--source"@ {
        match option_value(args) {
            None => Err(
                CompatErrorView::InvalidCommand("restore requires an object after --source"@),
            ),
            Some(value) => if source is Some {
                Err(CompatErrorView::InvalidCommand("restore accepts only one --source"@))
            } else {
                restore_options(after_option(args), Some(value), paths, ended)
            },
        }
    } else if is_option(args[0]) {
        Err(option_refused("restore"@, args[0]))
    } else {
        restore_options(args.skip(1), source, paths.push(args[0]), ended)
    }
}

/// A branch switch, with one option that creates the branch.
pub open spec fn switch_command<E>(
    command: Seq<char>,
    args: Words,
    creating: Seq<char>,
) -> Result<CommandView, CompatErrorView<E>> {
    let allowed = seq![creating];
    match options_problem::<E>(command, args, allowed) {
        Some(problem) => Err(problem),
        None => match one_value::<E>(
            command,
            args.filter(|word: Seq<char>| !allowed.contains(word)),
        ) {
            Err(problem) => Err(problem),
            Ok(branch) => Ok(
                CommandView::Switch {
                    branch,
                    create: any_word(args, |word: Seq<char>| allowed.contains(word)),
                },
            ),
        },
    }
}

/// A checkout: paths from at most one object where `--` occurs, else a branch
/// switch.
pub open spec fn checkout_command<E>(args: Words) -> Result<CommandView, CompatErrorView<E>> {
    let separator = first_index(args, "--"@, 0);
    if separator < args.len() {
        if separator > 1 {
            Err(
                CompatErrorView::InvalidCommand(
                    "checkout path restoration accepts at most one source object"@,
                ),
            )
        } else if separator + 1 == args.len() {
            Err(CompatErrorView::InvalidCommand("checkout -- requires at least one path"@))
        } else {
            Ok(
                CommandView::Restore {
                    source: if separator == 0 {
                        None
                    } else {
                        Some(args[0])
                    },
                    paths: args.skip(separator + 1),
                },
            )
        }
    } else {
        switch_command("checkout"@, args, "-b"@)
    }
}

/// A reset with at most one mode and at most one target.
pub open spec fn reset_command<E>(args: Words) -> Result<CommandView, CompatErrorView<E>> {
    let modes = seq!["--hard"@, "--soft"@, "--mixed"@];
    let targets = args.filter(|word: Seq<char>| !is_option(word));
    match options_problem::<E>("reset"@, args, modes) {
        Some(problem) => Err(problem),
        None => if args.filter(|word: Seq<char>| modes.contains(word)).len() > 1 {
            Err(CompatErrorView::InvalidCommand("reset accepts only one mode"@))
        } else if targets.len() > 1 {
            Err(
                CompatErrorView::InvalidCommand(
                    "reset accepts only one target; path reset is not supported"@,
                ),
            )
        } else {
            Ok(
                CommandView::Reset {
                    target: if targets.len() == 0 {
                        "HEAD"@
                    } else {
                        targets[0]
                    },
                    mode: if args.contains("--hard"@) {
                        GitResetMode::Hard
                    } else if args.contains("--soft"@) {
                        GitResetMode::Soft
                    } else {
                        GitResetMode::Mixed
                    },
                },
            )
        },
    }
}

/// A stash operation.
pub open spec fn stash_command<E>(args: Words) -> Result<CommandView, CompatErrorView<E>> {
    if args.len() == 0 {
        Ok(CommandView::StashPush)
    } else if args.len() == 1 {
        if args[0] == "push"@ {
            Ok(CommandView::StashPush)
        } else if args[0] == "pop"@ {
            Ok(CommandView::StashPop)
        } else {
            Err(
                CompatErrorView::InvalidCommand("unsupported stash operation '"@ + args[0] + "'"@),
            )
        }
    } else {
        Err(CompatErrorView::InvalidCommand("stash accepts only push or pop"@))
    }
}

/// A tag listing, creation or deletion.
pub open spec fn tag_command<E>(args: Words) -> Result<CommandView, CompatErrorView<E>> {
    let allowed = seq!["-d"@, "--delete"@];
    let delete = any_word(args, |word: Seq<char>| allowed.contains(word));
    let values = args.filter(|word: Seq<char>| !is_option(word));
    match options_problem::<E>("tag"@, args, allowed) {
        Some(problem) => Err(problem),
        None => if values.len() > 2 || (delete && values.len() != 1) {
            Err(
                CompatErrorView::InvalidCommand("tag accepts [name [target]] or --delete name"@),
            )
        } else {
            Ok(
                CommandView::Tag {
                    name: if values.len() > 0 {
                        Some(values[0])
                    } else {
                        None
                    },
                    target: if values.len() > 1 {
                        Some(values[1])
                    } else {
                        None
                    },
                    delete,
                },
            )
        },
    }
}

/// A literal search.
pub open spec fn grep_command<E>(args: Words) -> Result<CommandView, CompatErrorView<E>> {
    if args.len() == 1 {
        Ok(CommandView::Grep { pattern: args[0], path: None })
    } else if args.len() == 2 {
        Ok(CommandView::Grep { pattern: args[0], path: Some(args[1]) })
    } else {
        Err(CompatErrorView::InvalidCommand("grep requires a pattern and at most one path"@))
    }
}

/// A clean, which deletes only when forced.
pub open spec fn clean_command<E>(args: Words) -> Result<CommandView, CompatErrorView<E>> {
    let dry = seq!["-n"@, "--dry-run"@];
    let forced = seq!["-f"@, "--force"@];
    match only_options_problem::<E>("clean"@, args, dry + forced) {
        Some(problem) => Err(problem),
        None => {
            let dry_run = any_word(args, |word: Seq<char>| dry.contains(word));
            if !dry_run && !any_word(args, |word: Seq<char>| forced.contains(word)) {
                Err(
                    CompatErrorView::InvalidCommand(
                        "clean requires -f or --force unless --dry-run is used"@,
                    ),
                )
            } else {
                Ok(CommandView::Clean { dry_run })
            }
        },
    }
}

/// A read-only probe of one revision.
pub open spec fn rev_parse_command<E>(args: Words) -> Result<CommandView, CompatErrorView<E>> {
    if args.len() == 1 && (args[0] == "--is-inside-work-tree"@ || args[0] == "HEAD"@) {
        Ok(CommandView::RevParse { argument: args[0] })
    } else if args.len() == 2 && args[1] == "HEAD"@ && (args[0] == "--abbrev-ref"@ || args[0]
        == "--symbolic-full-name"@) {
        Ok(CommandView::RevParse { argument: args[0] + " HEAD"@ })
    } else if args.len() == 1 && !is_option(args[0]) {
        Ok(CommandView::RevParse { argument: args[0] })
    } else {
        Err(
            CompatErrorView::InvalidCommand(
                "rev-parse supports HEAD, one object, --is-inside-work-tree, --abbrev-ref HEAD, or --symbolic-full-name HEAD"@,
            ),
        )
    }
}

/// A probe of the symbolic HEAD.
pub open spec fn symbolic_ref_command<E>(args: Words) -> Result<CommandView, CompatErrorView<E>> {
    let allowed = seq!["--short"@];
    match options_problem::<E>("symbolic-ref"@, args, allowed) {
        Some(problem) => Err(problem),
        None => if args.filter(|word: Seq<char>| !is_option(word)) != seq!["HEAD"@] {
            Err(CompatErrorView::InvalidCommand("symbolic-ref supports only HEAD"@))
        } else {
            Ok(CommandView::SymbolicRef { short: args.contains("--short"@) })
        },
    }
}

/// Paths to test against the ignore policy; `--` is skipped wherever it stands.
pub open spec fn check_ignore_command<E>(args: Words) -> Result<CommandView, CompatErrorView<E>> {
    match first_where(args, |word: Seq<char>| word != "--"@ && is_option(word)) {
        Some(word) => Err(option_refused("check-ignore"@, word)),
        None => {
            let paths = args.filter(|word: Seq<char>| word != "--"@);
            if paths.len() == 0 {
                Err(CompatErrorView::InvalidCommand("check-ignore requires at least one path"@))
            } else {
                Ok(CommandView::CheckIgnore { paths })
            }
        },
    }
}

/// Commands that need an object database or a transport.
pub open spec fn unavailable(command: Seq<char>) -> bool {
    ||| command == "clone"@
    ||| command == "fetch"@
    ||| command == "pull"@
    ||| command == "push"@
    ||| command == "remote"@
    ||| command == "gc"@
    ||| command == "repack"@
    ||| command == "cat-file"@
    ||| command == "hash-object"@
    ||| command == "init"@
    ||| command == "fsck"@
    ||| command == "prune"@
    ||| command == "pack-objects"@
    ||| command == "index-pack"@
    ||| command == "receive-pack"@
    ||| command == "upload-pack"@
    ||| command == "read-tree"@
    ||| command == "write-tree"@
    ||| command == "commit-tree"@
    ||| command == "update-index"@
    ||| command == "worktree"@
    ||| command == "submodule"@
}

/// The command that an inspection subcommand and its words spell, if it is one.
pub open spec fn inspection_command<E>(command: Seq<char>, args: Words) -> Option<
    Result<CommandView, CompatErrorView<E>>,
> {
    if command == "status"@ {
        Some(
            match only_options_problem::<E>(
                command,
                args,
                seq!["--short"@, "--porcelain"@, "--porcelain=v1"@],
            ) {
                Some(problem) => Err(problem),
                None => Ok(CommandView::Status),
            },
        )
    } else if command == "diff"@ {
        Some(
            match only_options_problem::<E>(command, args, seq!["--cached"@, "--staged"@]) {
                Some(problem) => Err(problem),
                None => Ok(
                    CommandView::Diff {
                        cached: args.contains("--cached"@) || args.contains("--staged"@),
                    },
                ),
            },
        )
    } else if command == "log"@ {
        Some(
            match log_maximum::<E>(args) {
                Err(problem) => Err(problem),
                Ok(maximum) => Ok(CommandView::Log { maximum }),
            },
        )
    } else if command == "show"@ {
        Some(
            match single_value::<E>(command, args) {
                Err(problem) => Err(problem),
                Ok(object) => Ok(CommandView::Show { object }),
            },
        )
    } else if command == "blame"@ {
        Some(
            match one_value::<E>(command, args) {
                Err(problem) => Err(problem),
                Ok(path) => Ok(CommandView::Blame { path }),
            },
        )
    } else if command == "grep"@ {
        Some(grep_command(args))
    } else if command == "archive"@ {
        Some(
            match single_value::<E>(command, args) {
                Err(problem) => Err(problem),
                Ok(object) => Ok(CommandView::Archive { object }),
            },
        )
    } else if command == "rev-parse"@ {
        Some(rev_parse_command(args))
    } else if command == "symbolic-ref"@ {
        Some(symbolic_ref_command(args))
    } else if command == "merge-base"@ {
        Some(
            if args.len() == 2 {
                Ok(CommandView::MergeBase { left: args[0], right: args[1] })
            } else {
                Err(CompatErrorView::InvalidCommand("merge-base requires exactly two objects"@))
            },
        )
    } else if command == "ls-files"@ {
        Some(
            match only_options_problem::<E>(command, args, seq!["--cached"@]) {
                Some(problem) => Err(problem),
                None => Ok(CommandView::LsFiles),
            },
        )
    } else if command == "check-ignore"@ {
        Some(check_ignore_command(args))
    } else {
        None
    }
}

/// The command that a history subcommand and its words spell, if it is one.
pub open spec fn history_command<E>(
    command: Seq<char>,
    args: Words,
    default_author: Seq<char>,
    now_seconds: i64,
) -> Option<Result<CommandView, CompatErrorView<E>>> {
    if command == "add"@ {
        Some(add_command(args))
    } else if command == "commit"@ {
        Some(
            match commit_options::<E>(args, None, default_author) {
                Err(problem) => Err(problem),
                Ok((message, author)) => match message {
                    None => Err(CompatErrorView::InvalidCommand("commit requires -m"@)),
                    Some(message) => Ok(
                        CommandView::Commit { message, author, authored_at_seconds: now_seconds },
                    ),
                },
            },
        )
    } else if command == "branch"@ {
        Some(
            match single_value::<E>(command, args) {
                Err(problem) => Err(problem),
                Ok(create) => Ok(CommandView::Branch { create }),
            },
        )
    } else if command == "switch"@ {
        Some(switch_command(command, args, "-c"@))
    } else if command == "checkout"@ {
        Some(checkout_command(args))
    } else if command == "restore"@ {
        Some(
            match restore_options::<E>(args, None, Seq::empty(), false) {
                Err(problem) => Err(problem),
                Ok((source, paths)) => if paths.len() == 0 {
                    Err(CompatErrorView::InvalidCommand("restore requires at least one path"@))
                } else {
                    Ok(CommandView::Restore { source, paths })
                },
            },
        )
    } else if command == "reset"@ {
        Some(reset_command(args))
    } else if command == "merge"@ && args == seq!["--continue"@] {
        Some(Ok(CommandView::MergeContinue))
    } else if command == "merge"@ && args == seq!["--abort"@] {
        Some(Ok(CommandView::MergeAbort))
    } else if command == "merge"@ || command == "rebase"@ {
        Some(
            match one_value::<E>(command, args) {
                Err(problem) => Err(problem),
                Ok(branch) => if command == "merge"@ {
                    Ok(CommandView::Merge { branch })
                } else {
                    Ok(CommandView::Rebase { branch })
                },
            },
        )
    } else if command == "cherry-pick"@ || command == "revert"@ {
        Some(
            match one_value::<E>(command, args) {
                Err(problem) => Err(problem),
                Ok(object) => if command == "cherry-pick"@ {
                    Ok(CommandView::CherryPick { object })
                } else {
                    Ok(CommandView::Revert { object })
                },
            },
        )
    } else if command == "stash"@ {
        Some(stash_command(args))
    } else if command == "tag"@ {
        Some(tag_command(args))
    } else if command == "clean"@ {
        Some(clean_command(args))
    } else if command == "apply"@ {
        Some(
            Err(
                CompatErrorView::Unsupported {
                    command,
                    reason: "argv cannot safely turn a patch filename into patch bytes; load the file and use the typed Apply command"@,
                },
            ),
        )
    } else if command == "bisect"@ {
        Some(Ok(CommandView::Bisect { arguments: args }))
    } else {
        None
    }
}

/// The command that a command line spells.
pub open spec fn parsed_command<E>(
    argv: Words,
    default_author: Seq<char>,
    now_seconds: i64,
) -> Result<CommandView, CompatErrorView<E>> {
    match first_where(argv, |word: Seq<char>| composes(word)) {
        Some(word) => Err(
            CompatErrorView::Unsupported {
                command: word,
                reason: "shell composition is outside the command-level compatibility façade"@,
            },
        ),
        None => if argv.len() == 0 {
            Err(CompatErrorView::InvalidCommand("missing command"@))
        } else {
            let command = argv[0];
            let args = argv.skip(1);
            match inspection_command::<E>(command, args) {
                Some(outcome) => outcome,
                None => match history_command::<E>(command, args, default_author, now_seconds) {
                    Some(outcome) => outcome,
                    None => if unavailable(command) {
                        Err(
                            CompatErrorView::Unsupported {
                                command,
                                reason: "the compatibility layer has no Git object database or transport"@,
                            },
                        )
                    } else {
                        Err(
                            CompatErrorView::InvalidCommand(
                                "unknown command '"@ + command + "'"@,
                            ),
                        )
                    },
                },
            }
        },
    }
}

/// Abstract value of a parse result.
pub open spec fn outcome<E>(result: Result<GitCommand, GitCompatError<E>>) -> Result<
    CommandView,
    CompatErrorView<E>,
> {
    match result {
        Ok(command) => Ok(command@),
        Err(error) => Err(error@),
    }
}


fn invalid<E>(message: &str) -> (r: GitCompatError<E>)
    ensures
        r@ == CompatErrorView::<E>::InvalidCommand(message@),
{
    GitCompatError::InvalidCommand(message.to_owned())
}

fn unsupported_option<E>(command: &str, argument: &str) -> (r: GitCompatError<E>)
    ensures
        r@ == option_refused::<E>(command@, argument@),
{
    GitCompatError::Unsupported {
        command: command.to_owned(),
        reason: text_triple(
            "option '",
            argument,
            "' cannot be represented by the compatibility façade",
        ),
    }
}

fn option_like(word: &str) -> (r: bool)
    ensures
        r == is_option(word@),
{
    begins_with(word, '-')
}

/// Tells whether a word is one of a list.
fn is_one_of(word: &str, list: &Vec<&str>) -> (r: bool)
    ensures
        r == views(list@).contains(word@),
{
    let mut i: usize = 0;
    while i < list.len()
        invariant
            i <= list@.len(),
            forall|k: int| 0 <= k < i ==> views(list@)[k] != word@,
        decreases list@.len() - i,
    {
        if text_is(list[i], word) {
            assert(views(list@)[i as int] == word@);
            return true;
        }
        i = i + 1;
    }
    false
}

/// Finds the first occurrence of a word, or the length.
fn find_word(args: &[String], word: &str) -> (r: usize)
    ensures
        r == first_index(views(args@), word@, 0),
        r <= args@.len(),
        r < args@.len() ==> args@[r as int]@ == word@,
{
    proof {
        crate::text::lemma_first_index(views(args@), word@, 0);
    }
    let mut i: usize = 0;
    while i < args.len()
        invariant
            i <= args@.len(),
            first_index(views(args@), word@, 0) == first_index(views(args@), word@, i as int),
        decreases args@.len() - i,
    {
        if text_is(args[i].as_str(), word) {
            return i;
        }
        assert(views(args@)[i as int] != word@);
        i = i + 1;
    }
    i
}

fn has_word(args: &[String], word: &str) -> (r: bool)
    ensures
        r == views(args@).contains(word@),
{
    let at = find_word(args, word);
    proof {
        crate::text::lemma_first_index(views(args@), word@, 0);
        if at < args@.len() {
            assert(views(args@)[at as int] == word@);
        }
    }
    at < args.len()
}

/// Copies the words from `from` on.
fn words_from(args: &[String], from: usize) -> (r: Vec<String>)
    requires
        from <= args@.len(),
    ensures
        views(r@) == views(args@).skip(from as int),
{
    let mut r: Vec<String> = Vec::new();
    let mut i: usize = from;
    while i < args.len()
        invariant
            from <= i <= args@.len(),
            views(r@) == views(args@).subrange(from as int, i as int),
        decreases args@.len() - i,
    {
        let ghost before = views(r@);
        r.push(args[i].clone());
        assert(views(r@) =~= before.push(args@[i as int]@));
        assert(views(args@).subrange(from as int, i + 1) =~= views(args@).subrange(
            from as int,
            i as int,
        ).push(views(args@)[i as int]));
        i = i + 1;
    }
    assert(views(args@).subrange(from as int, i as int) =~= views(args@).skip(from as int));
    r
}

proof fn lemma_first_where_step(words: Words, property: spec_fn(Seq<char>) -> bool, i: int)
    requires
        0 <= i < words.len(),
    ensures
        first_where(words.skip(i), property) == if property(words[i]) {
            Some(words[i])
        } else {
            first_where(words.skip(i + 1), property)
        },
{
    assert(words.skip(i)[0] == words[i]);
    assert(words.skip(i).skip(1) =~= words.skip(i + 1));
}

proof fn lemma_filter_step(words: Words, property: spec_fn(Seq<char>) -> bool, i: int)
    requires
        0 <= i < words.len(),
    ensures
        words.take(i + 1).filter(property) == if property(words[i]) {
            words.take(i).filter(property).push(words[i])
        } else {
            words.take(i).filter(property)
        },
{
    let next = words.take(i + 1);
    assert(next.drop_last() =~= words.take(i));
    assert(next.last() == words[i]);
    reveal(Seq::filter);
}

fn require_options<E>(command: &str, args: &[String], allowed: &Vec<&str>) -> (r: Result<
    (),
    GitCompatError<E>,
>)
    ensures
        match r {
            Ok(_) => options_problem::<E>(command@, views(args@), views(allowed@)) is None,
            Err(error) => options_problem::<E>(command@, views(args@), views(allowed@)) == Some(
                error@,
            ),
        },
{
    let ghost words = views(args@);
    let ghost list = views(allowed@);
    let ghost property = |word: Seq<char>| is_option(word) && !list.contains(word);
    let mut i: usize = 0;
    assert(words.skip(0) =~= words);
    while i < args.len()
        invariant
            i <= args@.len(),
            words == views(args@),
            list == views(allowed@),
            property == (|word: Seq<char>| is_option(word) && !list.contains(word)),
            first_where(words, property) == first_where(words.skip(i as int), property),
        decreases args@.len() - i,
    {
        proof {
            lemma_first_where_step(words, property, i as int);
        }
        let word = args[i].as_str();
        if option_like(word) && !is_one_of(word, allowed) {
            return Err(unsupported_option(command, word));
        }
        i = i + 1;
    }
    Ok(())
}

fn all_options(args: &[String]) -> (r: bool)
    ensures
        r == !any_word(views(args@), |word: Seq<char>| !is_option(word)),
{
    let ghost words = views(args@);
    let mut i: usize = 0;
    while i < args.len()
        invariant
            i <= args@.len(),
            words == views(args@),
            forall|k: int| 0 <= k < i ==> is_option(#[trigger] words[k]),
        decreases args@.len() - i,
    {
        if !option_like(args[i].as_str()) {
            assert(!is_option(words[i as int]));
            return false;
        }
        i = i + 1;
    }
    true
}

fn require_only_options<E>(command: &str, args: &[String], allowed: &Vec<&str>) -> (r: Result<
    (),
    GitCompatError<E>,
>)
    ensures
        match r {
            Ok(_) => only_options_problem::<E>(command@, views(args@), views(allowed@)) is None,
            Err(error) => only_options_problem::<E>(command@, views(args@), views(allowed@))
                == Some(error@),
        },
{
    match require_options(command, args, allowed) {
        Err(error) => Err(error),
        Ok(_) => if all_options(args) {
            Ok(())
        } else {
            let message = text_pair(command, " does not accept positional arguments");
            Err(GitCompatError::InvalidCommand(message))
        },
    }
}

/// Tells whether some word is one of a list.
fn mentions(args: &[String], list: &Vec<&str>) -> (r: bool)
    ensures
        r == any_word(views(args@), |word: Seq<char>| views(list@).contains(word)),
{
    let ghost words = views(args@);
    let mut i: usize = 0;
    while i < args.len()
        invariant
            i <= args@.len(),
            words == views(args@),
            forall|k: int| 0 <= k < i ==> !views(list@).contains(#[trigger] words[k]),
        decreases args@.len() - i,
    {
        if is_one_of(args[i].as_str(), list) {
            assert(views(list@).contains(words[i as int]));
            return true;
        }
        i = i + 1;
    }
    false
}

/// Copies the words that are no options.
fn positionals(args: &[String]) -> (r: Vec<String>)
    ensures
        views(r@) == views(args@).filter(|word: Seq<char>| !is_option(word)),
{
    let ghost words = views(args@);
    let ghost property = |word: Seq<char>| !is_option(word);
    let mut r: Vec<String> = Vec::new();
    let mut i: usize = 0;
    proof {
        reveal(Seq::filter);
        assert(views(r@) =~= words.take(0).filter(property));
    }
    while i < args.len()
        invariant
            i <= args@.len(),
            words == views(args@),
            property == (|word: Seq<char>| !is_option(word)),
            views(r@) == words.take(i as int).filter(property),
        decreases args@.len() - i,
    {
        proof {
            lemma_filter_step(words, property, i as int);
        }
        if !option_like(args[i].as_str()) {
            let ghost before = views(r@);
            r.push(args[i].clone());
            assert(views(r@) =~= before.push(words[i as int]));
        }
        i = i + 1;
    }
    assert(words.take(i as int) =~= words);
    r
}

/// Copies the words outside a list.
fn words_outside(args: &[String], list: &Vec<&str>) -> (r: Vec<String>)
    ensures
        views(r@) == views(args@).filter(|word: Seq<char>| !views(list@).contains(word)),
{
    let ghost words = views(args@);
    let ghost excluded = views(list@);
    let ghost property = |word: Seq<char>| !excluded.contains(word);
    let mut r: Vec<String> = Vec::new();
    let mut i: usize = 0;
    proof {
        reveal(Seq::filter);
        assert(views(r@) =~= words.take(0).filter(property));
    }
    while i < args.len()
        invariant
            i <= args@.len(),
            words == views(args@),
            excluded == views(list@),
            property == (|word: Seq<char>| !excluded.contains(word)),
            views(r@) == words.take(i as int).filter(property),
        decreases args@.len() - i,
    {
        proof {
            lemma_filter_step(words, property, i as int);
        }
        if !is_one_of(args[i].as_str(), list) {
            let ghost before = views(r@);
            r.push(args[i].clone());
            assert(views(r@) =~= before.push(words[i as int]));
        }
        i = i + 1;
    }
    assert(words.take(i as int) =~= words);
    r
}

/// Counts the words of a list.
fn count_mentions(args: &[String], list: &Vec<&str>) -> (r: usize)
    ensures
        r == views(args@).filter(|word: Seq<char>| views(list@).contains(word)).len(),
{
    let ghost words = views(args@);
    let ghost wanted = views(list@);
    let ghost property = |word: Seq<char>| wanted.contains(word);
    let mut r: usize = 0;
    let mut i: usize = 0;
    proof {
        reveal(Seq::filter);
        assert(words.take(0).filter(property).len() == 0);
    }
    while i < args.len()
        invariant
            i <= args@.len(),
            r <= i,
            words == views(args@),
            wanted == views(list@),
            property == (|word: Seq<char>| wanted.contains(word)),
            r == words.take(i as int).filter(property).len(),
        decreases args@.len() - i,
    {
        proof {
            lemma_filter_step(words, property, i as int);
        }
        if is_one_of(args[i].as_str(), list) {
            r = r + 1;
        }
        i = i + 1;
    }
    assert(words.take(i as int) =~= words);
    r
}

fn optional_single_value<E>(command: &str, args: &[String]) -> (r: Result<
    Option<String>,
    GitCompatError<E>,
>)
    ensures
        match r {
            Ok(None) => single_value::<E>(command@, views(args@)) == Ok::<
                Option<Seq<char>>,
                CompatErrorView<E>,
            >(None),
            Ok(Some(value)) => single_value::<E>(command@, views(args@)) == Ok::<
                Option<Seq<char>>,
                CompatErrorView<E>,
            >(Some(value@)),
            Err(error) => single_value::<E>(command@, views(args@)) == Err::<
                Option<Seq<char>>,
                CompatErrorView<E>,
            >(error@),
        },
{
    if args.len() == 0 {
        Ok(None)
    } else if args.len() == 1 {
        if option_like(args[0].as_str()) {
            Err(unsupported_option(command, args[0].as_str()))
        } else {
            Ok(Some(args[0].clone()))
        }
    } else {
        Err(GitCompatError::InvalidCommand(text_pair(command, " accepts at most one argument")))
    }
}

fn exactly_one<E>(command: &str, values: &[String]) -> (r: Result<String, GitCompatError<E>>)
    ensures
        match r {
            Ok(value) => one_value::<E>(command@, views(values@)) == Ok::<
                Seq<char>,
                CompatErrorView<E>,
            >(value@),
            Err(error) => one_value::<E>(command@, views(values@)) == Err::<
                Seq<char>,
                CompatErrorView<E>,
            >(error@),
        },
{
    if values.len() == 1 {
        if option_like(values[0].as_str()) {
            Err(unsupported_option(command, values[0].as_str()))
        } else {
            Ok(values[0].clone())
        }
    } else {
        Err(GitCompatError::InvalidCommand(text_pair(command, " requires exactly one argument")))
    }
}

/// Splits `--name=value` at its first equals sign.
fn split_long_option(argument: &str) -> (r: (String, Option<String>))
    ensures
        r.0@ == long_option(argument@).0,
        match r.1 {
            Some(inline) => long_option(argument@).1 == Some(inline@),
            None => long_option(argument@).1 is None,
        },
{
    let chars = chars_of(argument);
    let at = find_char(chars.as_slice(), '=', 0);
    if at < chars.len() {
        assert(chars@.subrange(0, at as int) =~= chars@.take(at as int));
        assert(chars@.subrange(at + 1, chars@.len() as int) =~= chars@.skip(at + 1));
        (
            text_between(chars.as_slice(), 0, at),
            Some(text_between(chars.as_slice(), at + 1, chars.len())),
        )
    } else {
        (argument.to_owned(), None)
    }
}

fn parse_log_maximum<E>(args: &[String]) -> (r: Result<u32, GitCompatError<E>>)
    ensures
        match r {
            Ok(maximum) => log_maximum::<E>(views(args@)) == Ok::<u32, CompatErrorView<E>>(maximum),
            Err(error) => log_maximum::<E>(views(args@)) == Err::<u32, CompatErrorView<E>>(error@),
        },
{
    if args.len() == 0 {
        return Ok(100);
    }
    let value: String;
    if args.len() == 2 && (text_is(args[0].as_str(), "-n") || text_is(
        args[0].as_str(),
        "--max-count",
    )) {
        value = args[1].clone();
    } else if args.len() == 1 {
        let option = args[0].as_str();
        let chars = chars_of(option);
        let prefix = chars_of("--max-count=");
        if has_prefix(chars.as_slice(), prefix.as_slice()) {
            value = match split_long_option(option).1 {
                Some(inline) => inline,
                None => String::new(),
            };
        } else if option.as_bytes().len() > 1 {
            if option_like(option) {
                assert(chars@.subrange(1, chars@.len() as int) =~= chars@.skip(1));
                value = text_between(chars.as_slice(), 1, chars.len());
            } else {
                return Err(invalid("invalid log count"));
            }
        } else {
            return Err(unsupported_option("log", option));
        }
    } else {
        return Err(
            invalid("log accepts only -n <count>, -<count>, or --max-count=<count>"),
        );
    }
    let digits = chars_of(value.as_str());
    match parse_unsigned(digits.as_slice(), u32::MAX as u64) {
        Some(number) => Ok(number as u32),
        None => Err(invalid("log count must be an unsigned 32-bit integer")),
    }
}

fn parse_add<E>(args: &[String]) -> (r: Result<GitCommand, GitCompatError<E>>)
    ensures
        outcome(r) == add_command::<E>(views(args@)),
{
    if args.len() == 0 {
        return Err(invalid("add requires a path or -A/--all"));
    }
    let end = find_word(args, "--");
    let before = slice_subrange(args, 0, end);
    let ghost words = views(args@);
    assert(views(before@) =~= words.take(end as int));
    let staging = vec!["-A", "--all", "-u", "--update"];
    assert(views(staging@) =~= seq!["-A"@, "--all"@, "-u"@, "--update"@]);
    match require_options::<E>("add", before, &staging) {
        Err(error) => Err(error),
        Ok(_) => {
            let mut paths = positionals(before);
            let ghost first = views(paths@);
            if end < args.len() {
                let mut after = words_from(args, end + 1);
                let ghost second = views(after@);
                paths.append(&mut after);
                assert(views(paths@) =~= first + second);
            } else {
                assert(first =~= first + Seq::<Seq<char>>::empty());
            }
            assert(paths@.len() == views(paths@).len());
            if paths.len() == 0 && !mentions(before, &staging) {
                Err(invalid("add requires a path or -A/--all"))
            } else {
                Ok(GitCommand::Add { paths })
            }
        },
    }
}

/// Reads the value of the option at the front of `args`.
fn take_option_value(args: &[String], at: usize, inline: Option<String>) -> (r: Option<String>)
    requires
        at < args@.len(),
        match inline {
            Some(value) => long_option(args@[at as int]@).1 == Some(value@),
            None => long_option(args@[at as int]@).1 is None,
        },
    ensures
        match r {
            Some(value) => option_value(views(args@).skip(at as int)) == Some(value@),
            None => option_value(views(args@).skip(at as int)) is None,
        },
{
    assert(views(args@).skip(at as int)[0] == args@[at as int]@);
    match inline {
        Some(value) => Some(value),
        None => {
            if args.len() - at > 1 {
                assert(views(args@).skip(at as int)[1] == args@[at + 1]@);
                Some(args[at + 1].clone())
            } else {
                None
            }
        },
    }
}

fn parse_commit<E>(args: &[String], default_author: &str, now_seconds: i64) -> (r: Result<
    GitCommand,
    GitCompatError<E>,
>)
    ensures
        Some(outcome(r)) == history_command::<E>(
            "commit"@,
            views(args@),
            default_author@,
            now_seconds,
        ),
{
    let ghost words = views(args@);
    proof {
        reveal_strlit("add");
        reveal_strlit("commit");
        assert("add"@.len() != "commit"@.len());
    }
    let mut message: Option<String> = None;
    let mut author = default_author.to_owned();
    let mut index: usize = 0;
    assert(words.skip(0) =~= words);
    while index < args.len()
        invariant
            index <= args@.len(),
            words == views(args@),
            commit_options::<E>(words, None, default_author@) == commit_options::<E>(
                words.skip(index as int),
                match message {
                    Some(text) => Some(text@),
                    None => None,
                },
                author@,
            ),
            "add"@ != "commit"@,
        decreases args@.len() - index,
    {
        let argument = args[index].as_str();
        let (name, inline) = split_long_option(argument);
        let inlined = inline.is_some();
        proof {
            let rest = words.skip(index as int);
            assert(rest[0] == argument@);
            if inlined || rest.len() == 1 {
                assert(after_option(rest) =~= words.skip(index + 1));
            } else {
                assert(after_option(rest) =~= words.skip(index + 2));
            }
        }
        if text_is(name.as_str(), "-m") || text_is(name.as_str(), "--message") {
            match take_option_value(args, index, inline) {
                None => {
                    return Err(invalid("commit requires a message after -m"));
                },
                Some(value) => {
                    if message.is_some() {
                        return Err(invalid("multiple commit messages are not supported"));
                    }
                    message = Some(value);
                },
            }
        } else if text_is(name.as_str(), "--author") {
            match take_option_value(args, index, inline) {
                None => {
                    return Err(invalid("commit requires an author after --author"));
                },
                Some(value) => {
                    author = value;
                },
            }
        } else {
            return Err(unsupported_option("commit", argument));
        }
        if inlined {
            index = index + 1;
        } else {
            index = index + 2;
        }
    }
    match message {
        None => Err(invalid("commit requires -m")),
        Some(message) => Ok(
            GitCommand::Commit { message, author, authored_at_seconds: now_seconds },
        ),
    }
}

fn parse_restore<E>(args: &[String]) -> (r: Result<GitCommand, GitCompatError<E>>)
    ensures
        outcome(r) == match restore_options::<E>(views(args@), None, Seq::empty(), false) {
            Err(problem) => Err(problem),
            Ok((source, paths)) => if paths.len() == 0 {
                Err(CompatErrorView::InvalidCommand("restore requires at least one path"@))
            } else {
                Ok(CommandView::Restore { source, paths })
            },
        },
{
    let ghost words = views(args@);
    let mut source: Option<GitObjectName> = None;
    let mut paths: Vec<String> = Vec::new();
    let mut ended = false;
    let mut index: usize = 0;
    assert(words.skip(0) =~= words);
    assert(views(paths@) =~= Seq::<Seq<char>>::empty());
    while index < args.len()
        invariant
            index <= args@.len(),
            words == views(args@),
            restore_options::<E>(words, None, Seq::empty(), false) == restore_options::<E>(
                words.skip(index as int),
                match source {
                    Some(name) => Some(name@),
                    None => None,
                },
                views(paths@),
                ended,
            ),
        decreases args@.len() - index,
    {
        let argument = args[index].as_str();
        let ghost rest = words.skip(index as int);
        let ghost listed = views(paths@);
        assert(rest[0] == argument@);
        assert(rest.skip(1) =~= words.skip(index + 1));
        if !ended && text_is(argument, "--") {
            ended = true;
        } else if !ended {
            let (name, inline) = split_long_option(argument);
            let inlined = inline.is_some();
            if text_is(name.as_str(), "--source") {
                proof {
                    if inlined || rest.len() == 1 {
                        assert(after_option(rest) =~= words.skip(index + 1));
                    } else {
                        assert(after_option(rest) =~= words.skip(index + 2));
                    }
                }
                match take_option_value(args, index, inline) {
                    None => {
                        return Err(invalid("restore requires an object after --source"));
                    },
                    Some(value) => {
                        if source.is_some() {
                            return Err(invalid("restore accepts only one --source"));
                        }
                        source = Some(GitObjectName(value));
                        if !inlined {
                            index = index + 1;
                        }
                    },
                }
            } else if option_like(argument) {
                return Err(unsupported_option("restore", argument));
            } else {
                paths.push(args[index].clone());
                assert(views(paths@) =~= listed.push(argument@));
            }
        } else {
            paths.push(args[index].clone());
            assert(views(paths@) =~= listed.push(argument@));
        }
        index = index + 1;
    }
    assert(views(paths@).len() == paths@.len());
    if paths.len() == 0 {
        Err(invalid("restore requires at least one path"))
    } else {
        Ok(GitCommand::Restore { source, paths })
    }
}

fn parse_switch<E>(command: &str, args: &[String], creating: &str) -> (r: Result<
    GitCommand,
    GitCompatError<E>,
>)
    ensures
        outcome(r) == switch_command::<E>(command@, views(args@), creating@),
{
    let allowed = vec![creating];
    assert(views(allowed@) =~= seq![creating@]);
    match require_options::<E>(command, args, &allowed) {
        Err(error) => Err(error),
        Ok(_) => {
            let create = mentions(args, &allowed);
            let values = words_outside(args, &allowed);
            match exactly_one::<E>(command, values.as_slice()) {
                Err(error) => Err(error),
                Ok(branch) => Ok(GitCommand::Switch { branch, create }),
            }
        },
    }
}

fn parse_checkout<E>(args: &[String]) -> (r: Result<GitCommand, GitCompatError<E>>)
    ensures
        outcome(r) == checkout_command::<E>(views(args@)),
{
    let separator = find_word(args, "--");
    if separator < args.len() {
        if separator > 1 {
            return Err(invalid("checkout path restoration accepts at most one source object"));
        }
        if separator + 1 == args.len() {
            return Err(invalid("checkout -- requires at least one path"));
        }
        let paths = words_from(args, separator + 1);
        let source = if separator == 0 {
            None
        } else {
            Some(GitObjectName(args[0].clone()))
        };
        return Ok(GitCommand::Restore { source, paths });
    }
    parse_switch("checkout", args, "-b")
}

fn parse_reset<E>(args: &[String]) -> (r: Result<GitCommand, GitCompatError<E>>)
    ensures
        outcome(r) == reset_command::<E>(views(args@)),
{
    let modes = vec!["--hard", "--soft", "--mixed"];
    assert(views(modes@) =~= seq!["--hard"@, "--soft"@, "--mixed"@]);
    match require_options::<E>("reset", args, &modes) {
        Err(error) => Err(error),
        Ok(_) => {
            if count_mentions(args, &modes) > 1 {
                return Err(invalid("reset accepts only one mode"));
            }
            let mode = if has_word(args, "--hard") {
                GitResetMode::Hard
            } else if has_word(args, "--soft") {
                GitResetMode::Soft
            } else {
                GitResetMode::Mixed
            };
            let targets = positionals(args);
            assert(views(targets@).len() == targets@.len());
            if targets.len() > 1 {
                return Err(
                    invalid("reset accepts only one target; path reset is not supported"),
                );
            }
            let target = if targets.len() == 0 {
                "HEAD".to_owned()
            } else {
                targets[0].clone()
            };
            Ok(GitCommand::Reset { target: GitObjectName(target), mode })
        },
    }
}

fn parse_stash<E>(args: &[String]) -> (r: Result<GitCommand, GitCompatError<E>>)
    ensures
        outcome(r) == stash_command::<E>(views(args@)),
{
    if args.len() == 0 {
        Ok(GitCommand::StashPush)
    } else if args.len() == 1 {
        if text_is(args[0].as_str(), "push") {
            Ok(GitCommand::StashPush)
        } else if text_is(args[0].as_str(), "pop") {
            Ok(GitCommand::StashPop)
        } else {
            let message = text_triple("unsupported stash operation '", args[0].as_str(), "'");
            Err(GitCompatError::InvalidCommand(message))
        }
    } else {
        Err(invalid("stash accepts only push or pop"))
    }
}

fn parse_tag<E>(args: &[String]) -> (r: Result<GitCommand, GitCompatError<E>>)
    ensures
        outcome(r) == tag_command::<E>(views(args@)),
{
    let allowed = vec!["-d", "--delete"];
    assert(views(allowed@) =~= seq!["-d"@, "--delete"@]);
    let delete = mentions(args, &allowed);
    match require_options::<E>("tag", args, &allowed) {
        Err(error) => Err(error),
        Ok(_) => {
            let values = positionals(args);
            assert(views(values@).len() == values@.len());
            if values.len() > 2 || (delete && values.len() != 1) {
                return Err(invalid("tag accepts [name [target]] or --delete name"));
            }
            let name = if values.len() > 0 {
                Some(values[0].clone())
            } else {
                None
            };
            let target = if values.len() > 1 {
                Some(GitObjectName(values[1].clone()))
            } else {
                None
            };
            Ok(GitCommand::Tag { name, target, delete })
        },
    }
}

fn parse_grep<E>(args: &[String]) -> (r: Result<GitCommand, GitCompatError<E>>)
    ensures
        outcome(r) == grep_command::<E>(views(args@)),
{
    if args.len() == 1 {
        Ok(GitCommand::Grep { pattern: args[0].clone(), path: None })
    } else if args.len() == 2 {
        Ok(GitCommand::Grep { pattern: args[0].clone(), path: Some(args[1].clone()) })
    } else {
        Err(invalid("grep requires a pattern and at most one path"))
    }
}

fn parse_clean<E>(args: &[String]) -> (r: Result<GitCommand, GitCompatError<E>>)
    ensures
        outcome(r) == clean_command::<E>(views(args@)),
{
    let allowed = vec!["-n", "--dry-run", "-f", "--force"];
    let dry = vec!["-n", "--dry-run"];
    let forced = vec!["-f", "--force"];
    assert(views(dry@) =~= seq!["-n"@, "--dry-run"@]);
    assert(views(forced@) =~= seq!["-f"@, "--force"@]);
    assert(views(allowed@) =~= seq!["-n"@, "--dry-run"@] + seq!["-f"@, "--force"@]);
    match require_only_options::<E>("clean", args, &allowed) {
        Err(error) => Err(error),
        Ok(_) => {
            let dry_run = mentions(args, &dry);
            if !dry_run && !mentions(args, &forced) {
                Err(invalid("clean requires -f or --force unless --dry-run is used"))
            } else {
                Ok(GitCommand::Clean { dry_run })
            }
        },
    }
}

fn parse_rev_parse<E>(args: &[String]) -> (r: Result<GitCommand, GitCompatError<E>>)
    ensures
        outcome(r) == rev_parse_command::<E>(views(args@)),
{
    if args.len() == 1 && (text_is(args[0].as_str(), "--is-inside-work-tree") || text_is(
        args[0].as_str(),
        "HEAD",
    )) {
        Ok(GitCommand::RevParse { argument: args[0].clone() })
    } else if args.len() == 2 && text_is(args[1].as_str(), "HEAD") && (text_is(
        args[0].as_str(),
        "--abbrev-ref",
    ) || text_is(args[0].as_str(), "--symbolic-full-name")) {
        Ok(GitCommand::RevParse { argument: text_pair(args[0].as_str(), " HEAD") })
    } else if args.len() == 1 && !option_like(args[0].as_str()) {
        Ok(GitCommand::RevParse { argument: args[0].clone() })
    } else {
        Err(
            invalid(
                "rev-parse supports HEAD, one object, --is-inside-work-tree, --abbrev-ref HEAD, or --symbolic-full-name HEAD",
            ),
        )
    }
}

fn parse_symbolic_ref<E>(args: &[String]) -> (r: Result<GitCommand, GitCompatError<E>>)
    ensures
        outcome(r) == symbolic_ref_command::<E>(views(args@)),
{
    let short = has_word(args, "--short");
    let allowed = vec!["--short"];
    assert(views(allowed@) =~= seq!["--short"@]);
    match require_options::<E>("symbolic-ref", args, &allowed) {
        Err(error) => Err(error),
        Ok(_) => {
            let values = positionals(args);
            assert(views(values@).len() == values@.len());
            if values.len() == 1 && text_is(values[0].as_str(), "HEAD") {
                assert(views(values@) =~= seq!["HEAD"@]);
                Ok(GitCommand::SymbolicRef { short })
            } else {
                proof {
                    if views(values@) == seq!["HEAD"@] {
                        assert(values@[0]@ == seq!["HEAD"@][0]);
                    }
                }
                Err(invalid("symbolic-ref supports only HEAD"))
            }
        },
    }
}

fn parse_check_ignore<E>(args: &[String]) -> (r: Result<GitCommand, GitCompatError<E>>)
    ensures
        outcome(r) == check_ignore_command::<E>(views(args@)),
{
    let ghost words = views(args@);
    let ghost refused = |word: Seq<char>| word != "--"@ && is_option(word);
    let ghost kept = |word: Seq<char>| word != "--"@;
    let mut paths: Vec<String> = Vec::new();
    let mut index: usize = 0;
    proof {
        reveal(Seq::filter);
        assert(words.skip(0) =~= words);
        assert(views(paths@) =~= words.take(0).filter(kept));
    }
    while index < args.len()
        invariant
            index <= args@.len(),
            words == views(args@),
            refused == (|word: Seq<char>| word != "--"@ && is_option(word)),
            kept == (|word: Seq<char>| word != "--"@),
            first_where(words, refused) == first_where(words.skip(index as int), refused),
            views(paths@) == words.take(index as int).filter(kept),
        decreases args@.len() - index,
    {
        proof {
            lemma_first_where_step(words, refused, index as int);
            lemma_filter_step(words, kept, index as int);
        }
        let argument = args[index].as_str();
        if !text_is(argument, "--") {
            if option_like(argument) {
                return Err(unsupported_option("check-ignore", argument));
            }
            let ghost before = views(paths@);
            paths.push(args[index].clone());
            assert(views(paths@) =~= before.push(argument@));
        }
        index = index + 1;
    }
    assert(words.take(index as int) =~= words);
    assert(views(paths@).len() == paths@.len());
    if paths.len() == 0 {
        Err(invalid("check-ignore requires at least one path"))
    } else {
        Ok(GitCommand::CheckIgnore { paths })
    }
}

fn is_unavailable(command: &str) -> (r: bool)
    ensures
        r == unavailable(command@),
{
    text_is(command, "clone") || text_is(command, "fetch") || text_is(command, "pull") || text_is(
        command,
        "push",
    ) || text_is(command, "remote") || text_is(command, "gc") || text_is(command, "repack")
        || text_is(command, "cat-file") || text_is(command, "hash-object") || text_is(
        command,
        "init",
    ) || text_is(command, "fsck") || text_is(command, "prune") || text_is(command, "pack-objects")
        || text_is(command, "index-pack") || text_is(command, "receive-pack") || text_is(
        command,
        "upload-pack",
    ) || text_is(command, "read-tree") || text_is(command, "write-tree") || text_is(
        command,
        "commit-tree",
    ) || text_is(command, "update-index") || text_is(command, "worktree") || text_is(
        command,
        "submodule",
    )
}

fn parse_inspection<E>(command: &str, args: &[String]) -> (r: Option<
    Result<GitCommand, GitCompatError<E>>,
>)
    ensures
        match r {
            Some(result) => inspection_command::<E>(command@, views(args@)) == Some(outcome(result)),
            None => inspection_command::<E>(command@, views(args@)) is None,
        },
{
    if text_is(command, "status") {
        let allowed = vec!["--short", "--porcelain", "--porcelain=v1"];
        assert(views(allowed@) =~= seq!["--short"@, "--porcelain"@, "--porcelain=v1"@]);
        Some(
            match require_only_options::<E>(command, args, &allowed) {
                Err(error) => Err(error),
                Ok(_) => Ok(GitCommand::Status),
            },
        )
    } else if text_is(command, "diff") {
        let allowed = vec!["--cached", "--staged"];
        assert(views(allowed@) =~= seq!["--cached"@, "--staged"@]);
        Some(
            match require_only_options::<E>(command, args, &allowed) {
                Err(error) => Err(error),
                Ok(_) => Ok(
                    GitCommand::Diff {
                        cached: has_word(args, "--cached") || has_word(args, "--staged"),
                    },
                ),
            },
        )
    } else if text_is(command, "log") {
        Some(
            match parse_log_maximum::<E>(args) {
                Err(error) => Err(error),
                Ok(maximum) => Ok(GitCommand::Log { maximum }),
            },
        )
    } else if text_is(command, "show") {
        Some(
            match optional_single_value::<E>(command, args) {
                Err(error) => Err(error),
                Ok(Some(name)) => Ok(GitCommand::Show { object: Some(GitObjectName(name)) }),
                Ok(None) => Ok(GitCommand::Show { object: None }),
            },
        )
    } else if text_is(command, "blame") {
        Some(
            match exactly_one::<E>(command, args) {
                Err(error) => Err(error),
                Ok(path) => Ok(GitCommand::Blame { path }),
            },
        )
    } else if text_is(command, "grep") {
        Some(parse_grep(args))
    } else if text_is(command, "archive") {
        Some(
            match optional_single_value::<E>(command, args) {
                Err(error) => Err(error),
                Ok(Some(name)) => Ok(GitCommand::Archive { object: Some(GitObjectName(name)) }),
                Ok(None) => Ok(GitCommand::Archive { object: None }),
            },
        )
    } else if text_is(command, "rev-parse") {
        Some(parse_rev_parse(args))
    } else if text_is(command, "symbolic-ref") {
        Some(parse_symbolic_ref(args))
    } else if text_is(command, "merge-base") {
        Some(
            if args.len() == 2 {
                Ok(
                    GitCommand::MergeBase {
                        left: GitObjectName(args[0].clone()),
                        right: GitObjectName(args[1].clone()),
                    },
                )
            } else {
                Err(invalid("merge-base requires exactly two objects"))
            },
        )
    } else if text_is(command, "ls-files") {
        let allowed = vec!["--cached"];
        assert(views(allowed@) =~= seq!["--cached"@]);
        Some(
            match require_only_options::<E>(command, args, &allowed) {
                Err(error) => Err(error),
                Ok(_) => Ok(GitCommand::LsFiles),
            },
        )
    } else if text_is(command, "check-ignore") {
        Some(parse_check_ignore(args))
    } else {
        None
    }
}

/// Tells whether the only word is `word`.
fn is_only(args: &[String], word: &str) -> (r: bool)
    ensures
        r == (views(args@) == seq![word@]),
{
    let r = args.len() == 1 && text_is(args[0].as_str(), word);
    proof {
        if r {
            assert(views(args@) =~= seq![word@]);
        } else if views(args@) == seq![word@] {
            assert(views(args@).len() == 1);
            assert(views(args@)[0] == seq![word@][0]);
        }
    }
    r
}

fn parse_history<E>(
    command: &str,
    args: &[String],
    default_author: &str,
    now_seconds: i64,
) -> (r: Option<Result<GitCommand, GitCompatError<E>>>)
    ensures
        match r {
            Some(result) => history_command::<E>(
                command@,
                views(args@),
                default_author@,
                now_seconds,
            ) == Some(outcome(result)),
            None => history_command::<E>(
                command@,
                views(args@),
                default_author@,
                now_seconds,
            ) is None,
        },
{
    if text_is(command, "add") {
        Some(parse_add(args))
    } else if text_is(command, "commit") {
        Some(parse_commit(args, default_author, now_seconds))
    } else if text_is(command, "branch") {
        Some(
            match optional_single_value::<E>(command, args) {
                Err(error) => Err(error),
                Ok(create) => Ok(GitCommand::Branch { create }),
            },
        )
    } else if text_is(command, "switch") {
        Some(parse_switch(command, args, "-c"))
    } else if text_is(command, "checkout") {
        Some(parse_checkout(args))
    } else if text_is(command, "restore") {
        Some(parse_restore(args))
    } else if text_is(command, "reset") {
        Some(parse_reset(args))
    } else if text_is(command, "merge") && is_only(args, "--continue") {
        Some(Ok(GitCommand::MergeContinue))
    } else if text_is(command, "merge") && is_only(args, "--abort") {
        Some(Ok(GitCommand::MergeAbort))
    } else if text_is(command, "merge") || text_is(command, "rebase") {
        Some(
            match exactly_one::<E>(command, args) {
                Err(error) => Err(error),
                Ok(branch) => if text_is(command, "merge") {
                    Ok(GitCommand::Merge { branch })
                } else {
                    Ok(GitCommand::Rebase { branch })
                },
            },
        )
    } else if text_is(command, "cherry-pick") || text_is(command, "revert") {
        Some(
            match exactly_one::<E>(command, args) {
                Err(error) => Err(error),
                Ok(name) => if text_is(command, "cherry-pick") {
                    Ok(GitCommand::CherryPick { object: GitObjectName(name) })
                } else {
                    Ok(GitCommand::Revert { object: GitObjectName(name) })
                },
            },
        )
    } else if text_is(command, "stash") {
        Some(parse_stash(args))
    } else if text_is(command, "tag") {
        Some(parse_tag(args))
    } else if text_is(command, "clean") {
        Some(parse_clean(args))
    } else if text_is(command, "apply") {
        Some(
            Err(
                GitCompatError::Unsupported {
                    command: command.to_owned(),
                    reason: "argv cannot safely turn a patch filename into patch bytes; load the file and use the typed Apply command".to_owned(),
                },
            ),
        )
    } else if text_is(command, "bisect") {
        let arguments = words_from(args, 0);
        assert(views(args@).skip(0) =~= views(args@));
        Some(Ok(GitCommand::Bisect { arguments }))
    } else {
        None
    }
}

/// Tells whether a shell would take a word as composition.
fn shell_composed(word: &str) -> (r: bool)
    ensures
        r == composes(word@),
{
    let chars = chars_of(word);
    let substitution = chars_of("$(");
    text_is(word, "&&") || text_is(word, "||") || text_is(word, ";") || text_is(word, "|")
        || text_is(word, "&") || begins_with(word, '>') || begins_with(word, '<') || has_char(
        chars.as_slice(),
        '`',
    ) || has_part(chars.as_slice(), substitution.as_slice())
}

fn reject_shell_composition<E>(argv: &[String]) -> (r: Result<(), GitCompatError<E>>)
    ensures
        match r {
            Ok(_) => first_where(views(argv@), |word: Seq<char>| composes(word)) is None,
            Err(error) => first_where(views(argv@), |word: Seq<char>| composes(word)) matches Some(
                word,
            ) && error@ == (CompatErrorView::<E>::Unsupported {
                command: word,
                reason: "shell composition is outside the command-level compatibility façade"@,
            }),
        },
{
    let ghost words = views(argv@);
    let ghost property = |word: Seq<char>| composes(word);
    let mut i: usize = 0;
    assert(words.skip(0) =~= words);
    while i < argv.len()
        invariant
            i <= argv@.len(),
            words == views(argv@),
            property == (|word: Seq<char>| composes(word)),
            first_where(words, property) == first_where(words.skip(i as int), property),
        decreases argv@.len() - i,
    {
        proof {
            lemma_first_where_step(words, property, i as int);
        }
        if shell_composed(argv[i].as_str()) {
            return Err(
                GitCompatError::Unsupported {
                    command: argv[i].clone(),
                    reason: "shell composition is outside the command-level compatibility façade".to_owned(),
                },
            );
        }
        i = i + 1;
    }
    Ok(())
}

/// Parses the words that follow the umbrella command.
pub fn parse_argv<E>(argv: &[String], default_author: &str, now_seconds: i64) -> (r: Result<
    GitCommand,
    GitCompatError<E>,
>)
    ensures
        outcome(r) == parsed_command::<E>(views(argv@), default_author@, now_seconds),
{
    match reject_shell_composition::<E>(argv) {
        Err(error) => Err(error),
        Ok(_) => {
            if argv.len() == 0 {
                return Err(invalid("missing command"));
            }
            let command = argv[0].as_str();
            let args = slice_subrange(argv, 1, argv.len());
            assert(views(args@) =~= views(argv@).skip(1));
            match parse_inspection::<E>(command, args) {
                Some(result) => result,
                None => match parse_history::<E>(command, args, default_author, now_seconds) {
                    Some(result) => result,
                    None => if is_unavailable(command) {
                        Err(
                            GitCompatError::Unsupported {
                                command: command.to_owned(),
                                reason: "the compatibility layer has no Git object database or transport".to_owned(),
                            },
                        )
                    } else {
                        let message = text_triple("unknown command '", command, "'");
                        Err(GitCompatError::InvalidCommand(message))
                    },
                },
            }
        },
    }
}

} // verus!
