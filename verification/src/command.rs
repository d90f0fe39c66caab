//! Shell-like commands run in a preset working directory: splitting a command
//! line into its program and arguments, and turning a finished process's
//! output into a result.

use std::collections::VecDeque;

use vstd::prelude::*;
use vstd::utf8::*;

use crate::text::{
    has_char, join_with, lemma_join_push, lemma_join_split, lemma_split_from_nonempty, split_from,
    split_on, split_str, views,
};

verus! {

/// The token holds a quote.
pub open spec fn has_quote(token: Seq<char>) -> bool {
    token.contains('\'')
}

/// One step of grouping: either glue `token` (after a space) onto the last
/// part while a quote is open, or start a new part with it.
/// The flag tells whether a quote is open.
pub open spec fn parts_step(state: (Seq<Seq<char>>, bool), token: Seq<char>) -> (
    Seq<Seq<char>>,
    bool,
) {
    let parts = state.0;
    let unpaired = state.1;
    if parts.len() > 1 && unpaired {
        (
            parts.drop_last().push(parts.last() + seq![' '] + token),
            if has_quote(token) {
                false
            } else {
                true
            },
        )
    } else {
        (parts.push(token), if !unpaired && has_quote(token) {
            true
        } else {
            unpaired
        })
    }
}

/// Grouping of the space separated tokens, read left to right.
pub open spec fn parts_of(tokens: Seq<Seq<char>>) -> (Seq<Seq<char>>, bool)
    decreases tokens.len(),
{
    if tokens.len() == 0 {
        (Seq::empty(), false)
    } else {
        parts_step(parts_of(tokens.drop_last()), tokens.last())
    }
}

/// The parts of a command line: its words, where the words between an
/// opening and a closing quote form one part.
pub open spec fn command_parts(command: Seq<char>) -> Seq<Seq<char>> {
    parts_of(split_on(command, ' ')).0
}

/// Grouping keeps the text: the parts joined by single spaces are the
/// tokens joined by single spaces.
pub proof fn lemma_parts_of_join(tokens: Seq<Seq<char>>)
    ensures
        join_with(parts_of(tokens).0, seq![' ']) == join_with(tokens, seq![' ']),
        parts_of(tokens).0.len() == 0 <==> tokens.len() == 0,
    decreases tokens.len(),
{
    if tokens.len() > 0 {
        let prev = tokens.drop_last();
        let t = tokens.last();
        lemma_parts_of_join(prev);
        let parts = parts_of(prev).0;
        let sp = seq![' '];
        assert(tokens =~= prev.push(t));
        lemma_join_push(prev, t, sp);
        if parts.len() > 1 && parts_of(prev).1 {
            let init = parts.drop_last();
            let last = parts.last();
            assert(parts =~= init.push(last));
            lemma_join_push(init, last, sp);
            lemma_join_push(init, last + sp + t, sp);
            assert(join_with(init, sp) + sp + (last + sp + t) =~= (join_with(init, sp) + sp + last)
                + sp + t);
        } else {
            lemma_join_push(parts, t, sp);
        }
    }
}

/// Splitting a command line into parts loses nothing: joining the parts
/// with single spaces gives the command line back.
pub proof fn lemma_command_parts_join(command: Seq<char>)
    ensures
        join_with(command_parts(command), seq![' ']) == command,
{
    lemma_parts_of_join(split_on(command, ' '));
    lemma_join_split(command, ' ');
}

/// A command line always has at least one part (its program, possibly empty).
pub proof fn lemma_command_parts_nonempty(command: Seq<char>)
    ensures
        command_parts(command).len() >= 1,
{
    lemma_split_from_nonempty(Seq::empty(), command, ' ');
    lemma_parts_of_join(split_on(command, ' '));
}

/// Pieces of a text without quotes hold no quote.
proof fn lemma_split_from_unquoted(cur: Seq<char>, rest: Seq<char>, sep: char)
    requires
        !cur.contains('\''),
        !rest.contains('\''),
    ensures
        forall|k: int|
            0 <= k < split_from(cur, rest, sep).len() ==> !has_quote(#[trigger] split_from(cur, rest, sep)[k]),
    decreases rest.len(),
{
    if rest.len() > 0 {
        let tail = rest.drop_first();
        assert(!tail.contains('\'')) by {
            if tail.contains('\'') {
                let i = choose|i: int| 0 <= i < tail.len() && tail[i] == '\'';
                assert(rest[i + 1] == '\'');
            }
        }
        assert(rest[0] != '\'') by {
            if rest[0] == '\'' {
                assert(rest.contains('\''));
            }
        }
        if rest[0] == sep {
            lemma_split_from_unquoted(Seq::empty(), tail, sep);
            let pieces = split_from(cur, rest, sep);
            assert forall|k: int| 0 <= k < pieces.len() implies !has_quote(#[trigger] pieces[k]) by {
                assert(pieces == seq![cur] + split_from(Seq::empty(), tail, sep));
                if k > 0 {
                    assert(pieces[k] == split_from(Seq::empty(), tail, sep)[k - 1]);
                } else {
                    assert(pieces[k] == cur);
                }
            }
        } else {
            let next = cur.push(rest[0]);
            assert(!next.contains('\'')) by {
                if next.contains('\'') {
                    let i = choose|i: int| 0 <= i < next.len() && next[i] == '\'';
                    if i < cur.len() {
                        assert(cur[i] == '\'');
                    }
                }
            }
            lemma_split_from_unquoted(next, tail, sep);
            assert(split_from(cur, rest, sep) == split_from(next, tail, sep));
        }
    } else {
        assert(split_from(cur, rest, sep) == seq![cur]);
    }
}

/// Without quotes, grouping keeps every token as a part of its own.
proof fn lemma_parts_of_unquoted(tokens: Seq<Seq<char>>)
    requires
        forall|k: int| 0 <= k < tokens.len() ==> !has_quote(#[trigger] tokens[k]),
    ensures
        parts_of(tokens) == (tokens, false),
    decreases tokens.len(),
{
    if tokens.len() > 0 {
        let prev = tokens.drop_last();
        assert forall|k: int| 0 <= k < prev.len() implies !has_quote(#[trigger] prev[k]) by {
            assert(prev[k] == tokens[k]);
        }
        lemma_parts_of_unquoted(prev);
        assert(!has_quote(tokens[tokens.len() - 1]));
        assert(prev.push(tokens.last()) =~= tokens);
    }
}

/// A command line without quotes splits into its words: its parts are the
/// pieces between single spaces.
pub proof fn lemma_command_parts_unquoted(command: Seq<char>)
    requires
        !command.contains('\''),
    ensures
        command_parts(command) == split_on(command, ' '),
{
    lemma_split_from_unquoted(Seq::empty(), command, ' ');
    lemma_parts_of_unquoted(split_on(command, ' '));
}

/// A command that has some presets such as its working directory.
pub struct PresetCommand {
    pub working_dir: String,
}

/// A process to start: program, arguments and working directory.
pub struct CommandInvocation {
    pub program: String,
    pub args: Vec<String>,
    pub working_dir: String,
}

/// Why running a command gave no output text.
#[derive(Debug, PartialEq, Eq)]
pub enum CommandError {
    /// The command line has no program.
    InvalidCommand(String),
    /// The process wrote to stderr; its text.
    Stderr(String),
    /// The output bytes are not UTF-8.
    InvalidUtf8,
}

/// `std::str::from_utf8`, owned: the text the bytes encode when they are
/// valid UTF-8, `None` otherwise.
#[verifier::external_body]
fn utf8_text(bytes: &[u8]) -> (r: Option<String>)
    ensures
        r is Some <==> valid_utf8(bytes@),
        r matches Some(s) ==> s@ == decode_utf8(bytes@),
{
    std::str::from_utf8(bytes).ok().map(String::from)
}

/// The text that `v` encodes in UTF-8.
pub fn bytes_to_string(v: Vec<u8>) -> (r: Result<String, CommandError>)
    ensures
        r is Ok <==> valid_utf8(v@),
        r matches Ok(s) ==> s@ == decode_utf8(v@),
        r matches Err(e) ==> e == CommandError::InvalidUtf8,
{
    match utf8_text(v.as_slice()) {
        Some(s) => Ok(s),
        None => Err(CommandError::InvalidUtf8),
    }
}

/// What a process wrote to stderr, as an error.
pub fn stderr_to_err(stderr: Vec<u8>) -> (r: Result<String, CommandError>)
    ensures
        r is Err,
        valid_utf8(stderr@) ==> (r matches Err(CommandError::Stderr(m)) && m@ == decode_utf8(
            stderr@,
        )),
        !valid_utf8(stderr@) ==> r == Err::<String, CommandError>(CommandError::InvalidUtf8),
{
    let output_err = bytes_to_string(stderr)?;
    Err(CommandError::Stderr(output_err))
}

/// The result of a finished process: an error when it wrote to stderr,
/// otherwise the text of its stdout.
pub fn handle_command_output(stdout: Vec<u8>, stderr: Vec<u8>) -> (r: Result<String, CommandError>)
    ensures
        stderr@.len() > 0 ==> r is Err,
        stderr@.len() > 0 && valid_utf8(stderr@) ==> (r matches Err(CommandError::Stderr(m))
            && m@ == decode_utf8(stderr@)),
        stderr@.len() > 0 && !valid_utf8(stderr@) ==> r == Err::<String, CommandError>(
            CommandError::InvalidUtf8,
        ),
        stderr@.len() == 0 ==> (r is Ok <==> valid_utf8(stdout@)),
        stderr@.len() == 0 ==> (r matches Ok(s) ==> s@ == decode_utf8(stdout@)),
        stderr@.len() == 0 && !valid_utf8(stdout@) ==> r == Err::<String, CommandError>(
            CommandError::InvalidUtf8,
        ),
{
    if stderr.len() > 0 {
        return stderr_to_err(stderr);
    }
    bytes_to_string(stdout)
}

impl PresetCommand {
    /// The parts of a command line: its space separated words, where the words
    /// from one holding an opening quote up to one holding the closing quote
    /// form a single part (with their spaces).
    pub fn create_command_parts_from_string(command_str: &str) -> (parts: VecDeque<String>)
        ensures
            views(parts@) == command_parts(command_str@),
    {
        let tokens = split_str(command_str, ' ');
        let mut parts: VecDeque<String> = VecDeque::new();
        let mut has_unpaired_string_quote: bool = false;
        let mut i: usize = 0;
        while i < tokens.len()
            invariant
                i <= tokens.len(),
                views(tokens@) == split_on(command_str@, ' '),
                (views(parts@), has_unpaired_string_quote) == parts_of(
                    views(tokens@).take(i as int),
                ),
            decreases tokens.len() - i,
        {
            let token = &tokens[i];
            let ghost prev_parts = views(parts@);
            assert(views(tokens@).take(i + 1).drop_last() =~= views(tokens@).take(i as int));
            assert(views(tokens@).take(i + 1).last() == token@);
            let quoted = has_char(token.as_str(), '\'');
            if parts.len() > 1 && has_unpaired_string_quote {
                let previous_token = parts.pop_back().unwrap();
                assert(views(parts@) =~= prev_parts.drop_last());
                assert(previous_token@ == prev_parts.last());
                let mut merged = previous_token;
                let space = " ";
                proof {
                    reveal_strlit(" ");
                }
                assert(space@ =~= seq![' ']);
                merged.append(space);
                merged.append(token.as_str());
                assert(merged@ == prev_parts.last() + seq![' '] + token@);
                parts.push_back(merged);
                assert(views(parts@) =~= prev_parts.drop_last().push(
                    prev_parts.last() + seq![' '] + token@,
                ));
                if quoted {
                    has_unpaired_string_quote = false;
                }
            } else {
                if has_unpaired_string_quote == false && quoted {
                    has_unpaired_string_quote = true;
                }
                parts.push_back(token.clone());
                assert(views(parts@) =~= prev_parts.push(token@));
            }
            i = i + 1;
        }
        assert(views(tokens@).take(tokens.len() as int) =~= views(tokens@));
        parts
    }

    /// The process that running `command_str` in this command's working
    /// directory starts: the first part is the program, the rest its arguments.
    pub fn invocation(&self, command_str: &str) -> (r: Result<CommandInvocation, CommandError>)
        ensures
            r matches Ok(inv) && inv.program@ == command_parts(command_str@)[0] && views(inv.args@)
                == command_parts(command_str@).drop_first() && inv.working_dir@
                == self.working_dir@,
    {
        let mut command_parts = PresetCommand::create_command_parts_from_string(command_str);
        proof {
            lemma_command_parts_nonempty(command_str@);
        }
        let ghost all = views(command_parts@);
        let program = match command_parts.pop_front() {
            Some(p) => p,
            None => {
                return Err(CommandError::InvalidCommand(command_str.to_owned()));
            },
        };
        let mut args: Vec<String> = Vec::new();
        while command_parts.len() > 0
            invariant
                views(args@) + views(command_parts@) == all.drop_first(),
            decreases command_parts.len(),
        {
            let ghost before = views(command_parts@);
            let a = command_parts.pop_front().unwrap();
            let ghost old_args = views(args@);
            args.push(a);
            assert(views(args@) =~= old_args.push(a@));
            assert(views(command_parts@) =~= before.drop_first());
            assert(old_args + before =~= views(args@) + views(command_parts@));
        }
        assert(views(args@) + views(command_parts@) =~= views(args@));
        Ok(CommandInvocation { program, args, working_dir: self.working_dir.clone() })
    }
}

} // verus!
