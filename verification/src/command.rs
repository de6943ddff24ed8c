//! Command specifications: what a rule executes when its timer expires.
//!
//! A configured command is either a list of words or one shell-like line;
//! either way it must name a program, so an empty command is rejected at
//! construction time.

use vstd::prelude::*;

verus! {

broadcast use crate::views::lemma_strings_deep_view;

/// Construction-time errors: a rule that cannot be built is fatal.
#[derive(Clone, Copy, Debug, PartialEq, Eq, Structural)]
pub enum ConfigError {
    /// A rule's command has no words, or its line cannot be lexed.
    NoCommand,
    /// A rule has no globs.
    NoGlobs,
    /// A glob did not compile.
    Glob(crate::glob::CompileError),
}

/// What to execute when a rule fires: a program and its arguments.
pub struct CommandSpec {
    /// The program to launch.
    pub program: String,
    /// Its arguments, in order.
    pub args: Vec<String>,
}

/// A command as configured: a list of words, or one shell-like line.
pub enum CommandToRun {
    /// The words, the first being the program.
    Words(Vec<String>),
    /// A line to be split into words by shell-like lexing.
    Line(String),
}

/// What shell-like lexing makes of a line: its words, or nothing when the
/// quoting is malformed. The result depends on the line alone.
pub uninterp spec fn shell_words(s: Seq<char>) -> Option<Seq<Seq<char>>>;

/// Relies on shlex::split: lexes one line into shell words; `None` reports
/// malformed input such as an unclosed quote.
#[verifier::external_body]
fn split_shell(s: &String) -> (r: Option<Vec<String>>)
    ensures
        r is Some <==> shell_words(s@) is Some,
        r matches Some(v) ==> shell_words(s@) == Some(v.deep_view()),
{
    shlex::split(s)
}

/// Builds a command from a list of words: the first word is the program, the
/// rest are its arguments. Fails when no word is given.
pub fn command_from_iter(words: &Vec<String>) -> (r: Result<CommandSpec, ConfigError>)
    ensures
        r is Ok <==> words@.len() > 0,
        r matches Ok(c) ==> c.program@ == words.deep_view()[0] && c.args.deep_view()
            == words.deep_view().skip(1),
        r matches Err(e) ==> e == ConfigError::NoCommand,
{
    if words.len() == 0 {
        return Err(ConfigError::NoCommand);
    }
    let program = words[0].clone();
    let mut args: Vec<String> = Vec::new();
    let mut i: usize = 1;
    while i < words.len()
        invariant
            1 <= i <= words@.len(),
            program@ == words.deep_view()[0],
            args.deep_view() == words.deep_view().subrange(1, i as int),
        decreases words@.len() - i,
    {
        let ghost pre = args.deep_view();
        let ghost pre_v = args@;
        args.push(words[i].clone());
        proof {
            assert forall|j: int|
                0 <= j < i implies #[trigger] args.deep_view()[j] == words.deep_view().subrange(
                1,
                i + 1,
            )[j - 1 + 1] by {
                if j < i - 1 {
                    assert(args@[j] == pre_v[j]);
                    assert(pre_v[j]@ == pre[j]);
                } else {
                    assert(args@[j]@ == words@[i as int]@);
                }
            }
            assert(args.deep_view() =~~= words.deep_view().subrange(1, i + 1));
        }
        i += 1;
    }
    proof {
        assert(words.deep_view().subrange(1, words@.len() as int) =~~= words.deep_view().skip(1));
    }
    Ok(CommandSpec { program, args })
}

/// Splits one shell-like line and builds the command from its words. Fails
/// when the line cannot be lexed or holds no word.
pub fn command_from_str(s: &String) -> (r: Result<CommandSpec, ConfigError>)
    ensures
        r is Ok <==> (shell_words(s@) matches Some(ws) && ws.len() > 0),
        r matches Ok(c) ==> (shell_words(s@) matches Some(ws) && c.program@ == ws[0]
            && c.args.deep_view() == ws.skip(1)),
        r matches Err(e) ==> e == ConfigError::NoCommand,
{
    match split_shell(s) {
        Some(items) => command_from_iter(&items),
        None => Err(ConfigError::NoCommand),
    }
}

impl CommandToRun {
    /// The words the configured command denotes: the list itself, or the
    /// lexed line.
    pub open spec fn spec_words(&self) -> Option<Seq<Seq<char>>> {
        match self {
            CommandToRun::Words(v) => Some(v.deep_view()),
            CommandToRun::Line(s) => shell_words(s@),
        }
    }

    /// Builds the command specification this configuration denotes. Fails
    /// when it holds no word.
    pub fn to_command(&self) -> (r: Result<CommandSpec, ConfigError>)
        ensures
            r is Ok <==> (self.spec_words() matches Some(ws) && ws.len() > 0),
            r matches Ok(c) ==> (self.spec_words() matches Some(ws) && c.program@ == ws[0]
                && c.args.deep_view() == ws.skip(1)),
            r matches Err(e) ==> e == ConfigError::NoCommand,
    {
        match self {
            CommandToRun::Words(v) => command_from_iter(v),
            CommandToRun::Line(s) => command_from_str(s),
        }
    }
}

} // verus!
