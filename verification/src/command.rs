//! One run of the command line: the words after the program's name name a
//! command and its arguments; the run reads or changes the store and ends in
//! an outcome that says what is left to do.
//!
//! Only a run that changed the store asks for it to be written out.

use crate::database::{Database, HELP_TEXT};
use crate::entries::{as_map, delete, lemma_as_map_domain, put, Pair};
use crate::listing::listing;
use vstd::prelude::*;

verus! {

/// Prints the value of a key.
pub const GET: &'static str = "get";

/// Sets a key to a value.
pub const ADD: &'static str = "add";

/// Removes a key.
pub const REMOVE: &'static str = "remove";

/// Prints the keys that are not secret.
pub const LIST: &'static str = "list";

/// Prints the help text.
pub const HELP: &'static str = "help";

/// Why a run failed.
#[derive(Debug, Clone, Copy, PartialEq, Eq)]
pub enum Failure {
    /// No command was given.
    MissingCommand,
    /// The command needs a key and none was given.
    MissingKey,
    /// The command needs a value and none was given.
    MissingValue,
    /// The word names no command.
    UnknownCommand,
    /// The store does not hold the key.
    UnknownKey,
    /// The store holds no key that is not secret.
    EmptyDatabase,
}

/// What is left to do when a run is over.
#[derive(Debug, PartialEq, Eq)]
pub enum Outcome {
    /// The run succeeded: the text is to be printed.
    Print(String),
    /// The run succeeded and changed the store: it is to be written out.
    Flush,
    /// The run failed: the failure is to be reported.
    Fail(Failure),
}

/// An outcome over character sequences.
pub enum Effect {
    Print(Seq<char>),
    Flush,
    Fail(Failure),
}

impl View for Outcome {
    type V = Effect;

    open spec fn view(&self) -> Effect {
        match self {
            Outcome::Print(text) => Effect::Print(text@),
            Outcome::Flush => Effect::Flush,
            Outcome::Fail(failure) => Effect::Fail(*failure),
        }
    }
}

/// The commands.
#[derive(Debug, Clone, Copy, PartialEq, Eq)]
pub enum Verb {
    Get,
    Add,
    Remove,
    List,
    Help,
    /// Any other word.
    Unknown,
}

/// The command that a word names.
pub open spec fn verb(word: Seq<char>) -> Verb {
    if word == GET@ {
        Verb::Get
    } else if word == ADD@ {
        Verb::Add
    } else if word == REMOVE@ {
        Verb::Remove
    } else if word == LIST@ {
        Verb::List
    } else if word == HELP@ {
        Verb::Help
    } else {
        Verb::Unknown
    }
}

/// The outcome of a run with the words `args` on a store with the pairs
/// `entries`. Words after those that the command needs are ignored.
pub open spec fn effect(entries: Seq<Pair>, args: Seq<Seq<char>>) -> Effect {
    if args.len() == 0 {
        Effect::Fail(Failure::MissingCommand)
    } else {
        match verb(args[0]) {
            Verb::Get => if args.len() < 2 {
                Effect::Fail(Failure::MissingKey)
            } else if as_map(entries).contains_key(args[1]) {
                Effect::Print(as_map(entries)[args[1]])
            } else {
                Effect::Fail(Failure::UnknownKey)
            },
            Verb::Add => if args.len() < 2 {
                Effect::Fail(Failure::MissingKey)
            } else if args.len() < 3 {
                Effect::Fail(Failure::MissingValue)
            } else {
                Effect::Flush
            },
            Verb::Remove => if args.len() < 2 {
                Effect::Fail(Failure::MissingKey)
            } else if as_map(entries).contains_key(args[1]) {
                Effect::Flush
            } else {
                Effect::Fail(Failure::UnknownKey)
            },
            Verb::List => match listing(entries) {
                Some(text) => Effect::Print(text),
                None => Effect::Fail(Failure::EmptyDatabase),
            },
            Verb::Help => Effect::Print(HELP_TEXT@),
            Verb::Unknown => Effect::Fail(Failure::UnknownCommand),
        }
    }
}

/// The pairs of the store after a run with the words `args`.
pub open spec fn entries_after(entries: Seq<Pair>, args: Seq<Seq<char>>) -> Seq<Pair> {
    if args.len() >= 3 && verb(args[0]) == Verb::Add {
        put(entries, args[1], args[2])
    } else if args.len() >= 2 && verb(args[0]) == Verb::Remove {
        delete(entries, args[1])
    } else {
        entries
    }
}

/// A run that does not ask for the store to be written out has left it as
/// it was.
pub proof fn lemma_unchanged_unless_flushed(entries: Seq<Pair>, args: Seq<Seq<char>>)
    requires
        !(effect(entries, args) is Flush),
    ensures
        entries_after(entries, args) == entries,
{
    if args.len() >= 2 {
        lemma_as_map_domain(entries, args[1]);
    }
}

/// A run of `get`, `list` or `help`, or of a word that names no command,
/// only reads: it leaves the store as it was and does not ask for it to be
/// written out.
pub proof fn lemma_reading_runs_write_nothing(entries: Seq<Pair>, args: Seq<Seq<char>>)
    requires
        args.len() > 0,
        verb(args[0]) != Verb::Add,
        verb(args[0]) != Verb::Remove,
    ensures
        !(effect(entries, args) is Flush),
        entries_after(entries, args) == entries,
{
}

/// Whether `word` is the command `name`.
fn is_command(word: &String, name: &str) -> (same: bool)
    ensures
        same == (word@ == name@),
{
    *word == name.to_owned()
}

/// The command that `word` names.
pub fn verb_of(word: &String) -> (named: Verb)
    ensures
        named == verb(word@),
{
    if is_command(word, GET) {
        Verb::Get
    } else if is_command(word, ADD) {
        Verb::Add
    } else if is_command(word, REMOVE) {
        Verb::Remove
    } else if is_command(word, LIST) {
        Verb::List
    } else if is_command(word, HELP) {
        Verb::Help
    } else {
        Verb::Unknown
    }
}

/// Runs the command that the words `args` name on `database`.
pub fn run(database: &mut Database, args: Vec<String>) -> (outcome: Outcome)
    ensures
        outcome@ == effect(old(database).entries(), args.deep_view()),
        final(database).entries() == entries_after(old(database).entries(), args.deep_view()),
{
    let ghost words = args.deep_view();
    proof {
        assert forall|i: int| 0 <= i < args.len() implies #[trigger] words[i] == args[i]@ by {}
    }
    if args.len() == 0 {
        return Outcome::Fail(Failure::MissingCommand);
    }
    match verb_of(&args[0]) {
        Verb::Get => {
            if args.len() < 2 {
                return Outcome::Fail(Failure::MissingKey);
            }
            match database.get(args[1].clone()) {
                Some(value) => Outcome::Print(value.clone()),
                None => Outcome::Fail(Failure::UnknownKey),
            }
        },
        Verb::Add => {
            if args.len() < 2 {
                return Outcome::Fail(Failure::MissingKey);
            }
            if args.len() < 3 {
                return Outcome::Fail(Failure::MissingValue);
            }
            database.insert(args[1].clone(), args[2].clone());
            Outcome::Flush
        },
        Verb::Remove => {
            if args.len() < 2 {
                return Outcome::Fail(Failure::MissingKey);
            }
            match database.remove(args[1].clone()) {
                Some(_) => Outcome::Flush,
                None => Outcome::Fail(Failure::UnknownKey),
            }
        },
        Verb::List => match database.keys_as_str() {
            Some(text) => Outcome::Print(text),
            None => Outcome::Fail(Failure::EmptyDatabase),
        },
        Verb::Help => Outcome::Print(database.get_help_txt()),
        Verb::Unknown => {
            let answer = database.unknown();
            assert(answer is None);
            Outcome::Fail(Failure::UnknownCommand)
        },
    }
}

} // verus!
