//! The two commands of the tool, and what is said of a word that names
//! neither.

use vstd::prelude::*;
use crate::table::texts;
use crate::text::same_text;

verus! {

/// What the tool can be asked to do.
#[derive(Clone, Copy, Debug, PartialEq, Eq)]
pub enum Command {
    /// Write the database out as a directory of text files.
    ToGit,
    /// Build the database from such a directory.
    FromGit,
}

/// The command that a word names. Each command has two names, one for where
/// the data goes and one for where it comes from.
pub open spec fn command_named(word: Seq<char>) -> Option<Command> {
    if word == "to-git"@ || word == "from-sql"@ {
        Some(Command::ToGit)
    } else if word == "from-git"@ || word == "to-sql"@ {
        Some(Command::FromGit)
    } else {
        None
    }
}

pub fn command_of(word: &str) -> (r: Option<Command>)
    ensures
        r == command_named(word@),
{
    if same_text(word, "to-git") || same_text(word, "from-sql") {
        Some(Command::ToGit)
    } else if same_text(word, "from-git") || same_text(word, "to-sql") {
        Some(Command::FromGit)
    } else {
        None
    }
}

/// The names of the commands, in the order in which a likeness is looked for.
pub open spec fn command_names() -> Seq<Seq<char>> {
    seq!["to-git"@, "to-sql"@, "from-git"@, "from-sql"@]
}

/// The candidate that `ragit_cli::get_closest_string` finds closest to the
/// input, where it finds one close enough.
pub uninterp spec fn closest_of(candidates: Seq<Seq<char>>, input: Seq<char>) -> Option<Seq<char>>;

/// `ragit_cli::get_closest_string` measures an edit distance between the
/// input and each candidate, and returns the nearest candidate unless all are
/// too far off. What it returns depends on its arguments alone.
#[verifier::external_body]
fn closest_string(candidates: &Vec<String>, input: &str) -> (r: Option<String>)
    ensures
        match r {
            Some(s) => closest_of(texts(candidates@), input@) == Some(s@),
            None => closest_of(texts(candidates@), input@) is None,
        },
{
    ragit_cli::get_closest_string(candidates, input)
}

/// What is said of a word that names no command, given the command that
/// comes closest to it, if one does.
pub open spec fn invalid_command_text(word: Seq<char>, similar: Option<Seq<char>>) -> Seq<char> {
    "`"@ + word + "` is an invalid command. "@ + match similar {
        Some(name) => "There is a similar command: `"@ + name + "`."@,
        None => Seq::empty(),
    }
}

/// Words the message for a command that came closest.
pub fn invalid_command_with(word: &str, similar: Option<&str>) -> (r: String)
    ensures
        r@ == invalid_command_text(
            word@,
            match similar {
                Some(name) => Some(name@),
                None => None,
            },
        ),
{
    let mut out = String::from_str("`");
    out.append(word);
    out.append("` is an invalid command. ");
    match similar {
        Some(name) => {
            let ghost head = out@;
            out.append("There is a similar command: `");
            out.append(name);
            out.append("`.");
            assert(out@ =~= head + ("There is a similar command: `"@ + name@ + "`."@));
        },
        None => {
            assert(out@ + Seq::<char>::empty() =~= out@);
        },
    }
    out
}

/// The message for a word that names no command. It points to the command
/// that is most like the word, if one is like it.
pub fn invalid_command(word: &str) -> (r: String)
    ensures
        r@ == invalid_command_text(word@, closest_of(command_names(), word@)),
{
    let mut names: Vec<String> = Vec::new();
    names.push(String::from_str("to-git"));
    names.push(String::from_str("to-sql"));
    names.push(String::from_str("from-git"));
    names.push(String::from_str("from-sql"));
    assert(texts(names@) =~= command_names());
    match closest_string(&names, word) {
        Some(name) => invalid_command_with(word, Some(name.as_str())),
        None => invalid_command_with(word, None),
    }
}

} // verus!
