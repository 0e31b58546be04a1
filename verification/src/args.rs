//! The command line: which server to ask and where to put the payload.

use crate::text::same_text;
use vstd::prelude::*;
use vstd::string::StringExecFns;

verus! {

/// What a run needs to know: the server's address and the path of the output.
#[derive(Debug, PartialEq, Eq)]
pub struct Args {
    pub address: String,
    pub output: String,
}

/// What the command line asks for.
#[derive(Debug, PartialEq, Eq)]
pub enum Invocation {
    /// Fetch the payload with these settings.
    Transfer(Args),
    /// Print the usage and do nothing else.
    Help,
}

/// Why a command line is refused.
#[derive(Debug, PartialEq, Eq)]
pub enum ArgError {
    /// `-a` is the last word: no address follows it.
    MissingAddress,
    /// `-o` is the last word: no path follows it.
    MissingPath,
    /// A word that is no flag and no flag's value.
    UnknownArgument(String),
}

/// What reading a command line comes to, over the words as plain text.
pub enum Reading {
    Transfer { address: Seq<char>, output: Seq<char> },
    Help,
    MissingAddress,
    MissingPath,
    UnknownArgument(Seq<char>),
}

/// The address used where `-a` does not give one.
pub open spec fn default_address() -> Seq<char> {
    "127.0.0.1:8080"@
}

/// The output path used where `-o` does not give one.
pub open spec fn default_output() -> Seq<char> {
    "data"@
}

/// Reads `words` from left to right, starting from the settings `address` and
/// `output`.  `-a` and `-o` take the next word as their value, a later value
/// replacing an earlier one; `-h` ends the reading at once, as does the first
/// word that cannot be read.
pub open spec fn read_words(words: Seq<Seq<char>>, address: Seq<char>, output: Seq<char>) -> Reading
    decreases words.len(),
{
    if words.len() == 0 {
        Reading::Transfer { address, output }
    } else if words[0] == "-a"@ {
        if words.len() >= 2 {
            read_words(words.skip(2), words[1], output)
        } else {
            Reading::MissingAddress
        }
    } else if words[0] == "-o"@ {
        if words.len() >= 2 {
            read_words(words.skip(2), address, words[1])
        } else {
            Reading::MissingPath
        }
    } else if words[0] == "-h"@ {
        Reading::Help
    } else {
        Reading::UnknownArgument(words[0])
    }
}

/// The words of a command line as plain text.
pub open spec fn words_of(args: Seq<String>) -> Seq<Seq<char>> {
    Seq::new(args.len(), |i: int| args[i]@)
}

/// What `result` says, as a [`Reading`].
pub open spec fn reading_of(result: Result<Invocation, ArgError>) -> Reading {
    match result {
        Ok(Invocation::Transfer(a)) => Reading::Transfer { address: a.address@, output: a.output@ },
        Ok(Invocation::Help) => Reading::Help,
        Err(ArgError::MissingAddress) => Reading::MissingAddress,
        Err(ArgError::MissingPath) => Reading::MissingPath,
        Err(ArgError::UnknownArgument(w)) => Reading::UnknownArgument(w@),
    }
}

/// Reads the words that follow the program's name on the command line.
pub fn parse_args(args: &Vec<String>) -> (res: Result<Invocation, ArgError>)
    ensures
        reading_of(res) == read_words(words_of(args@), default_address(), default_output()),
{
    let mut address = String::from_str("127.0.0.1:8080");
    let mut output = String::from_str("data");
    let ghost words = words_of(args@);
    let mut i: usize = 0;
    assert(words.skip(0) =~= words);
    while i < args.len()
        invariant
            i <= args.len(),
            words == words_of(args@),
            read_words(words, default_address(), default_output()) == read_words(
                words.skip(i as int),
                address@,
                output@,
            ),
        decreases args.len() - i,
    {
        let ghost rest = words.skip(i as int);
        assert(rest[0] == args@[i as int]@);
        let word = args[i].as_str();
        if same_text(word, "-a") {
            if i + 1 < args.len() {
                address = args[i + 1].clone();
                assert(rest[1] == address@);
                assert(rest.skip(2) =~= words.skip(i + 2));
                i += 2;
            } else {
                return Err(ArgError::MissingAddress);
            }
        } else if same_text(word, "-o") {
            if i + 1 < args.len() {
                output = args[i + 1].clone();
                assert(rest[1] == output@);
                assert(rest.skip(2) =~= words.skip(i + 2));
                i += 2;
            } else {
                return Err(ArgError::MissingPath);
            }
        } else if same_text(word, "-h") {
            return Ok(Invocation::Help);
        } else {
            return Err(ArgError::UnknownArgument(args[i].clone()));
        }
    }
    Ok(Invocation::Transfer(Args { address, output }))
}

} // verus!
