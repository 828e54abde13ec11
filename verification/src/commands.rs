//! Meta-commands: lines that start with a dot and address the program, not
//! the table.

use vstd::prelude::*;
use crate::errors::Error;

verus! {

/// A meta-command.
#[derive(Debug, Clone, Copy, PartialEq, Eq, Structural)]
pub enum Command {
    /// Leave the program.
    Exit,
}

/// The text of the one meta-command, without its dot.
pub open spec fn exit_word() -> Seq<char> {
    seq!['e', 'x', 'i', 't']
}

impl Command {
    /// Reads a meta-command: a dot, then its name. Anything else is refused
    /// with [`Error::UnrecognizedCommand`].
    pub fn parse(s: &str) -> (r: Result<Command, Error>)
        ensures
            r == if s@ == seq!['.'] + exit_word() {
                Ok::<Command, Error>(Command::Exit)
            } else {
                Err::<Command, Error>(Error::UnrecognizedCommand)
            },
    {
        proof {
            reveal_strlit(".exit");
            assert(".exit"@ =~= seq!['.'] + exit_word());
        }
        if str_eq(s, ".exit") {
            Ok(Command::Exit)
        } else {
            Err(Error::UnrecognizedCommand)
        }
    }
}

impl std::str::FromStr for Command {
    type Err = Error;

    fn from_str(s: &str) -> (r: Result<Self, Self::Err>)
        ensures
            r == if s@ == seq!['.'] + exit_word() {
                Ok::<Command, Error>(Command::Exit)
            } else {
                Err::<Command, Error>(Error::UnrecognizedCommand)
            },
    {
        Command::parse(s)
    }
}

/// Tells whether two strings hold the same characters.
pub fn str_eq(a: &str, b: &str) -> (same: bool)
    ensures
        same == (a@ == b@),
{
    let x = a.as_bytes();
    let y = b.as_bytes();
    proof {
        vstd::slice::axiom_spec_len(x);
        vstd::slice::axiom_spec_len(y);
        vstd::utf8::encode_utf8_decode_utf8(a@);
        vstd::utf8::encode_utf8_decode_utf8(b@);
    }
    if x.len() != y.len() {
        return false;
    }
    let mut i: usize = 0;
    while i < x.len()
        invariant
            i <= x@.len(),
            x@.len() == y@.len(),
            a@ == b@ ==> x@ == y@,
            forall|k: int| 0 <= k < i ==> x@[k] == y@[k],
        decreases x@.len() - i,
    {
        if x[i] != y[i] {
            return false;
        }
        i += 1;
    }
    assert(x@ =~= y@);
    true
}

} // verus!
