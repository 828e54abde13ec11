//! The line-by-line front end: what it greets with, and what it keeps of the
//! lines it was given.

use vstd::prelude::*;
use vstd::string::{StrSliceExecFns, StringExecFns};

verus! {

/// The lines taken so far.
pub struct Repl {
    pub history: Vec<String>,
}

/// The greeting.
pub fn welcome() -> (s: String)
    ensures
        s@ == "Welcome to Sqlite"@,
{
    String::from_str("Welcome to Sqlite")
}

/// The prompt that is shown before a line is read.
pub fn prompt() -> (s: String)
    ensures
        s@ == "sqlite> "@,
{
    String::from_str("sqlite> ")
}

/// `line` without the line feed at its end, if it ends with one.
pub open spec fn without_line_feed(line: Seq<char>) -> Seq<char> {
    if line.len() > 0 && line.last() == '\n' {
        line.drop_last()
    } else {
        line
    }
}

impl Repl {
    /// A front end that has taken no line yet.
    pub fn new() -> (repl: Repl)
        ensures
            repl.history@.len() == 0,
    {
        Repl { history: Vec::new() }
    }

    /// Takes a line as it was read, with the number of bytes that the read
    /// gave. A read of no bytes is the end of the input: nothing is kept and
    /// nothing returned. Else the line goes, without the line feed at its end,
    /// to the history and to the caller.
    pub fn accept(&mut self, line: &str, read_bytes: usize) -> (r: Option<String>)
        ensures
            read_bytes == 0 ==> r is None && final(self).history@ == old(self).history@,
            read_bytes != 0 ==> ({
                &&& r matches Some(taken)
                &&& taken@ == without_line_feed(line@)
                &&& final(self).history@.len() == old(self).history@.len() + 1
                &&& final(self).history@.last()@ == taken@
                &&& final(self).history@.drop_last() == old(self).history@
            }),
    {
        if read_bytes == 0 {
            return None;
        }
        let len = line.unicode_len();
        let taken = if len > 0 && line.get_char(len - 1) == '\n' {
            line.substring_char(0, len - 1)
        } else {
            line
        };
        self.history.push(String::from_str(taken));
        Some(String::from_str(taken))
    }
}

} // verus!
