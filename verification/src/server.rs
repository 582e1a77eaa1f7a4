//! The decisions of a client session: what a received line asks for, and
//! the line that answers it.

use vstd::prelude::*;

use crate::db_error::{known_message, DbError, ErrorView};
use crate::text::{push_char, trim, trim_whitespace};

verus! {

/// What a read from the client asks the session to do.
#[derive(Debug)]
pub enum ClientInput {
    /// The client closed the connection.
    Disconnect,
    /// A blank line: nothing to run.
    Skip,
    /// A command line, trimmed.
    Command(String),
}

/// Reads what the client sent: nothing read means the client left; a line
/// that is only white space is skipped; else the trimmed line is a command.
pub fn client_input(bytes_read: usize, line: &str) -> (r: ClientInput)
    ensures
        bytes_read == 0 ==> r is Disconnect,
        bytes_read != 0 && trim(line@).len() == 0 ==> r is Skip,
        bytes_read != 0 && trim(line@).len() != 0 ==> (r matches ClientInput::Command(c) && c@
            == trim(line@)),
{
    if bytes_read == 0 {
        return ClientInput::Disconnect;
    }
    let trimmed = trim_whitespace(line);
    if trimmed.as_str().unicode_len() == 0 {
        ClientInput::Skip
    } else {
        ClientInput::Command(trimmed)
    }
}

/// The line sent back for a command's answer: the answer itself, or
/// `ERROR: ` and the error's message; ended by a line break.
pub fn reply_line(answer: &Result<String, DbError>) -> (r: String)
    ensures
        answer matches Ok(s) ==> r@ == s@.push('\n'),
        answer matches Err(e) ==> (known_message(e@) matches Some(m) ==> r@ == ("ERROR: "@
            + m).push('\n')),
        answer matches Err(e) ==> (e@ is Io ==> exists|t: Seq<char>|
            r@ == ("ERROR: "@ + "I/O Error Occured: "@ + t).push('\n')),
{
    match answer {
        Ok(s) => {
            let mut r = s.clone();
            push_char(&mut r, '\n');
            r
        },
        Err(e) => {
            let mut r = "ERROR: ".to_owned();
            let m = e.message();
            r.append(m.as_str());
            push_char(&mut r, '\n');
            assert(r@ =~= ("ERROR: "@ + m@).push('\n'));
            proof {
                if e@ is Io {
                    let t = choose|t: Seq<char>| m@ == "I/O Error Occured: "@ + t;
                    assert(r@ =~= ("ERROR: "@ + "I/O Error Occured: "@ + t).push('\n'));
                }
            }
            r
        },
    }
}

} // verus!
