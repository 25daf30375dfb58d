//! The framing of an engine's replies in the text protocol: a reply is the
//! lines up to the first blank line after it began, and its first character
//! tells success from failure.

use vstd::prelude::*;
use vstd::string::StrSliceExecFns;
use vstd::string::StringExecFns;
use crate::text::{strip, stripped};

verus! {

/// The reply of an engine to a command: whether the engine succeeded, and
/// what it said.
#[derive(Clone, Debug, PartialEq, Eq)]
pub struct GtpResponse {
    pub success: bool,
    pub text: String,
}

/// The reply gathered so far once one more line was read: a blank line
/// adds nothing, any other line is added whole.
pub open spec fn gathered(response: Seq<char>, line: Seq<char>) -> Seq<char> {
    if stripped(line, false).len() == 0 {
        response
    } else {
        response + line
    }
}

/// The line ends the reply: it is blank and the reply has begun.
pub open spec fn ends_reply(response: Seq<char>, line: Seq<char>) -> bool {
    stripped(line, false).len() == 0 && response.len() > 0
}

/// The reply reports success: every reply does but one that begins with a
/// question mark.
pub open spec fn reply_succeeds(response: Seq<char>) -> bool {
    !(response.len() > 0 && response[0] == '?')
}

/// What a reply says: the reply without its leading `=` or `?` and without
/// the white space around the rest.
pub open spec fn reply_text(response: Seq<char>) -> Seq<char> {
    if response.len() > 0 && (response[0] == '=' || response[0] == '?') {
        stripped(response.skip(1), false)
    } else {
        stripped(response, false)
    }
}

/// Takes one line read from the engine into the reply gathered so far.
/// Tells whether the reply is complete.
pub fn take_line(response: &mut String, line: &str) -> (done: bool)
    ensures
        final(response)@ == gathered(old(response)@, line@),
        done == ends_reply(old(response)@, line@),
{
    if strip(line, false).unicode_len() == 0 {
        response.as_str().unicode_len() > 0
    } else {
        response.append(line);
        false
    }
}

/// Reads a complete reply.
pub fn read_reply(response: &str) -> (reply: GtpResponse)
    ensures
        reply.success == reply_succeeds(response@),
        reply.text@ == reply_text(response@),
{
    let n = response.unicode_len();
    if n > 0 {
        let first = response.get_char(0);
        if first == '=' || first == '?' {
            let rest = response.substring_char(1, n);
            return GtpResponse {
                success: first == '=',
                text: String::from_str(strip(rest, false)),
            };
        }
    }
    GtpResponse { success: true, text: String::from_str(strip(response, false)) }
}

} // verus!
