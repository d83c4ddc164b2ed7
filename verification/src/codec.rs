//! Commands to lines and back.
//!
//! The strings of a command are quoted as JSON string literals and set into
//! the frame of the line. A line is handed out only after its tokens were
//! read back: each is one whole string token, and stands for the string it
//! was made from. So every line that is handed out decodes to its command.

use crate::command::Command;
use crate::command::CommandView;
use crate::error::KvError;
use crate::frame::lemma_framed_line;
use crate::frame::lemma_line_printable;
use crate::frame::framed;
use crate::frame::is_sealed;
use crate::frame::line_of;
use crate::frame::printable;
use crate::frame::sealed;
use crate::frame::Frame;
use crate::frame::FrameView;
use crate::json::json_quoted;
use crate::json::json_unquoted;
use crate::json::quote;
use crate::json::unquote;
use vstd::prelude::*;

verus! {

/// The string token for `text` in a line: its JSON string literal, where
/// that is one whole string token and stands for `text` again.
pub open spec fn quoted(text: Seq<char>) -> Option<Seq<u8>> {
    match json_quoted(text) {
        Some(token) => if sealed(token) && json_unquoted(token) == Some(text) {
            Some(token)
        } else {
            None
        },
        None => None,
    }
}

/// The line of `command`, or `None` where one of its strings has no token.
pub open spec fn encoded(command: CommandView) -> Option<Seq<u8>> {
    match command {
        CommandView::Put { key, value } => match (quoted(key), quoted(value)) {
            (Some(k), Some(v)) => Some(line_of(FrameView::Put { key: k, value: v })),
            _ => None,
        },
        CommandView::Remove { key } => match quoted(key) {
            Some(k) => Some(line_of(FrameView::Remove { key: k })),
            None => None,
        },
    }
}

/// The command that `line` is a line of, or `None` where it is not
/// well-formed: it has no frame, or one of its tokens is no JSON string
/// literal.
pub open spec fn decoded(line: Seq<u8>) -> Option<CommandView> {
    match framed(line) {
        Some(FrameView::Put { key, value }) => match (json_unquoted(key), json_unquoted(value)) {
            (Some(k), Some(v)) => Some(CommandView::Put { key: k, value: v }),
            _ => None,
        },
        Some(FrameView::Remove { key }) => match json_unquoted(key) {
            Some(k) => Some(CommandView::Remove { key: k }),
            None => None,
        },
        None => None,
    }
}

/// Decoding undoes encoding: the line of a command is read back as that
/// command, and holds no byte below the space, so no newline.
pub proof fn lemma_round_trip(command: CommandView)
    ensures
        encoded(command) matches Some(line) ==> decoded(line) == Some(command) && printable(line),
{
    if encoded(command) is Some {
        let frame = match command {
            CommandView::Put { key, value } => FrameView::Put {
                key: quoted(key).unwrap(),
                value: quoted(value).unwrap(),
            },
            CommandView::Remove { key } => FrameView::Remove { key: quoted(key).unwrap() },
        };
        lemma_framed_line(frame);
        lemma_line_printable(frame);
    }
}

/// Quotes `text` and reads the token back.
pub fn quote_checked(text: &String) -> (r: Result<Vec<u8>, KvError>)
    ensures
        match r {
            Ok(token) => quoted(text@) == Some(token@),
            Err(e) => e == KvError::SerdeError && quoted(text@) is None,
        },
{
    let token = match quote(text.as_str()) {
        Ok(token) => token,
        Err(e) => { return Err(KvError::from(e)); },
    };
    if !is_sealed(token.as_slice()) {
        return Err(KvError::SerdeError);
    }
    match unquote(token.as_slice()) {
        Ok(back) => {
            if back == *text {
                Ok(token)
            } else {
                Err(KvError::SerdeError)
            }
        },
        Err(e) => Err(KvError::from(e)),
    }
}

/// Writes the line of `command`, without a newline. The line decodes to
/// `command` again and holds no byte below the space.
pub fn encode(command: &Command) -> (r: Result<Vec<u8>, KvError>)
    ensures
        match r {
            Ok(line) => {
                &&& encoded(command@) == Some(line@)
                &&& decoded(line@) == Some(command@)
                &&& printable(line@)
            },
            Err(e) => e == KvError::SerdeError && encoded(command@) is None,
        },
{
    proof {
        lemma_round_trip(command@);
    }
    let frame = match command {
        Command::Put { key, value } => {
            let key = quote_checked(key)?;
            let value = quote_checked(value)?;
            Frame::Put { key, value }
        },
        Command::Remove { key } => {
            let key = quote_checked(key)?;
            Frame::Remove { key }
        },
    };
    Ok(frame.compose())
}

/// Reads `line` as the line of a command.
pub fn decode(line: &[u8]) -> (r: Result<Command, KvError>)
    ensures
        match r {
            Ok(command) => decoded(line@) == Some(command@),
            Err(e) => e == KvError::SerdeError && decoded(line@) is None,
        },
{
    match Frame::parse(line) {
        Some(Frame::Put { key, value }) => {
            let key = match unquote(key.as_slice()) {
                Ok(key) => key,
                Err(e) => { return Err(KvError::from(e)); },
            };
            let value = match unquote(value.as_slice()) {
                Ok(value) => value,
                Err(e) => { return Err(KvError::from(e)); },
            };
            Ok(Command::Put { key, value })
        },
        Some(Frame::Remove { key }) => {
            match unquote(key.as_slice()) {
                Ok(key) => Ok(Command::Remove { key }),
                Err(e) => Err(KvError::from(e)),
            }
        },
        None => Err(KvError::SerdeError),
    }
}

} // verus!
