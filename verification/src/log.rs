//! The command log: lines of commands, each closed by a newline, that only
//! ever grows at its end.
//!
//! The log is kept as the bytes of its file. What was in the file when the
//! log was opened is known to the contracts only; what was appended since
//! is held until the caller takes it to write it out.

use crate::codec::decode;
use crate::codec::decoded;
use crate::codec::encode;
use crate::codec::encoded;
use crate::codec::lemma_round_trip;
use crate::command::Command;
use crate::command::CommandView;
use crate::error::KvError;
use crate::frame::is_control;
use vstd::prelude::*;
use vstd::slice::slice_subrange;

verus! {

/// The byte that closes a line.
pub const NEWLINE: u8 = 0x0a;

/// No byte of `bytes` is a newline.
pub open spec fn unbroken(bytes: Seq<u8>) -> bool {
    forall|i: int| 0 <= i < bytes.len() ==> #[trigger] bytes[i] != NEWLINE
}

/// The line that is still open at the end of `text`: the bytes after its
/// last newline.
pub open spec fn open_line(text: Seq<u8>) -> Seq<u8>
    decreases text.len(),
{
    if text.len() == 0 || text.last() == NEWLINE {
        Seq::empty()
    } else {
        open_line(text.drop_last()).push(text.last())
    }
}

/// The lines of `text` that a newline closes, in order, each without its
/// newline.
pub open spec fn closed_lines(text: Seq<u8>) -> Seq<Seq<u8>>
    decreases text.len(),
{
    if text.len() == 0 {
        Seq::empty()
    } else if text.last() == NEWLINE {
        closed_lines(text.drop_last()).push(open_line(text.drop_last()))
    } else {
        closed_lines(text.drop_last())
    }
}

/// The commands of `lines`, in order, or `None` where one of them is not
/// well-formed.
pub open spec fn decoded_all(lines: Seq<Seq<u8>>) -> Option<Seq<CommandView>>
    decreases lines.len(),
{
    if lines.len() == 0 {
        Some(Seq::empty())
    } else {
        match (decoded_all(lines.drop_last()), decoded(lines.last())) {
            (Some(commands), Some(command)) => Some(commands.push(command)),
            _ => None,
        }
    }
}

/// The commands that a log of these bytes records, in order. `None` where a
/// line is not well-formed, or bytes follow the last newline: a line that no
/// newline closes is no record.
pub open spec fn replayed(text: Seq<u8>) -> Option<Seq<CommandView>> {
    if open_line(text).len() == 0 {
        decoded_all(closed_lines(text))
    } else {
        None
    }
}

/// Bytes without a newline lengthen the open line and close none.
proof fn lemma_append_unbroken(text: Seq<u8>, bytes: Seq<u8>)
    requires
        unbroken(bytes),
    ensures
        open_line(text + bytes) == open_line(text) + bytes,
        closed_lines(text + bytes) == closed_lines(text),
    decreases bytes.len(),
{
    if bytes.len() == 0 {
        assert(text + bytes == text);
        assert(open_line(text) + bytes == open_line(text));
    } else {
        let shorter = bytes.drop_last();
        assert((text + bytes).drop_last() == text + shorter);
        assert((text + bytes).last() == bytes.last());
        lemma_append_unbroken(text, shorter);
        assert((open_line(text) + shorter).push(bytes.last()) == open_line(text) + bytes);
    }
}

/// A line and its newline, appended to a text, close one more line and
/// leave none open.
proof fn lemma_append_line(text: Seq<u8>, line: Seq<u8>)
    requires
        unbroken(line),
    ensures
        open_line(text + line + seq![NEWLINE]).len() == 0,
        closed_lines(text + line + seq![NEWLINE]) == closed_lines(text).push(
            open_line(text) + line,
        ),
{
    let longer = text + line + seq![NEWLINE];
    assert(longer.drop_last() == text + line);
    assert(longer.last() == NEWLINE);
    lemma_append_unbroken(text, line);
}

/// Appending the line of a command to a log that replays makes a log that
/// replays to one command more, after all the others.
pub proof fn lemma_append_replays(text: Seq<u8>, command: CommandView)
    requires
        replayed(text) is Some,
        encoded(command) is Some,
    ensures
        replayed(text + encoded(command).unwrap() + seq![NEWLINE]) == Some(
            replayed(text).unwrap().push(command),
        ),
{
    let line = encoded(command).unwrap();
    lemma_round_trip(command);
    assert(unbroken(line)) by {
        assert forall|i: int| 0 <= i < line.len() implies #[trigger] line[i] != NEWLINE by {
            assert(!is_control(line[i]));
        }
    }
    lemma_append_line(text, line);
    assert(open_line(text) + line == line);
    let lines = closed_lines(text).push(line);
    assert(lines.drop_last() == closed_lines(text));
}

/// Every command of `commands` has a line.
pub open spec fn all_encoded(commands: Seq<CommandView>) -> bool {
    forall|i: int| 0 <= i < commands.len() ==> encoded(#[trigger] commands[i]) is Some
}

/// `text` with the lines of `commands` after it, in order, each closed by
/// its newline.
pub open spec fn extended(text: Seq<u8>, commands: Seq<CommandView>) -> Seq<u8>
    recommends
        all_encoded(commands),
    decreases commands.len(),
{
    if commands.len() == 0 {
        text
    } else {
        extended(text, commands.drop_last()) + encoded(commands.last()).unwrap() + seq![NEWLINE]
    }
}

/// Appending the lines of commands to a log that replays leaves every byte
/// that was there in its place, and makes a log that replays to the
/// commands it had, followed by the new ones.
pub proof fn lemma_extended_replays(text: Seq<u8>, commands: Seq<CommandView>)
    requires
        replayed(text) is Some,
        all_encoded(commands),
    ensures
        text.len() <= extended(text, commands).len(),
        extended(text, commands).take(text.len() as int) == text,
        replayed(extended(text, commands)) == Some(replayed(text).unwrap() + commands),
    decreases commands.len(),
{
    if commands.len() == 0 {
        assert(text.take(text.len() as int) == text);
        assert(replayed(text).unwrap() + commands == replayed(text).unwrap());
    } else {
        let earlier = commands.drop_last();
        let shorter = extended(text, earlier);
        lemma_extended_replays(text, earlier);
        lemma_append_replays(shorter, commands.last());
        assert(extended(text, commands).take(text.len() as int) == shorter.take(
            text.len() as int,
        ));
        assert((replayed(text).unwrap() + earlier).push(commands.last()) == replayed(
            text,
        ).unwrap() + commands);
    }
}

/// A log does not replay once the lines that a part of it closes do not all
/// decode.
proof fn lemma_bad_line_stays(text: Seq<u8>, upto: int)
    requires
        0 <= upto <= text.len(),
        decoded_all(closed_lines(text.take(upto))) is None,
    ensures
        decoded_all(closed_lines(text)) is None,
        replayed(text) is None,
    decreases text.len() - upto,
{
    if upto == text.len() {
        assert(text.take(upto) == text);
    } else {
        let shorter = text.drop_last();
        assert(shorter.take(upto) == text.take(upto));
        lemma_bad_line_stays(shorter, upto);
        if text.last() == NEWLINE {
            let lines = closed_lines(text);
            assert(lines.drop_last() == closed_lines(shorter));
        }
    }
}

/// An append-only log of commands.
pub struct CommandLog {
    /// What the file holds, if the caller wrote all that it took.
    saved: Ghost<Seq<u8>>,
    /// What was appended and not yet taken.
    unsaved: Vec<u8>,
}

impl View for CommandLog {
    type V = Seq<u8>;

    /// All the bytes of the log, in order.
    open spec fn view(&self) -> Seq<u8> {
        self.saved() + self.unsaved()
    }
}

impl CommandLog {
    /// The bytes that the log held when it was opened, followed by all that
    /// was taken from it since: what the file holds, if the caller wrote at
    /// its end all that it took.
    pub closed spec fn saved(&self) -> Seq<u8> {
        self.saved@
    }

    /// The bytes that were appended and not yet taken.
    pub closed spec fn unsaved(&self) -> Seq<u8> {
        self.unsaved@
    }

    /// The log of a file that holds `contents`, placed at its end. A file
    /// that does not exist yet holds nothing.
    pub fn open(contents: &[u8]) -> (log: CommandLog)
        ensures
            log.saved() == contents@,
            log.unsaved() == Seq::<u8>::empty(),
    {
        CommandLog { saved: Ghost(contents@), unsaved: Vec::new() }
    }

    /// Appends the line of `command` and its newline after all that the log
    /// holds. A log that replayed before then replays to one command more.
    /// Where the command cannot be encoded the log stays as it was.
    pub fn append(&mut self, command: &Command) -> (r: Result<(), KvError>)
        ensures
            final(self).saved() == old(self).saved(),
            match r {
                Ok(()) => {
                    &&& encoded(command@) matches Some(line)
                    &&& final(self).unsaved() == old(self).unsaved() + line + seq![NEWLINE]
                    &&& final(self)@ == old(self)@ + line + seq![NEWLINE]
                    &&& replayed(old(self)@) matches Some(earlier) ==> replayed(final(self)@)
                        == Some(earlier.push(command@))
                },
                Err(e) => {
                    &&& e == KvError::SerdeError
                    &&& encoded(command@) is None
                    &&& final(self).unsaved() == old(self).unsaved()
                },
            },
    {
        let line = encode(command)?;
        self.unsaved.extend_from_slice(line.as_slice());
        self.unsaved.push(NEWLINE);
        proof {
            assert(final(self)@ == old(self)@ + line@ + seq![NEWLINE]);
            if replayed(old(self)@) is Some {
                lemma_append_replays(old(self)@, command@);
            }
        }
        Ok(())
    }

    /// Hands out what was appended since the log was opened or last taken
    /// from, for the caller to write it at the end of the file. The log
    /// itself is the same after as before.
    pub fn take_unsaved(&mut self) -> (bytes: Vec<u8>)
        ensures
            bytes@ == old(self).unsaved(),
            final(self).saved() == old(self).saved() + old(self).unsaved(),
            final(self).unsaved() == Seq::<u8>::empty(),
            final(self)@ == old(self)@,
    {
        let mut bytes: Vec<u8> = Vec::new();
        std::mem::swap(&mut bytes, &mut self.unsaved);
        proof {
            self.saved@ = self.saved@ + bytes@;
        }
        bytes
    }

    /// Reads the commands of a log that holds `contents`, in order.
    pub fn replay(contents: &[u8]) -> (r: Result<Vec<Command>, KvError>)
        ensures
            match r {
                Ok(commands) => replayed(contents@) == Some(commands.deep_view()),
                Err(e) => e == KvError::SerdeError && replayed(contents@) is None,
            },
    {
        let mut commands: Vec<Command> = Vec::new();
        let mut start: usize = 0;
        let mut i: usize = 0;
        assert(contents@.take(0) == Seq::<u8>::empty());
        assert(commands.deep_view() == Seq::<CommandView>::empty());
        while i < contents.len()
            invariant
                start <= i <= contents.len(),
                open_line(contents@.take(i as int)) == contents@.subrange(start as int, i as int),
                decoded_all(closed_lines(contents@.take(i as int))) == Some(commands.deep_view()),
            decreases contents.len() - i,
        {
            let ghost before = contents@.take(i as int);
            let ghost after = contents@.take(i + 1);
            assert(after.drop_last() == before);
            assert(after.last() == contents@[i as int]);
            if contents[i] == NEWLINE {
                let line = slice_subrange(contents, start, i);
                let ghost lines = closed_lines(after);
                assert(lines.drop_last() == closed_lines(before));
                assert(lines.last() == line@);
                match decode(line) {
                    Ok(command) => {
                        let ghost earlier = commands.deep_view();
                        commands.push(command);
                        assert(commands.deep_view() == earlier.push(command@));
                        start = i + 1;
                        assert(contents@.subrange(start as int, i + 1) == Seq::<u8>::empty());
                    },
                    Err(e) => {
                        proof {
                            lemma_bad_line_stays(contents@, i + 1);
                        }
                        return Err(e);
                    },
                }
            } else {
                assert(contents@.subrange(start as int, i + 1) == contents@.subrange(
                    start as int,
                    i as int,
                ).push(contents@[i as int]));
            }
            i += 1;
        }
        assert(contents@.take(i as int) == contents@);
        if start < i {
            return Err(KvError::SerdeError);
        }
        Ok(commands)
    }
}

} // verus!
