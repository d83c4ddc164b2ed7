//! The line of a command: fixed marks around one or two string tokens.
//!
//! A `Put` is written
//! `{"command":"Set","key":<key>,"value":<value>}` and a `Remove`
//! `{"command":"Remove","key":<key>}`, where `<key>` and `<value>` are
//! string tokens: a quote, a body in which a backslash escapes the byte after
//! it, and the first quote that no backslash escapes. No byte below the space
//! occurs in a line, so a line never holds a newline.

use vstd::prelude::*;
use vstd::slice::slice_subrange;
use vstd::slice::slice_to_vec;
use vstd::string::is_ascii;
use vstd::string::StringSliceAdditionalSpecFns;

verus! {

/// The quote that opens and closes a string token.
pub const QUOTE: u8 = 0x22;

/// The backslash that escapes the byte after it inside a string token.
pub const BACKSLASH: u8 = 0x5c;

/// How the line of a `Put` begins, up to its key. Its tag is `Set`.
pub const PUT_HEAD: &'static str = "{\"command\":\"Set\",\"key\":";

/// How the line of a `Remove` begins, up to its key.
pub const REMOVE_HEAD: &'static str = "{\"command\":\"Remove\",\"key\":";

/// What stands between the key and the value of a `Put`.
pub const VALUE_MARK: &'static str = ",\"value\":";

/// How every line ends.
pub const TAIL: &'static str = "}";

/// A byte below the space. None may stand in a line.
pub open spec fn is_control(byte: u8) -> bool {
    byte < 0x20
}

/// No byte of `bytes` is below the space.
pub open spec fn printable(bytes: Seq<u8>) -> bool {
    forall|i: int| 0 <= i < bytes.len() ==> !is_control(#[trigger] bytes[i])
}

/// `mark` stands in `line` at index `at`.
pub open spec fn has_mark(line: Seq<u8>, at: int, mark: Seq<u8>) -> bool {
    &&& 0 <= at
    &&& at + mark.len() <= line.len()
    &&& line.subrange(at, at + mark.len()) == mark
}

/// Where the body of a string token ends when it is read from index `at` on:
/// the index just past the first quote that no backslash escapes. `None`
/// where the line ends before that quote, or a byte below the space comes
/// first.
pub open spec fn body_end(line: Seq<u8>, at: int) -> Option<int>
    decreases line.len() - at,
{
    if at < 0 || at >= line.len() {
        None
    } else if line[at] == QUOTE {
        Some(at + 1)
    } else if is_control(line[at]) {
        None
    } else if line[at] == BACKSLASH {
        if at + 1 < line.len() && !is_control(line[at + 1]) {
            body_end(line, at + 2)
        } else {
            None
        }
    } else {
        body_end(line, at + 1)
    }
}

/// Where the string token that opens at index `at` ends: the index just past
/// its closing quote. `None` where no token opens there, or it does not
/// close.
pub open spec fn token_end(line: Seq<u8>, at: int) -> Option<int> {
    if 0 <= at < line.len() && line[at] == QUOTE {
        body_end(line, at + 1)
    } else {
        None
    }
}

/// `token` is one whole string token: it opens at its first byte and closes
/// at its last.
pub open spec fn sealed(token: Seq<u8>) -> bool {
    token_end(token, 0) == Some(token.len() as int)
}

/// What a line holds: the string tokens of a command, still quoted.
pub enum FrameView {
    Put { key: Seq<u8>, value: Seq<u8> },
    Remove { key: Seq<u8> },
}

/// The string tokens of one line, still quoted.
#[derive(Debug, PartialEq, Eq)]
pub enum Frame {
    Put { key: Vec<u8>, value: Vec<u8> },
    Remove { key: Vec<u8> },
}

impl View for Frame {
    type V = FrameView;

    open spec fn view(&self) -> FrameView {
        match self {
            Frame::Put { key, value } => FrameView::Put { key: key@, value: value@ },
            Frame::Remove { key } => FrameView::Remove { key: key@ },
        }
    }
}

/// Every token of `frame` is one whole string token.
pub open spec fn well_sealed(frame: FrameView) -> bool {
    match frame {
        FrameView::Put { key, value } => sealed(key) && sealed(value),
        FrameView::Remove { key } => sealed(key),
    }
}

/// The line of `frame`.
pub open spec fn line_of(frame: FrameView) -> Seq<u8> {
    match frame {
        FrameView::Put { key, value } => PUT_HEAD.spec_bytes() + key + VALUE_MARK.spec_bytes()
            + value + TAIL.spec_bytes(),
        FrameView::Remove { key } => REMOVE_HEAD.spec_bytes() + key + TAIL.spec_bytes(),
    }
}

/// The frame of a line that begins as a `Put` does.
pub open spec fn framed_put(line: Seq<u8>) -> Option<FrameView> {
    let key_at = PUT_HEAD.spec_bytes().len() as int;
    match token_end(line, key_at) {
        Some(key_end) => {
            let value_at = key_end + VALUE_MARK.spec_bytes().len();
            if has_mark(line, key_end, VALUE_MARK.spec_bytes()) {
                match token_end(line, value_at) {
                    Some(value_end) => {
                        if has_mark(line, value_end, TAIL.spec_bytes()) && value_end
                            + TAIL.spec_bytes().len() == line.len() {
                            Some(
                                FrameView::Put {
                                    key: line.subrange(key_at, key_end),
                                    value: line.subrange(value_at, value_end),
                                },
                            )
                        } else {
                            None
                        }
                    },
                    None => None,
                }
            } else {
                None
            }
        },
        None => None,
    }
}

/// The frame of a line that begins as a `Remove` does.
pub open spec fn framed_remove(line: Seq<u8>) -> Option<FrameView> {
    let key_at = REMOVE_HEAD.spec_bytes().len() as int;
    match token_end(line, key_at) {
        Some(key_end) => {
            if has_mark(line, key_end, TAIL.spec_bytes()) && key_end + TAIL.spec_bytes().len()
                == line.len() {
                Some(FrameView::Remove { key: line.subrange(key_at, key_end) })
            } else {
                None
            }
        },
        None => None,
    }
}

/// The frame that `line` is the line of, or `None` where it is the line of
/// none.
pub open spec fn framed(line: Seq<u8>) -> Option<FrameView> {
    if has_mark(line, 0, PUT_HEAD.spec_bytes()) {
        framed_put(line)
    } else if has_mark(line, 0, REMOVE_HEAD.spec_bytes()) {
        framed_remove(line)
    } else {
        None
    }
}

/// What the four marks hold, as far as the proofs below need it.
proof fn lemma_marks()
    ensures
        PUT_HEAD.spec_bytes().len() == 23,
        REMOVE_HEAD.spec_bytes().len() == 26,
        VALUE_MARK.spec_bytes().len() == 9,
        TAIL.spec_bytes().len() == 1,
        PUT_HEAD.spec_bytes()[12] != REMOVE_HEAD.spec_bytes()[12],
        printable(PUT_HEAD.spec_bytes()),
        printable(REMOVE_HEAD.spec_bytes()),
        printable(VALUE_MARK.spec_bytes()),
        printable(TAIL.spec_bytes()),
{
    broadcast use vstd::string::is_ascii_spec_bytes;

    reveal_strlit("{\"command\":\"Set\",\"key\":");
    reveal_strlit("{\"command\":\"Remove\",\"key\":");
    reveal_strlit(",\"value\":");
    reveal_strlit("}");
    assert(is_ascii(PUT_HEAD) && is_ascii(REMOVE_HEAD) && is_ascii(VALUE_MARK) && is_ascii(TAIL));
}

/// A body that ends does so inside the line, at a quote, and past bytes of
/// which none is below the space.
proof fn lemma_body_end(line: Seq<u8>, at: int)
    requires
        body_end(line, at) is Some,
    ensures
        0 <= at < body_end(line, at).unwrap() <= line.len(),
        line[body_end(line, at).unwrap() - 1] == QUOTE,
        printable(line.subrange(at, body_end(line, at).unwrap())),
    decreases line.len() - at,
{
    let end = body_end(line, at).unwrap();
    if line[at] == QUOTE {
    } else if line[at] == BACKSLASH {
        lemma_body_end(line, at + 2);
        assert forall|i: int| 0 <= i < end - at implies !is_control(
            #[trigger] line.subrange(at, end)[i],
        ) by {
            if i >= 2 {
                assert(line.subrange(at, end)[i] == line.subrange(at + 2, end)[i - 2]);
            }
        }
    } else {
        lemma_body_end(line, at + 1);
        assert forall|i: int| 0 <= i < end - at implies !is_control(
            #[trigger] line.subrange(at, end)[i],
        ) by {
            if i >= 1 {
                assert(line.subrange(at, end)[i] == line.subrange(at + 1, end)[i - 1]);
            }
        }
    }
}

/// Reading a body depends on no byte before it and on none after its end:
/// a body that ends with `token` ends at the same byte wherever `token`
/// stands in a line.
proof fn lemma_body_end_within(before: Seq<u8>, token: Seq<u8>, after: Seq<u8>, at: int)
    requires
        body_end(token, at) == Some(token.len() as int),
    ensures
        body_end(before + token + after, before.len() + at) == Some(
            (before.len() + token.len()) as int,
        ),
    decreases token.len() - at,
{
    let line = before + token + after;
    assert(0 <= at < token.len());
    assert(line[before.len() + at] == token[at]);
    if token[at] == QUOTE {
    } else if token[at] == BACKSLASH {
        assert(line[before.len() + at + 1] == token[at + 1]);
        lemma_body_end_within(before, token, after, at + 2);
    } else {
        lemma_body_end_within(before, token, after, at + 1);
    }
}

/// A whole string token is read as one wherever it stands in a line.
proof fn lemma_token_within(before: Seq<u8>, token: Seq<u8>, after: Seq<u8>)
    requires
        sealed(token),
    ensures
        token_end(before + token + after, before.len() as int) == Some(
            (before.len() + token.len()) as int,
        ),
        (before + token + after).subrange(
            before.len() as int,
            (before.len() + token.len()) as int,
        ) == token,
{
    let line = before + token + after;
    assert(line[before.len() as int] == token[0]);
    lemma_body_end_within(before, token, after, 1);
}

/// The line of a frame of whole tokens is read back as that frame.
pub proof fn lemma_framed_line(frame: FrameView)
    requires
        well_sealed(frame),
    ensures
        framed(line_of(frame)) == Some(frame),
{
    lemma_marks();
    let line = line_of(frame);
    let tail = TAIL.spec_bytes();
    match frame {
        FrameView::Put { key, value } => {
            let head = PUT_HEAD.spec_bytes();
            let mark = VALUE_MARK.spec_bytes();
            assert(line.subrange(0, head.len() as int) == head);
            assert(line == head + key + (mark + value + tail));
            lemma_token_within(head, key, mark + value + tail);
            let key_end = (head.len() + key.len()) as int;
            assert(line.subrange(key_end, key_end + mark.len()) == mark);
            assert(line == (head + key + mark) + value + tail);
            lemma_token_within(head + key + mark, value, tail);
            let value_end = key_end + mark.len() + value.len();
            assert(line.subrange(value_end, value_end + tail.len()) == tail);
        },
        FrameView::Remove { key } => {
            let head = REMOVE_HEAD.spec_bytes();
            assert(line.subrange(0, head.len() as int) == head);
            assert(line[12] == head[12]);
            assert(!has_mark(line, 0, PUT_HEAD.spec_bytes())) by {
                if has_mark(line, 0, PUT_HEAD.spec_bytes()) {
                    assert(line.subrange(0, 23)[12] == PUT_HEAD.spec_bytes()[12]);
                }
            }
            lemma_token_within(head, key, tail);
            let key_end = (head.len() + key.len()) as int;
            assert(line.subrange(key_end, key_end + tail.len()) == tail);
        },
    }
}

/// A token that is read in a line is a whole string token when it is taken
/// out of the line.
proof fn lemma_token_alone(line: Seq<u8>, at: int)
    requires
        token_end(line, at) is Some,
    ensures
        0 <= at < token_end(line, at).unwrap() <= line.len(),
        sealed(line.subrange(at, token_end(line, at).unwrap())),
{
    lemma_body_end(line, at + 1);
    lemma_body_end_alone(line, at, at + 1);
}

/// Reading a body depends on no byte before it and on none after its end:
/// it ends at the same byte when the line is cut down to the bytes from
/// `start` to that end.
proof fn lemma_body_end_alone(line: Seq<u8>, start: int, at: int)
    requires
        0 <= start <= at,
        body_end(line, at) is Some,
    ensures
        body_end(line.subrange(start, body_end(line, at).unwrap()), at - start) == Some(
            body_end(line, at).unwrap() - start,
        ),
    decreases line.len() - at,
{
    let end = body_end(line, at).unwrap();
    let cut = line.subrange(start, end);
    lemma_body_end(line, at);
    assert(cut[at - start] == line[at]);
    if line[at] == QUOTE {
    } else if line[at] == BACKSLASH {
        lemma_body_end(line, at + 2);
        assert(cut[at + 1 - start] == line[at + 1]);
        lemma_body_end_alone(line, start, at + 2);
    } else {
        lemma_body_end_alone(line, start, at + 1);
    }
}

/// A line that has a frame is the line of that frame, and the tokens of the
/// frame are whole string tokens. With `lemma_framed_line`: `framed(line)`
/// is `frame` exactly when `frame` is made of whole tokens and `line` is its
/// line.
pub proof fn lemma_frame_spells_line(line: Seq<u8>)
    requires
        framed(line) is Some,
    ensures
        well_sealed(framed(line).unwrap()),
        line_of(framed(line).unwrap()) == line,
{
    lemma_marks();
    let tail = TAIL.spec_bytes();
    if has_mark(line, 0, PUT_HEAD.spec_bytes()) {
        let head = PUT_HEAD.spec_bytes();
        let mark = VALUE_MARK.spec_bytes();
        let key_at = head.len() as int;
        lemma_token_alone(line, key_at);
        let key_end = token_end(line, key_at).unwrap();
        let value_at = key_end + mark.len();
        lemma_token_alone(line, value_at);
        let value_end = token_end(line, value_at).unwrap();
        assert(line =~= head + line.subrange(key_at, key_end) + mark + line.subrange(
            value_at,
            value_end,
        ) + tail) by {
            assert(head == line.subrange(0, key_at));
            assert(mark == line.subrange(key_end, value_at));
            assert(tail == line.subrange(value_end, line.len() as int));
        }
    } else {
        let head = REMOVE_HEAD.spec_bytes();
        let key_at = head.len() as int;
        lemma_token_alone(line, key_at);
        let key_end = token_end(line, key_at).unwrap();
        assert(line =~= head + line.subrange(key_at, key_end) + tail) by {
            assert(head == line.subrange(0, key_at));
            assert(tail == line.subrange(key_end, line.len() as int));
        }
    }
}

/// The line of a frame of whole tokens holds no byte below the space, and
/// so no newline.
pub proof fn lemma_line_printable(frame: FrameView)
    requires
        well_sealed(frame),
    ensures
        printable(line_of(frame)),
{
    lemma_marks();
    match frame {
        FrameView::Put { key, value } => {
            lemma_sealed_printable(key);
            lemma_sealed_printable(value);
        },
        FrameView::Remove { key } => {
            lemma_sealed_printable(key);
        },
    }
}

/// A whole string token holds no byte below the space.
proof fn lemma_sealed_printable(token: Seq<u8>)
    requires
        sealed(token),
    ensures
        printable(token),
{
    lemma_body_end(token, 1);
    assert forall|i: int| 0 <= i < token.len() implies !is_control(#[trigger] token[i]) by {
        if i >= 1 {
            assert(token[i] == token.subrange(1, token.len() as int)[i - 1]);
        }
    }
}

/// Whether the bytes of `mark` stand in `line` at index `at`.
pub fn match_mark(line: &[u8], at: usize, mark: &str) -> (found: bool)
    ensures
        found == has_mark(line@, at as int, mark.spec_bytes()),
{
    let bytes = mark.as_bytes();
    if at > line.len() || bytes.len() > line.len() - at {
        return false;
    }
    let mut i: usize = 0;
    while i < bytes.len()
        invariant
            i <= bytes.len(),
            at + bytes.len() <= line.len(),
            bytes@ == mark.spec_bytes(),
            line@.subrange(at as int, at + i) == bytes@.take(i as int),
        decreases bytes.len() - i,
    {
        if line[at + i] != bytes[i] {
            assert(line@.subrange(at as int, at + bytes.len())[i as int] != bytes@[i as int]);
            return false;
        }
        assert(line@.subrange(at as int, at + i + 1) == line@.subrange(at as int, at + i).push(
            line@[at + i],
        ));
        assert(bytes@.take(i + 1) == bytes@.take(i as int).push(bytes@[i as int]));
        i += 1;
    }
    assert(bytes@.take(bytes.len() as int) == bytes@);
    true
}

/// Reads the string token that opens at index `at`, and returns the index
/// just past its closing quote.
pub fn scan_token(line: &[u8], at: usize) -> (end: Option<usize>)
    ensures
        match end {
            Some(e) => token_end(line@, at as int) == Some(e as int),
            None => token_end(line@, at as int) is None,
        },
{
    if at >= line.len() || line[at] != QUOTE {
        return None;
    }
    let mut i: usize = at + 1;
    while i < line.len()
        invariant
            at < i <= line.len(),
            body_end(line@, i as int) == token_end(line@, at as int),
        decreases line.len() - i,
    {
        let byte = line[i];
        if byte == QUOTE {
            return Some(i + 1);
        } else if byte < 0x20 {
            return None;
        } else if byte == BACKSLASH {
            if i + 1 < line.len() && line[i + 1] >= 0x20 {
                i += 2;
            } else {
                return None;
            }
        } else {
            i += 1;
        }
    }
    None
}

/// Whether `token` is one whole string token.
pub fn is_sealed(token: &[u8]) -> (whole: bool)
    ensures
        whole == sealed(token@),
{
    match scan_token(token, 0) {
        Some(end) => end == token.len(),
        None => false,
    }
}

impl Frame {
    /// Writes the line of this frame.
    pub fn compose(&self) -> (line: Vec<u8>)
        ensures
            line@ == line_of(self@),
    {
        proof {
            lemma_marks();
        }
        let mut line: Vec<u8> = Vec::new();
        match self {
            Frame::Put { key, value } => {
                line.extend_from_slice(PUT_HEAD.as_bytes());
                line.extend_from_slice(key.as_slice());
                line.extend_from_slice(VALUE_MARK.as_bytes());
                line.extend_from_slice(value.as_slice());
            },
            Frame::Remove { key } => {
                line.extend_from_slice(REMOVE_HEAD.as_bytes());
                line.extend_from_slice(key.as_slice());
            },
        }
        line.extend_from_slice(TAIL.as_bytes());
        line
    }

    /// Reads `line` as the line of a frame. The frame that comes back is
    /// made of whole string tokens, and `line` is its line.
    pub fn parse(line: &[u8]) -> (frame: Option<Frame>)
        ensures
            match frame {
                Some(f) => framed(line@) == Some(f@) && well_sealed(f@) && line_of(f@) == line@,
                None => framed(line@) is None,
            },
    {
        proof {
            lemma_marks();
            if framed(line@) is Some {
                lemma_frame_spells_line(line@);
            }
        }
        let len = line.len();
        if match_mark(line, 0, PUT_HEAD) {
            let key_at = PUT_HEAD.len();
            let key_end = match scan_token(line, key_at) {
                Some(end) => end,
                None => { return None; },
            };
            proof {
                lemma_body_end(line@, key_at + 1);
            }
            if !match_mark(line, key_end, VALUE_MARK) {
                return None;
            }
            let value_at = key_end + VALUE_MARK.len();
            let value_end = match scan_token(line, value_at) {
                Some(end) => end,
                None => { return None; },
            };
            proof {
                lemma_body_end(line@, value_at + 1);
            }
            if !match_mark(line, value_end, TAIL) || value_end + TAIL.len() != len {
                return None;
            }
            let key = slice_to_vec(slice_subrange(line, key_at, key_end));
            let value = slice_to_vec(slice_subrange(line, value_at, value_end));
            Some(Frame::Put { key, value })
        } else if match_mark(line, 0, REMOVE_HEAD) {
            let key_at = REMOVE_HEAD.len();
            let key_end = match scan_token(line, key_at) {
                Some(end) => end,
                None => { return None; },
            };
            proof {
                lemma_body_end(line@, key_at + 1);
            }
            if !match_mark(line, key_end, TAIL) || key_end + TAIL.len() != len {
                return None;
            }
            let key = slice_to_vec(slice_subrange(line, key_at, key_end));
            Some(Frame::Remove { key })
        } else {
            None
        }
    }
}

} // verus!
