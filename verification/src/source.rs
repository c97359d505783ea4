//! Sources of input: how a source is named, what it delivers, and how
//! opening or reading one can fail.

use vstd::prelude::*;
use vstd::slice::slice_subrange;
use crate::lines::{first_line_len, lemma_first_line, line_end, NEWLINE};
use crate::text::chars_of;

verus! {

/// What a source name stands for.
#[derive(Debug, Clone, Copy, PartialEq, Eq, Structural)]
pub enum SourceKind {
    /// The name `-`: standard input.
    Stdin,
    /// Any other name: the file at that path.
    Path,
}

/// The name of standard input.
pub open spec fn stdin_name() -> Seq<char> {
    seq!['-']
}

/// What the name `name` stands for.
pub open spec fn kind_of(name: Seq<char>) -> SourceKind {
    if name == stdin_name() {
        SourceKind::Stdin
    } else {
        SourceKind::Path
    }
}

/// Says what `name` stands for: standard input for `-`, a path for
/// anything else.
pub fn resolve(name: &str) -> (kind: SourceKind)
    ensures
        kind == kind_of(name@),
{
    let chars = chars_of(name);
    if chars.len() == 1 && chars[0] == '-' {
        proof {
            assert(name@ =~= stdin_name());
        }
        SourceKind::Stdin
    } else {
        SourceKind::Path
    }
}

/// A source that could not be opened, with the reason as the system gave
/// it.
#[derive(Debug)]
pub struct OpenError {
    pub reason: String,
}

impl OpenError {
    /// An error with the given reason.
    pub fn new(reason: String) -> (e: OpenError)
        ensures
            e.reason@ == reason@,
    {
        OpenError { reason }
    }

    /// The reason, unchanged.
    pub fn to_string(&self) -> (s: String)
        ensures
            s@ == self.reason@,
    {
        self.reason.clone()
    }
}

/// A source that broke off while it was read, with the reason as the
/// system gave it.
#[derive(Debug)]
pub struct ReadError {
    pub reason: String,
}

impl ReadError {
    /// An error with the given reason.
    pub fn new(reason: String) -> (e: ReadError)
        ensures
            e.reason@ == reason@,
    {
        ReadError { reason }
    }

    /// The reason, unchanged.
    pub fn to_string(&self) -> (s: String)
        ensures
            s@ == self.reason@,
    {
        self.reason.clone()
    }
}

/// The reason of a read failure, where there is one.
pub open spec fn reason_of(failure: Option<ReadError>) -> Option<Seq<char>> {
    match failure {
        Some(e) => Some(e.reason@),
        None => None,
    }
}

/// What an open source delivers: its bytes, and then either the end of the
/// stream or a failure. A read that needs more than the bytes delivered
/// meets what comes after them.
#[derive(Debug)]
pub struct ByteStream {
    pub data: Vec<u8>,
    pub failure: Option<ReadError>,
}

impl ByteStream {
    /// The reason of the failure behind the bytes, where there is one.
    pub open spec fn failure_reason(&self) -> Option<Seq<char>> {
        reason_of(self.failure)
    }

    /// Whether the stream ends after its bytes, without a failure.
    pub open spec fn is_sound(&self) -> bool {
        self.failure is None
    }

    /// A stream that delivers `data` and then ends.
    pub fn new(data: Vec<u8>) -> (stream: ByteStream)
        ensures
            stream.data@ == data@,
            stream.is_sound(),
    {
        ByteStream { data, failure: None }
    }

    /// A stream that delivers `data` and then fails for `reason`.
    pub fn broken(data: Vec<u8>, reason: String) -> (stream: ByteStream)
        ensures
            stream.data@ == data@,
            stream.failure_reason() == Some(reason@),
    {
        ByteStream { data, failure: Some(ReadError { reason }) }
    }

    /// What a read meets behind the last byte: nothing on a sound stream,
    /// the failure on a broken one.
    pub fn at_end(&self) -> (r: Result<(), ReadError>)
        ensures
            self.is_sound() <==> r is Ok,
            r matches Err(e) ==> Some(e.reason@) == self.failure_reason(),
    {
        match &self.failure {
            None => Ok(()),
            Some(e) => Err(ReadError { reason: e.reason.clone() }),
        }
    }

    /// Whether the line at `pos` can be read without meeting the end of the
    /// bytes: a newline closes it.
    pub open spec fn line_is_closed(&self, pos: int) -> bool
        recommends
            0 <= pos <= self.data@.len(),
    {
        let k = first_line_len(self.data@.skip(pos), NEWLINE);
        k > 0 && self.data@[pos + k - 1] == NEWLINE
    }

    /// The line at `pos`, as `read_line` gives it on success.
    pub open spec fn line_at(&self, pos: int) -> Seq<u8>
        recommends
            0 <= pos <= self.data@.len(),
    {
        self.data@.subrange(pos, pos + first_line_len(self.data@.skip(pos), NEWLINE))
    }

    /// Reads the line that starts at `pos`, with its newline. The line is
    /// empty only at the end of a sound stream. A line that no newline
    /// closes runs into the end of the bytes, and on a broken stream that
    /// read fails.
    pub fn read_line(&self, pos: usize) -> (r: Result<&[u8], ReadError>)
        requires
            pos <= self.data@.len(),
        ensures
            r is Ok <==> self.is_sound() || self.line_is_closed(pos as int),
            r matches Ok(line) ==> line@ == self.line_at(pos as int) && pos + line@.len()
                <= self.data@.len() <= usize::MAX,
            r matches Err(e) ==> Some(e.reason@) == self.failure_reason(),
    {
        let size: usize = self.data.len();
        let end = line_end(self.data.as_slice(), pos);
        let open_at_end = end == size && (end == pos || self.data[end - 1] != NEWLINE);
        proof {
            lemma_first_line(self.data@.skip(pos as int), NEWLINE);
        }
        if open_at_end {
            match self.at_end() {
                Ok(()) => Ok(slice_subrange(self.data.as_slice(), pos, end)),
                Err(e) => Err(e),
            }
        } else {
            Ok(slice_subrange(self.data.as_slice(), pos, end))
        }
    }

    /// The bytes from `pos` on, `max` of them at most, as `read_bytes`
    /// gives them on success.
    pub open spec fn bytes_at(&self, pos: int, max: int) -> Seq<u8>
        recommends
            0 <= pos <= self.data@.len(),
            0 <= max,
    {
        if pos + max <= self.data@.len() {
            self.data@.subrange(pos, pos + max)
        } else {
            self.data@.subrange(pos, self.data@.len() as int)
        }
    }

    /// Reads up to `max` bytes from `pos` on. Where fewer are left, the
    /// read runs into the end of the bytes: it gives what is left on a
    /// sound stream and fails on a broken one.
    pub fn read_bytes(&self, pos: usize, max: usize) -> (r: Result<&[u8], ReadError>)
        requires
            pos <= self.data@.len(),
        ensures
            r is Ok <==> self.is_sound() || pos + max <= self.data@.len(),
            r matches Ok(bytes) ==> bytes@ == self.bytes_at(pos as int, max as int) && pos
                + bytes@.len() <= self.data@.len() <= usize::MAX,
            r matches Err(e) ==> Some(e.reason@) == self.failure_reason(),
    {
        let left: usize = self.data.len() - pos;
        if max <= left {
            Ok(slice_subrange(self.data.as_slice(), pos, pos + max))
        } else {
            match self.at_end() {
                Ok(()) => Ok(slice_subrange(self.data.as_slice(), pos, self.data.len())),
                Err(e) => Err(e),
            }
        }
    }
}

/// One source of a run: its name, and what opening it gave.
#[derive(Debug)]
pub struct Input {
    pub name: String,
    pub opened: Result<ByteStream, OpenError>,
}

impl Input {
    /// A source that opened and delivers `data` to its end.
    pub fn ready(name: String, data: Vec<u8>) -> (input: Input)
        ensures
            input.name@ == name@,
            input.opened matches Ok(stream) && stream.data@ == data@ && stream.is_sound(),
    {
        Input { name, opened: Ok(ByteStream::new(data)) }
    }

    /// A source that opened, delivers `data` and then fails for `reason`.
    pub fn broken(name: String, data: Vec<u8>, reason: String) -> (input: Input)
        ensures
            input.name@ == name@,
            input.opened matches Ok(stream) && stream.data@ == data@ && stream.failure_reason()
                == Some(reason@),
    {
        Input { name, opened: Ok(ByteStream::broken(data, reason)) }
    }

    /// A source that could not be opened, for `reason`.
    pub fn unopened(name: String, reason: String) -> (input: Input)
        ensures
            input.name@ == name@,
            input.opened matches Err(e) && e.reason@ == reason@,
    {
        Input { name, opened: Err(OpenError { reason }) }
    }
}

} // verus!
