//! Turning a stream of lines into a stream of events.
//!
//! Reading is done by the caller, one line at a time into a reused
//! buffer, so a multi-gigabyte log costs one line's worth of memory.
//! [`EventReader`] decides what each line read means: the end of the
//! input, an I/O error, a blank line to skip, or an event (or a parse
//! error tagged with its line number).
use std::io;
use vstd::prelude::*;
use vstd::string::StringExecFns;

use crate::event::{describes, line_outcome, ParseError, ParseErrorView, ProcessEvent};
use crate::text::{chars_of, decimal_text, is_blank, is_whitespace, whitespace};

verus! {

#[verifier::external_type_specification]
#[verifier::external_body]
pub struct ExIoError(io::Error);

/// Why the reader could not produce an event.
#[derive(Debug)]
pub enum ReadError {
    Io(io::Error),
    Parse { line: usize, source: ParseError },
}

/// The message that std's `Display` gives an I/O error. Nothing is stated
/// of it: it comes from the operating system.
#[verifier::external_body]
fn io_error_text(e: &io::Error) -> String {
    e.to_string()
}

/// `usize::to_string`: std's `Display` writes an unsigned integer in
/// decimal, without sign or leading zeros.
#[verifier::external_body]
fn usize_text(n: usize) -> (s: String)
    ensures
        s@ == decimal_text(n as nat),
{
    n.to_string()
}

impl ReadError {
    /// A one-line description of the error.
    pub fn to_string(&self) -> (s: String)
        ensures
            match self {
                ReadError::Io(_) => "io error: "@.is_prefix_of(s@),
                ReadError::Parse { line, source } => exists|t: Seq<char>|
                    s@ == "line "@ + decimal_text(*line as nat) + ": "@ + t && #[trigger] describes(
                        *source,
                        t,
                    ),
            },
    {
        match self {
            ReadError::Io(e) => {
                let mut s = String::from_str("io error: ");
                let detail = io_error_text(e);
                s.append(detail.as_str());
                s
            },
            ReadError::Parse { line, source } => {
                let mut s = String::from_str("line ");
                let number = usize_text(*line);
                s.append(number.as_str());
                s.append(": ");
                let detail = source.to_string();
                s.append(detail.as_str());
                assert(describes(*source, detail@));
                s
            },
        }
    }
}

/// What one attempt to read a line gave: the end of the input, a line
/// (with its line break, if any), or an I/O error.
pub enum LineRead<'a> {
    End,
    Line(&'a str),
    Failed(io::Error),
}

/// What the reader makes of one read: either a result to hand out
/// (`None` at the end of the input), or a request to read another line.
pub enum ReaderStep {
    Yield(Option<Result<ProcessEvent, ReadError>>),
    ReadAgain,
}

/// Whether `line` holds whitespace only.
pub fn blank(line: &str) -> (b: bool)
    ensures
        b == is_blank(line@),
{
    let chars = chars_of(line);
    let mut i: usize = 0;
    while i < chars.len()
        invariant
            chars@ == line@,
            i <= chars@.len(),
            forall|j: int| 0 <= j < i ==> is_whitespace(#[trigger] chars@[j]),
        decreases chars@.len() - i,
    {
        if !whitespace(chars[i]) {
            return false;
        }
        i = i + 1;
    }
    true
}

/// The result handed out for a non-blank line with number `line_no`:
/// its event, or its parse error tagged with `line_no`.
pub open spec fn line_result(
    r: Result<ProcessEvent, ReadError>,
    line: Seq<char>,
    line_no: usize,
) -> bool {
    match r {
        Ok(e) => line_outcome(line) == Ok::<_, ParseErrorView>(e@),
        Err(ReadError::Parse { line: n, source }) => n == line_no && line_outcome(line) == Err::<
            crate::event::EventView,
            _,
        >(source@),
        Err(ReadError::Io(_)) => false,
    }
}

/// Reads events from a stream of lines, one line at a time.
///
/// Blank lines are skipped rather than surfaced as errors, since they
/// turn up naturally at the end of a file; they still count as lines.
pub struct EventReader {
    line_no: usize,
}

impl View for EventReader {
    type V = usize;

    /// The number of lines read so far.
    closed spec fn view(&self) -> usize {
        self.line_no
    }
}

impl EventReader {
    /// A reader that has read no line yet.
    pub fn new() -> (r: Self)
        ensures
            r@ == 0,
    {
        EventReader { line_no: 0 }
    }

    /// The number of lines read so far.
    pub fn line_no(&self) -> (n: usize)
        ensures
            n == self@,
    {
        self.line_no
    }

    /// What to do with the outcome of reading one more line: at the end of
    /// the input hand out `None`; hand out an I/O error as it is; skip a
    /// blank line; otherwise hand out the line parsed as an event, or its
    /// parse error tagged with the line's number (counting from 1).
    pub fn next_event(&mut self, read: LineRead) -> (step: ReaderStep)
        requires
            read is Line ==> old(self)@ < usize::MAX,
        ensures
            match read {
                LineRead::End => final(self)@ == old(self)@ && step == ReaderStep::Yield(None),
                LineRead::Failed(e) => final(self)@ == old(self)@ && step == ReaderStep::Yield(
                    Some(Err(ReadError::Io(e))),
                ),
                LineRead::Line(line) => {
                    &&& final(self)@ == old(self)@ + 1
                    &&& is_blank(line@) ==> step is ReadAgain
                    &&& !is_blank(line@) ==> (step matches ReaderStep::Yield(Some(r))
                        && line_result(r, line@, final(self)@))
                },
            },
    {
        match read {
            LineRead::End => ReaderStep::Yield(None),
            LineRead::Failed(e) => ReaderStep::Yield(Some(Err(ReadError::Io(e)))),
            LineRead::Line(line) => {
                self.line_no = self.line_no + 1;
                if blank(line) {
                    return ReaderStep::ReadAgain;
                }
                match ProcessEvent::parse_line(line) {
                    Ok(event) => ReaderStep::Yield(Some(Ok(event))),
                    Err(source) => ReaderStep::Yield(
                        Some(Err(ReadError::Parse { line: self.line_no, source })),
                    ),
                }
            },
        }
    }
}

} // verus!
