//! One line of process activity and its parser.
//!
//! Line format (space-separated, fixed field order):
//!   `start <pid> <ppid> <ts> <name>`
//!   `exit  <pid> <ts>`
use std::num::ParseIntError;
use vstd::prelude::*;
use vstd::string::{StrSliceExecFns, StringExecFns};

use crate::text::{
    chars_of, decimal_text, digit_char, field_bounds, fields, is_blank, is_whitespace,
    law_fields_of_joined_text, law_leading_whitespace_is_ignored,
    law_trailing_whitespace_is_ignored, lemma_fields_shape,
    lemma_fields_space, lemma_fields_word, lemma_no_fields_iff_blank,
};

verus! {

#[verifier::external_type_specification]
#[verifier::external_body]
pub struct ExParseIntError(ParseIntError);

/// A single line of process activity, as it would appear in an audit
/// trail or a periodic snapshot converted to one event per line.
#[derive(Debug, Clone, PartialEq, Eq)]
pub enum ProcessEvent {
    Start { pid: u32, ppid: u32, ts: u64, name: String },
    Exit { pid: u32, ts: u64 },
}

/// What a [`ProcessEvent`] says, with the name as its characters.
pub enum EventView {
    Start { pid: u32, ppid: u32, ts: u64, name: Seq<char> },
    Exit { pid: u32, ts: u64 },
}

impl View for ProcessEvent {
    type V = EventView;

    open spec fn view(&self) -> EventView {
        match self {
            ProcessEvent::Start { pid, ppid, ts, name } => EventView::Start {
                pid: *pid,
                ppid: *ppid,
                ts: *ts,
                name: name@,
            },
            ProcessEvent::Exit { pid, ts } => EventView::Exit { pid: *pid, ts: *ts },
        }
    }
}

/// Why a line is not an event.
#[derive(Debug)]
pub enum ParseError {
    Empty,
    UnknownKind(String),
    MissingField(&'static str),
    BadNumber(ParseIntError),
}

impl From<ParseIntError> for ParseError {
    fn from(e: ParseIntError) -> (r: Self) {
        ParseError::BadNumber(e)
    }
}

impl vstd::std_specs::convert::FromSpecImpl<ParseIntError> for ParseError {
    open spec fn obeys_from_spec() -> bool {
        true
    }

    open spec fn from_spec(e: ParseIntError) -> ParseError {
        ParseError::BadNumber(e)
    }
}

/// What a [`ParseError`] says; a bad number is known only by its kind.
pub enum ParseErrorView {
    Empty,
    UnknownKind(Seq<char>),
    MissingField(Seq<char>),
    BadNumber,
}

impl View for ParseError {
    type V = ParseErrorView;

    open spec fn view(&self) -> ParseErrorView {
        match self {
            ParseError::Empty => ParseErrorView::Empty,
            ParseError::UnknownKind(kind) => ParseErrorView::UnknownKind(kind@),
            ParseError::MissingField(name) => ParseErrorView::MissingField(name@),
            ParseError::BadNumber(_) => ParseErrorView::BadNumber,
        }
    }
}

/// The message that std's `Display` gives a [`ParseIntError`]. Nothing is
/// stated of it: the error's kind is not visible here.
#[verifier::external_body]
fn int_error_text(e: &ParseIntError) -> String {
    e.to_string()
}

/// `text` describes `e`: the message names the kind of error and what it
/// is about (for a bad number, std's message follows the prefix).
pub open spec fn describes(e: ParseError, text: Seq<char>) -> bool {
    match e {
        ParseError::Empty => text == "empty line"@,
        ParseError::UnknownKind(kind) => text == "unknown event kind '"@ + kind@ + "'"@,
        ParseError::MissingField(name) => text == "missing field '"@ + name@ + "'"@,
        ParseError::BadNumber(_) => "bad number: "@.is_prefix_of(text),
    }
}

impl ParseError {
    /// A one-line description of the error.
    pub fn to_string(&self) -> (s: String)
        ensures
            describes(*self, s@),
    {
        match self {
            ParseError::Empty => String::from_str("empty line"),
            ParseError::UnknownKind(kind) => {
                let mut s = String::from_str("unknown event kind '");
                s.append(kind.as_str());
                s.append("'");
                s
            },
            ParseError::MissingField(name) => {
                let mut s = String::from_str("missing field '");
                s.append(name);
                s.append("'");
                s
            },
            ParseError::BadNumber(e) => {
                let mut s = String::from_str("bad number: ");
                let detail = int_error_text(e);
                s.append(detail.as_str());
                s
            },
        }
    }
}

/// The view of a parse result.
pub open spec fn parse_view(r: Result<ProcessEvent, ParseError>) -> Result<
    EventView,
    ParseErrorView,
> {
    match r {
        Ok(e) => Ok(e@),
        Err(e) => Err(e@),
    }
}

/// An ASCII decimal digit.
pub open spec fn is_digit(c: char) -> bool {
    0x30 <= (c as u32) <= 0x39
}

/// The number that a string of decimal digits denotes.
pub open spec fn digits_value(d: Seq<char>) -> nat
    decreases d.len(),
{
    if d.len() == 0 {
        0
    } else {
        digits_value(d.drop_last()) * 10 + ((d.last() as u32) - 0x30) as nat
    }
}

/// The digits of an unsigned number: the text after an optional `+`.
pub open spec fn unsigned_digits(s: Seq<char>) -> Seq<char> {
    if s.len() > 0 && s[0] == '+' {
        s.drop_first()
    } else {
        s
    }
}

/// An optional `+` followed by one or more ASCII decimal digits.
pub open spec fn is_unsigned_decimal(s: Seq<char>) -> bool {
    let d = unsigned_digits(s);
    d.len() > 0 && forall|i: int| 0 <= i < d.len() ==> is_digit(#[trigger] d[i])
}

/// The value of an unsigned decimal.
pub open spec fn decimal_value(s: Seq<char>) -> nat {
    digits_value(unsigned_digits(s))
}

/// `s` is an unsigned decimal whose value is at most `max`: the texts
/// that std's integer parsing accepts for an unsigned type with that maximum.
pub open spec fn parses_within(s: Seq<char>, max: nat) -> bool {
    is_unsigned_decimal(s) && decimal_value(s) <= max
}

/// `str::parse::<u32>`. Its documentation says that it accepts exactly an
/// optional `+` followed by ASCII decimal digits whose value fits in a
/// `u32`, and then returns that value; anything else (empty text, another
/// character, overflow) is an error. What the error holds is left unsaid.
#[verifier::external_body]
fn parse_u32(text: &str) -> (r: Result<u32, ParseIntError>)
    ensures
        r is Ok <==> parses_within(text@, u32::MAX as nat),
        r matches Ok(n) ==> n == decimal_value(text@),
{
    text.parse::<u32>()
}

/// `str::parse::<u64>`, with the same documented behaviour as
/// [`parse_u32`] up to `u64::MAX`.
#[verifier::external_body]
fn parse_u64(text: &str) -> (r: Result<u64, ParseIntError>)
    ensures
        r is Ok <==> parses_within(text@, u64::MAX as nat),
        r matches Ok(n) ==> n == decimal_value(text@),
{
    text.parse::<u64>()
}

pub open spec fn start_word() -> Seq<char> {
    seq!['s', 't', 'a', 'r', 't']
}

pub open spec fn exit_word() -> Seq<char> {
    seq!['e', 'x', 'i', 't']
}

pub open spec fn missing(name: Seq<char>) -> Result<EventView, ParseErrorView> {
    Err(ParseErrorView::MissingField(name))
}

/// The outcome of a `start` line, given its fields.
pub open spec fn start_outcome(f: Seq<Seq<char>>) -> Result<EventView, ParseErrorView> {
    if f.len() < 2 {
        missing(seq!['p', 'i', 'd'])
    } else if !parses_within(f[1], u32::MAX as nat) {
        Err(ParseErrorView::BadNumber)
    } else if f.len() < 3 {
        missing(seq!['p', 'p', 'i', 'd'])
    } else if !parses_within(f[2], u32::MAX as nat) {
        Err(ParseErrorView::BadNumber)
    } else if f.len() < 4 {
        missing(seq!['t', 's'])
    } else if !parses_within(f[3], u64::MAX as nat) {
        Err(ParseErrorView::BadNumber)
    } else if f.len() < 5 {
        missing(seq!['n', 'a', 'm', 'e'])
    } else {
        Ok(
            EventView::Start {
                pid: decimal_value(f[1]) as u32,
                ppid: decimal_value(f[2]) as u32,
                ts: decimal_value(f[3]) as u64,
                name: f[4],
            },
        )
    }
}

/// The outcome of an `exit` line, given its fields.
pub open spec fn exit_outcome(f: Seq<Seq<char>>) -> Result<EventView, ParseErrorView> {
    if f.len() < 2 {
        missing(seq!['p', 'i', 'd'])
    } else if !parses_within(f[1], u32::MAX as nat) {
        Err(ParseErrorView::BadNumber)
    } else if f.len() < 3 {
        missing(seq!['t', 's'])
    } else if !parses_within(f[2], u64::MAX as nat) {
        Err(ParseErrorView::BadNumber)
    } else {
        Ok(EventView::Exit { pid: decimal_value(f[1]) as u32, ts: decimal_value(f[2]) as u64 })
    }
}

/// What a line means: its first field names the kind of event, the next
/// ones are read in order, and fields after the last one needed are ignored.
pub open spec fn line_outcome(line: Seq<char>) -> Result<EventView, ParseErrorView> {
    let f = fields(line);
    if f.len() == 0 {
        Err(ParseErrorView::Empty)
    } else if f[0] == start_word() {
        start_outcome(f)
    } else if f[0] == exit_word() {
        exit_outcome(f)
    } else {
        Err(ParseErrorView::UnknownKind(f[0]))
    }
}

/// Whether `chars[a..b]` spells `word`.
fn span_is(chars: &Vec<char>, a: usize, b: usize, word: &[char]) -> (r: bool)
    requires
        a <= b <= chars@.len(),
    ensures
        r == (chars@.subrange(a as int, b as int) == word@),
{
    if b - a != word.len() {
        return false;
    }
    let mut k: usize = 0;
    while k < word.len()
        invariant
            a <= b <= chars@.len(),
            b - a == word@.len(),
            k <= word@.len(),
            forall|j: int| 0 <= j < k ==> chars@[a + j] == word@[j],
        decreases word@.len() - k,
    {
        if chars[a + k] != word[k] {
            assert(chars@.subrange(a as int, b as int)[k as int] != word@[k as int]);
            return false;
        }
        k = k + 1;
    }
    assert(chars@.subrange(a as int, b as int) == word@);
    true
}

impl ProcessEvent {
    /// Parse a single line. Blank lines are an error here rather than
    /// silently ignored, so the reader (which does skip them) is the
    /// only place that decides what to do with them.
    pub fn parse_line(line: &str) -> (r: Result<Self, ParseError>)
        ensures
            parse_view(r) == line_outcome(line@),
    {
        let chars = chars_of(line);
        let bounds = field_bounds(&chars);
        let ghost f = fields(line@);
        if bounds.len() == 0 {
            return Err(ParseError::Empty);
        }
        let (a, b) = bounds[0];
        let kind = line.substring_char(a, b);
        if span_is(&chars, a, b, &['s', 't', 'a', 'r', 't']) {
            if bounds.len() < 2 {
                proof {
                    reveal_strlit("pid");
                    assert("pid"@ =~= seq!['p', 'i', 'd']);
                }
                return Err(ParseError::MissingField("pid"));
            }
            let (a, b) = bounds[1];
            let pid = match parse_u32(line.substring_char(a, b)) {
                Ok(v) => v,
                Err(e) => return Err(ParseError::BadNumber(e)),
            };
            if bounds.len() < 3 {
                proof {
                    reveal_strlit("ppid");
                    assert("ppid"@ =~= seq!['p', 'p', 'i', 'd']);
                }
                return Err(ParseError::MissingField("ppid"));
            }
            let (a, b) = bounds[2];
            let ppid = match parse_u32(line.substring_char(a, b)) {
                Ok(v) => v,
                Err(e) => return Err(ParseError::BadNumber(e)),
            };
            if bounds.len() < 4 {
                proof {
                    reveal_strlit("ts");
                    assert("ts"@ =~= seq!['t', 's']);
                }
                return Err(ParseError::MissingField("ts"));
            }
            let (a, b) = bounds[3];
            let ts = match parse_u64(line.substring_char(a, b)) {
                Ok(v) => v,
                Err(e) => return Err(ParseError::BadNumber(e)),
            };
            if bounds.len() < 5 {
                proof {
                    reveal_strlit("name");
                    assert("name"@ =~= seq!['n', 'a', 'm', 'e']);
                }
                return Err(ParseError::MissingField("name"));
            }
            let (a, b) = bounds[4];
            let name = line.substring_char(a, b).to_owned();
            Ok(ProcessEvent::Start { pid, ppid, ts, name })
        } else if span_is(&chars, a, b, &['e', 'x', 'i', 't']) {
            if bounds.len() < 2 {
                proof {
                    reveal_strlit("pid");
                    assert("pid"@ =~= seq!['p', 'i', 'd']);
                }
                return Err(ParseError::MissingField("pid"));
            }
            let (a, b) = bounds[1];
            let pid = match parse_u32(line.substring_char(a, b)) {
                Ok(v) => v,
                Err(e) => return Err(ParseError::BadNumber(e)),
            };
            if bounds.len() < 3 {
                proof {
                    reveal_strlit("ts");
                    assert("ts"@ =~= seq!['t', 's']);
                }
                return Err(ParseError::MissingField("ts"));
            }
            let (a, b) = bounds[2];
            let ts = match parse_u64(line.substring_char(a, b)) {
                Ok(v) => v,
                Err(e) => return Err(ParseError::BadNumber(e)),
            };
            Ok(ProcessEvent::Exit { pid, ts })
        } else {
            Err(ParseError::UnknownKind(kind.to_owned()))
        }
    }
}

/// A parsed name is one whole field: it is not empty and holds no
/// whitespace (a name with a space in it keeps only its first word).
pub proof fn lemma_parsed_name_is_one_field(line: Seq<char>)
    ensures
        line_outcome(line) matches Ok(EventView::Start { name, .. }) ==> {
            &&& name.len() > 0
            &&& forall|j: int| 0 <= j < name.len() ==> !is_whitespace(#[trigger] name[j])
        },
{
    lemma_fields_shape(line);
    if fields(line).len() >= 5 {
        assert(fields(line)[4].len() > 0);
    }
}

/// A line is rejected as empty exactly when it is blank; every other
/// line is either an event or another error.
pub proof fn law_blank_lines_are_empty(line: Seq<char>)
    ensures
        line_outcome(line) == Err::<EventView, _>(ParseErrorView::Empty) <==> is_blank(line),
{
    lemma_no_fields_iff_blank(line);
}

/// Whitespace around a line does not change what it means: a line with
/// or without a CRLF or LF ending, and with any blanks before or after
/// it, parses to the same event or the same error.
pub proof fn law_surrounding_whitespace_is_ignored(w: Seq<char>, line: Seq<char>, v: Seq<char>)
    requires
        is_blank(w),
        is_blank(v),
    ensures
        line_outcome(w + line + v) == line_outcome(line),
        line_outcome(line + seq!['\r', '\n']) == line_outcome(line),
        line_outcome(line + seq!['\n']) == line_outcome(line),
{
    law_leading_whitespace_is_ignored(w, line);
    law_trailing_whitespace_is_ignored(w + line, v);
    let crlf = seq!['\r', '\n'];
    assert(is_blank(crlf)) by {
        assert(is_whitespace(crlf[0]));
        assert(is_whitespace(crlf[1]));
    }
    law_trailing_whitespace_is_ignored(line, crlf);
    let lf = seq!['\n'];
    assert(is_blank(lf)) by {
        assert(is_whitespace(lf[0]));
    }
    law_trailing_whitespace_is_ignored(line, lf);
}

/// Fields after the last one that a line needs are ignored: once a line
/// reads as an event, or is refused for a bad number or an unknown kind,
/// appending more fields after whitespace gives the same outcome.
pub proof fn law_extra_fields_are_ignored(line: Seq<char>, w: Seq<char>, more: Seq<char>)
    requires
        w.len() > 0,
        is_blank(w),
        !(line_outcome(line) matches Err(ParseErrorView::Empty)),
        !(line_outcome(line) matches Err(ParseErrorView::MissingField(_))),
    ensures
        line_outcome(line + (w + more)) == line_outcome(line),
{
    law_fields_of_joined_text(line, w, more);
    let f = fields(line);
    let g = f + fields(more);
    assert(f.len() > 0);
    assert forall|k: int| 0 <= k < f.len() implies #[trigger] g[k] == f[k] by {}
    assert(g[0] == f[0]);
}

/// Facts about a number's decimal text: it is one or more digits (so no
/// whitespace and no sign), and it denotes the number.
pub proof fn lemma_decimal_text(n: nat)
    ensures
        decimal_text(n).len() > 0,
        forall|i: int|
            0 <= i < decimal_text(n).len() ==> is_digit(#[trigger] decimal_text(n)[i])
                && !is_whitespace(decimal_text(n)[i]),
        digits_value(decimal_text(n)) == n,
        unsigned_digits(decimal_text(n)) == decimal_text(n),
    decreases n,
{
    let d = decimal_text(n);
    let c = digit_char(n % 10);
    assert((c as u32) == n % 10 + 0x30);
    if n < 10 {
        assert(d == seq![c]);
        assert(d.drop_last() == Seq::<char>::empty());
        assert(digits_value(Seq::<char>::empty()) == 0);
        assert(d.last() == c);
        assert(n % 10 == n);
    } else {
        lemma_decimal_text(n / 10);
        let h = decimal_text(n / 10);
        assert(d == h.push(c));
        assert(d.drop_last() == h);
        assert(d.last() == c);
        assert(digits_value(d) == (n / 10) * 10 + n % 10);
        assert forall|i: int| 0 <= i < d.len() implies is_digit(#[trigger] d[i]) && !is_whitespace(
            d[i],
        ) by {
            if i < h.len() {
                assert(d[i] == h[i]);
            }
        }
        assert(d[0] == h[0]);
    }
}

/// The line `start <pid> <ppid> <ts> <name>`, fields separated by single spaces.
pub open spec fn start_line(pid: u32, ppid: u32, ts: u64, name: Seq<char>) -> Seq<char> {
    start_word() + (seq![' '] + (decimal_text(pid as nat) + (seq![' '] + (decimal_text(
        ppid as nat,
    ) + (seq![' '] + (decimal_text(ts as nat) + (seq![' '] + name)))))))
}

/// The line `exit <pid> <ts>`, fields separated by single spaces.
pub open spec fn exit_line(pid: u32, ts: u64) -> Seq<char> {
    exit_word() + (seq![' '] + (decimal_text(pid as nat) + (seq![' '] + decimal_text(ts as nat))))
}

/// Writing an event as a line and parsing it back gives the event, for
/// every name that is one field (not empty, no whitespace).
pub proof fn law_event_line_round_trip(pid: u32, ppid: u32, ts: u64, name: Seq<char>)
    requires
        name.len() > 0,
        forall|i: int| 0 <= i < name.len() ==> !is_whitespace(#[trigger] name[i]),
    ensures
        line_outcome(start_line(pid, ppid, ts, name)) == Ok::<_, ParseErrorView>(
            EventView::Start { pid, ppid, ts, name },
        ),
        line_outcome(exit_line(pid, ts)) == Ok::<_, ParseErrorView>(EventView::Exit { pid, ts }),
{
    let sp = seq![' '];
    let dp = decimal_text(pid as nat);
    let dq = decimal_text(ppid as nat);
    let dt = decimal_text(ts as nat);
    lemma_decimal_text(pid as nat);
    lemma_decimal_text(ppid as nat);
    lemma_decimal_text(ts as nat);
    assert(is_whitespace(' '));
    assert forall|i: int| 0 <= i < start_word().len() implies !is_whitespace(
        #[trigger] start_word()[i],
    ) by {}
    assert forall|i: int| 0 <= i < exit_word().len() implies !is_whitespace(
        #[trigger] exit_word()[i],
    ) by {}
    // start
    let r4 = sp + name;
    let r3 = dt + r4;
    let r2 = sp + r3;
    let r1 = dq + r2;
    let q1 = sp + r1;
    let q0 = dp + q1;
    let p0 = sp + q0;
    assert(fields(name) == seq![name]) by {
        lemma_fields_word(name, seq![]);
        assert(name + Seq::<char>::empty() == name);
        assert(fields(Seq::<char>::empty()) == Seq::<Seq<char>>::empty());
    }
    lemma_fields_space(name);
    lemma_fields_word(dt, r4);
    lemma_fields_space(r3);
    lemma_fields_word(dq, r2);
    lemma_fields_space(r1);
    lemma_fields_word(dp, q1);
    lemma_fields_space(q0);
    lemma_fields_word(start_word(), p0);
    let f = fields(start_line(pid, ppid, ts, name));
    assert(f == seq![start_word(), dp, dq, dt, name]);
    assert(start_word() != exit_word());
    // exit
    let e1 = sp + dt;
    let e0 = dp + e1;
    let ee = sp + e0;
    assert(fields(dt) == seq![dt]) by {
        lemma_fields_word(dt, seq![]);
        assert(dt + Seq::<char>::empty() == dt);
        assert(fields(Seq::<char>::empty()) == Seq::<Seq<char>>::empty());
    }
    lemma_fields_space(dt);
    lemma_fields_word(dp, e1);
    lemma_fields_space(e0);
    lemma_fields_word(exit_word(), ee);
    let g = fields(exit_line(pid, ts));
    assert(g == seq![exit_word(), dp, dt]);
    assert(exit_word() != start_word());
}

} // verus!
