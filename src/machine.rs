use crate::parse::{
    collect_headers, lemma_line_end, line_end, parse_bytes, body_length, body_length_of, header_of, is_blank_line, parse_header_line, parse_start_line,
    start_line, strip_eol, StartLine,
};
use crate::request::{header_insert, HeaderSeq, Headers, ParseError, Request, RequestView, Version};
use vstd::prelude::*;
use vstd::slice::{slice_subrange, slice_to_vec};

verus! {

/// Where a parse over a live byte stream stands.
pub enum ParseState {
    /// Nothing read yet: the next line is the request line.
    AwaitingStartLine,
    /// The request line is read; header lines follow until a blank one.
    AwaitingHeaders { start: StartLine, headers: Headers },
    /// The headers are read; `length` body bytes follow.
    AwaitingBody { start: StartLine, headers: Headers, length: usize },
    /// A request was produced or the parse failed; nothing more is read.
    Finished,
}

/// What the caller does next.
pub enum Step {
    /// Read one more line (through its `\n`, or what is left at the end).
    NeedLine,
    /// Read up to this many bytes (fewer only where the stream ends).
    NeedBody(usize),
    /// The request is complete.
    Done(Request),
    /// The parse failed.
    Failed(ParseError),
}

pub enum StateView {
    AwaitingStartLine,
    AwaitingHeaders(Seq<u8>, Seq<u8>, Version, HeaderSeq),
    AwaitingBody(Seq<u8>, Seq<u8>, Version, HeaderSeq, usize),
    Finished,
}

pub enum StepView {
    NeedLine,
    NeedBody(usize),
    Done(RequestView),
    Failed(ParseError),
}

impl View for ParseState {
    type V = StateView;

    open spec fn view(&self) -> StateView {
        match self {
            ParseState::AwaitingStartLine => StateView::AwaitingStartLine,
            ParseState::AwaitingHeaders { start, headers } => StateView::AwaitingHeaders(
                start.method@,
                start.target@,
                start.version,
                headers@,
            ),
            ParseState::AwaitingBody { start, headers, length } => StateView::AwaitingBody(
                start.method@,
                start.target@,
                start.version,
                headers@,
                *length,
            ),
            ParseState::Finished => StateView::Finished,
        }
    }
}

impl View for Step {
    type V = StepView;

    open spec fn view(&self) -> StepView {
        match self {
            Step::NeedLine => StepView::NeedLine,
            Step::NeedBody(n) => StepView::NeedBody(*n),
            Step::Done(r) => StepView::Done(r@),
            Step::Failed(e) => StepView::Failed(*e),
        }
    }
}

/// The transition on a line read from the stream (an empty line stands for
/// the end of the stream). The request line either fails or opens the
/// headers; a header line is inserted; the blank line ends the headers and
/// leads to the body, to a request without a body, or to a failure of the
/// length directive.
pub open spec fn on_line_spec(s: StateView, line: Seq<u8>) -> (StateView, StepView) {
    match s {
        StateView::AwaitingStartLine => match start_line(strip_eol(line)) {
            Err(e) => (StateView::Finished, StepView::Failed(e)),
            Ok(sl) => (StateView::AwaitingHeaders(sl.0, sl.1, sl.2, Seq::empty()), StepView::NeedLine),
        },
        StateView::AwaitingHeaders(m, t, v, hs) => if strip_eol(line).len() == 0 {
            match body_length_of(hs) {
                Err(e) => (StateView::Finished, StepView::Failed(e)),
                Ok(None) => (
                    StateView::Finished,
                    StepView::Done(
                        RequestView { method: m, target: t, version: v, headers: hs, body: None },
                    ),
                ),
                Ok(Some(n)) => (StateView::AwaitingBody(m, t, v, hs, n), StepView::NeedBody(n)),
            }
        } else {
            let h = header_of(strip_eol(line));
            (StateView::AwaitingHeaders(m, t, v, header_insert(hs, h.0, h.1)), StepView::NeedLine)
        },
        _ => (s, StepView::NeedLine),
    }
}

/// The transition on the body bytes read: exactly the declared count gives
/// the request, fewer fail with `TruncatedBody`, extra bytes are ignored.
pub open spec fn on_body_spec(s: StateView, bytes: Seq<u8>) -> (StateView, StepView) {
    match s {
        StateView::AwaitingBody(m, t, v, hs, n) => if bytes.len() < n {
            (StateView::Finished, StepView::Failed(ParseError::TruncatedBody))
        } else {
            (
                StateView::Finished,
                StepView::Done(
                    RequestView {
                        method: m,
                        target: t,
                        version: v,
                        headers: hs,
                        body: Some(bytes.subrange(0, n as int)),
                    },
                ),
            )
        },
        _ => (s, StepView::NeedLine),
    }
}

impl ParseState {
    /// The state before anything is read.
    pub fn new() -> (r: ParseState)
        ensures
            r@ == StateView::AwaitingStartLine,
    {
        ParseState::AwaitingStartLine
    }

    /// Takes one line read from the stream, after `NeedLine`.
    pub fn on_line(self, line: &[u8]) -> (r: (ParseState, Step))
        requires
            self@ is AwaitingStartLine || self@ is AwaitingHeaders,
        ensures
            (r.0@, r.1@) == on_line_spec(self@, line@),
            r.1@ is NeedLine ==> r.0@ is AwaitingHeaders,
            r.1@ is NeedBody ==> r.0@ is AwaitingBody,
            r.1@ is Done || r.1@ is Failed ==> r.0@ is Finished,
    {
        match self {
            ParseState::AwaitingStartLine => match parse_start_line(line) {
                Err(e) => (ParseState::Finished, Step::Failed(e)),
                Ok(start) => {
                    let headers = Headers::new();
                    (ParseState::AwaitingHeaders { start, headers }, Step::NeedLine)
                },
            },
            ParseState::AwaitingHeaders { start, mut headers } => {
                if is_blank_line(line) {
                    match body_length(&headers) {
                        Err(e) => (ParseState::Finished, Step::Failed(e)),
                        Ok(None) => {
                            let req = Request {
                                method: start.method,
                                target: start.target,
                                version: start.version,
                                headers,
                                body: None,
                            };
                            (ParseState::Finished, Step::Done(req))
                        },
                        Ok(Some(length)) => (
                            ParseState::AwaitingBody { start, headers, length },
                            Step::NeedBody(length),
                        ),
                    }
                } else {
                    let h = parse_header_line(line);
                    headers.insert(h.name, h.value);
                    (ParseState::AwaitingHeaders { start, headers }, Step::NeedLine)
                }
            },
            other => (other, Step::NeedLine),
        }
    }

    /// Takes the body bytes read from the stream, after `NeedBody`.
    pub fn on_body(self, bytes: &[u8]) -> (r: (ParseState, Step))
        requires
            self@ is AwaitingBody,
        ensures
            (r.0@, r.1@) == on_body_spec(self@, bytes@),
            r.1@ is Done || r.1@ is Failed,
            r.0@ is Finished,
    {
        match self {
            ParseState::AwaitingBody { start, headers, length } => {
                if bytes.len() < length {
                    (ParseState::Finished, Step::Failed(ParseError::TruncatedBody))
                } else {
                    let body = slice_to_vec(slice_subrange(bytes, 0, length));
                    let req = Request {
                        method: start.method,
                        target: start.target,
                        version: start.version,
                        headers,
                        body: Some(body),
                    };
                    (ParseState::Finished, Step::Done(req))
                }
            },
            other => (other, Step::NeedLine),
        }
    }
}


/// The outcome of feeding a stream that yields `s` to the machine in state
/// `st`, from position `pos` on: a line at a time while it asks for lines, then
/// the body bytes it asks for (fewer where the stream ends first).
pub open spec fn drive(s: Seq<u8>, pos: int, st: StateView) -> StepView
    decreases s.len() - pos, if st is AwaitingStartLine { 1int } else { 0int },
    via drive_decreases
{
    if 0 <= pos <= s.len() && (st is AwaitingStartLine || st is AwaitingHeaders) {
        let e = line_end(s, pos);
        let r = on_line_spec(st, s.subrange(pos, e));
        match r.1 {
            StepView::NeedLine => drive(s, e, r.0),
            StepView::NeedBody(n) => on_body_spec(
                r.0,
                s.subrange(e, if e + n <= s.len() { e + n } else { s.len() as int }),
            ).1,
            other => other,
        }
    } else {
        StepView::Failed(ParseError::UnreadableLine)
    }
}

#[via_fn]
pub proof fn drive_decreases(s: Seq<u8>, pos: int, st: StateView) {
    if 0 <= pos <= s.len() {
        lemma_line_end(s, pos);
    }
}

/// The step that a buffered parse of `s` amounts to.
pub open spec fn parse_outcome(s: Seq<u8>) -> StepView {
    match parse_bytes(s) {
        Ok(r) => StepView::Done(r),
        Err(e) => StepView::Failed(e),
    }
}

proof fn lemma_drive_headers(s: Seq<u8>, pos: int, m: Seq<u8>, t: Seq<u8>, v: Version, hs: HeaderSeq)
    requires
        0 <= pos <= s.len(),
    ensures
        ({
            let ch = collect_headers(s, pos, hs);
            let p = ch.1;
            drive(s, pos, StateView::AwaitingHeaders(m, t, v, hs)) == match body_length_of(ch.0) {
                Err(e) => StepView::Failed(e),
                Ok(None) => StepView::Done(
                    RequestView { method: m, target: t, version: v, headers: ch.0, body: None },
                ),
                Ok(Some(n)) => if p + n > s.len() {
                    StepView::Failed(ParseError::TruncatedBody)
                } else {
                    StepView::Done(
                        RequestView {
                            method: m,
                            target: t,
                            version: v,
                            headers: ch.0,
                            body: Some(s.subrange(p, p + n)),
                        },
                    )
                },
            }
        }),
    decreases s.len() - pos,
{
    lemma_line_end(s, pos);
    let e = line_end(s, pos);
    let l = strip_eol(s.subrange(pos, e));
    if pos < s.len() && l.len() != 0 {
        let h = header_of(l);
        lemma_drive_headers(s, e, m, t, v, header_insert(hs, h.0, h.1));
    } else {
        if pos >= s.len() {
            assert(s.subrange(pos, e).len() == 0);
        }
        match body_length_of(hs) {
            Ok(Some(n)) => {
                let end = if e + n <= s.len() { e + n } else { s.len() as int };
                let bytes = s.subrange(e, end);
                if e + n <= s.len() {
                    assert(bytes.subrange(0, n as int) =~= s.subrange(e, e + n));
                }
            },
            _ => {},
        }
    }
}

/// Feeding a stream to the machine line by line gives exactly what parsing
/// the whole of its bytes gives: the same request or the same failure.
pub proof fn lemma_stream_agrees_with_buffer(s: Seq<u8>)
    ensures
        drive(s, 0, StateView::AwaitingStartLine) == parse_outcome(s),
{
    lemma_line_end(s, 0);
    let e0 = line_end(s, 0);
    match start_line(strip_eol(s.subrange(0, e0))) {
        Err(_) => {},
        Ok(sl) => {
            lemma_drive_headers(s, e0, sl.0, sl.1, sl.2, Seq::empty());
        },
    }
}


/// A bad length directive ends the parse at the blank line: the machine fails
/// with `BadContentLength` and never asks for body bytes.
pub proof fn lemma_bad_length_reads_no_body(
    m: Seq<u8>,
    t: Seq<u8>,
    v: Version,
    hs: HeaderSeq,
    line: Seq<u8>,
)
    requires
        strip_eol(line).len() == 0,
        body_length_of(hs) is Err,
    ensures
        on_line_spec(StateView::AwaitingHeaders(m, t, v, hs), line) == (
            StateView::Finished,
            StepView::Failed(ParseError::BadContentLength),
        ),
{
}

} // verus!
