use request_parser::parse::find_line_end;
use request_parser::{ParseError, ParseState, Request, Step};

/// Feeds `input` to the state machine as a stream would: line by line, then
/// the body bytes that are left, at most as many as asked for.
fn drive(input: &[u8]) -> Result<Request, ParseError> {
    let mut state = ParseState::new();
    let mut pos = 0usize;
    let mut step = Step::NeedLine;
    loop {
        match step {
            Step::NeedLine => {
                let end = find_line_end(input, pos);
                let (next, s) = state.on_line(&input[pos..end]);
                pos = end;
                state = next;
                step = s;
            }
            Step::NeedBody(n) => {
                let end = std::cmp::min(input.len(), pos + n);
                let (next, s) = state.on_body(&input[pos..end]);
                state = next;
                step = s;
            }
            Step::Done(r) => return Ok(r),
            Step::Failed(e) => return Err(e),
        }
    }
}

#[test]
fn stream_happy_path() {
    let r = drive(b"POST /submit HTTP/1.1\r\nContent-Length: 5\r\n\r\nHello").unwrap();
    assert_eq!(r.method, b"POST".to_vec());
    assert_eq!(r.target, b"/submit".to_vec());
    assert_eq!(r.headers.get(b"Content-Length"), Some(&b"5"[..]));
    assert_eq!(r.body, Some(b"Hello".to_vec()));
}

#[test]
fn stream_truncated_body() {
    let e = drive(b"POST / HTTP/1.1\r\nContent-Length: 10\r\n\r\nabc").unwrap_err();
    assert_eq!(e, ParseError::TruncatedBody);
}

#[test]
fn stream_bad_length_asks_for_no_body() {
    let state = ParseState::new();
    let (state, step) = state.on_line(b"POST / HTTP/1.1\r\n");
    assert!(matches!(step, Step::NeedLine));
    let (state, step) = state.on_line(b"Content-Length: abc\r\n");
    assert!(matches!(step, Step::NeedLine));
    let (_, step) = state.on_line(b"\r\n");
    assert!(matches!(step, Step::Failed(ParseError::BadContentLength)));
}

#[test]
fn stream_no_body_leaves_rest() {
    let state = ParseState::new();
    let (state, _) = state.on_line(b"GET / HTTP/1.1\n");
    let (_, step) = state.on_line(b"\n");
    match step {
        Step::Done(r) => assert_eq!(r.body, None),
        _ => panic!("expected a request"),
    }
}

#[test]
fn stream_malformed_start() {
    let (_, step) = ParseState::new().on_line(b"GET\r\n");
    assert!(matches!(step, Step::Failed(ParseError::MalformedRequestLine)));
}
