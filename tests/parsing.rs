use request_parser::parse::{
    is_blank_line, parse_content_length, parse_header_line, parse_start_line, trim_whitespace,
};
use request_parser::{parse_request, parse_version, serialize, Headers, ParseError, Request, Version};

fn header_pairs(h: &Headers) -> Vec<(Vec<u8>, Vec<u8>)> {
    let mut out = Vec::new();
    for i in 0..h.len() {
        out.push((h.name_at(i).to_vec(), h.value_at(i).to_vec()));
    }
    out
}

#[test]
fn happy_path() {
    let input = b"POST /submit HTTP/1.1\r\nContent-Length: 5\r\n\r\nHello";
    let r = parse_request(input).unwrap();
    assert_eq!(r.method, b"POST".to_vec());
    assert_eq!(r.target, b"/submit".to_vec());
    assert_eq!(r.version, Version::Http11);
    assert_eq!(
        header_pairs(&r.headers),
        vec![(b"Content-Length".to_vec(), b"5".to_vec())]
    );
    assert_eq!(r.body, Some(b"Hello".to_vec()));
}

#[test]
fn recieve_requests() {
    let input = b"POST / HTTP/1.1\r\nHost: 127.0.0.1:8080\r\nContent-Length: 10\r\n\r\nHello Test";
    let r = parse_request(input).unwrap();
    assert_eq!(r.headers.get(b"Host"), Some(&b"127.0.0.1:8080"[..]));
    assert_eq!(String::from_utf8(r.body.unwrap()).unwrap(), "Hello Test".to_string());
}

#[test]
fn no_body_without_length_directive() {
    let input = b"GET /index.html HTTP/1.0\r\nHost: example\r\n\r\ntrailing bytes here";
    let r = parse_request(input).unwrap();
    assert_eq!(r.version, Version::Http10);
    assert_eq!(r.body, None);
    assert_eq!(header_pairs(&r.headers), vec![(b"Host".to_vec(), b"example".to_vec())]);
}

#[test]
fn no_body_at_end_of_stream() {
    let r = parse_request(b"GET / HTTP/1.1\r\nA: b\r\n").unwrap();
    assert_eq!(r.body, None);
    assert_eq!(header_pairs(&r.headers), vec![(b"A".to_vec(), b"b".to_vec())]);
}

#[test]
fn truncated_body() {
    let input = b"POST /x HTTP/1.1\r\nContent-Length: 10\r\n\r\nabc";
    assert_eq!(parse_request(input).unwrap_err(), ParseError::TruncatedBody);
}

#[test]
fn bad_length() {
    let input = b"POST /x HTTP/1.1\r\nContent-Length: abc\r\n\r\nabc";
    assert_eq!(parse_request(input).unwrap_err(), ParseError::BadContentLength);
    let negative = b"POST /x HTTP/1.1\r\nContent-Length: -3\r\n\r\nabc";
    assert_eq!(parse_request(negative).unwrap_err(), ParseError::BadContentLength);
    let empty = b"POST /x HTTP/1.1\r\nContent-Length:\r\n\r\n";
    assert_eq!(parse_request(empty).unwrap_err(), ParseError::BadContentLength);
}

#[test]
fn length_directive_overflow() {
    assert_eq!(parse_content_length(b"18446744073709551615"), Ok(usize::MAX));
    assert_eq!(
        parse_content_length(b"18446744073709551616"),
        Err(ParseError::BadContentLength)
    );
    assert_eq!(parse_content_length(b"0042"), Ok(42));
    assert_eq!(parse_content_length(b"4 2"), Err(ParseError::BadContentLength));
    assert_eq!(parse_content_length(b"+7"), Ok(7));
    assert_eq!(parse_content_length(b"+"), Err(ParseError::BadContentLength));
    assert_eq!(parse_content_length(b"++7"), Err(ParseError::BadContentLength));
}

#[test]
fn zero_length_body() {
    let r = parse_request(b"POST / HTTP/1.1\r\nContent-Length: 0\r\n\r\n").unwrap();
    assert_eq!(r.body, Some(Vec::new()));
}

#[test]
fn header_without_colon() {
    let input = b"GET / HTTP/1.1\r\nnot a header\r\nX: y\r\n\r\n";
    let r = parse_request(input).unwrap();
    assert_eq!(
        header_pairs(&r.headers),
        vec![
            (b"None".to_vec(), b"None".to_vec()),
            (b"X".to_vec(), b"y".to_vec())
        ]
    );
    let h = parse_header_line(b"no colon at all\r\n");
    assert_eq!((h.name, h.value), (b"None".to_vec(), b"None".to_vec()));
}

#[test]
fn header_value_keeps_later_colons_and_is_trimmed() {
    let h = parse_header_line(b"Host:  localhost:8080 \t\r\n");
    assert_eq!(h.name, b"Host".to_vec());
    assert_eq!(h.value, b"localhost:8080".to_vec());
    let untrimmed_name = parse_header_line(b" Key :v\n");
    assert_eq!(untrimmed_name.name, b" Key ".to_vec());
    assert_eq!(untrimmed_name.value, b"v".to_vec());
}

#[test]
fn duplicate_header_last_wins() {
    let input = b"GET / HTTP/1.1\r\nA: 1\r\nB: 2\r\nA: 3\r\n\r\n";
    let r = parse_request(input).unwrap();
    assert_eq!(
        header_pairs(&r.headers),
        vec![(b"A".to_vec(), b"3".to_vec()), (b"B".to_vec(), b"2".to_vec())]
    );
}

#[test]
fn length_directive_name_is_exact() {
    let r = parse_request(b"POST / HTTP/1.1\r\ncontent-length: 3\r\n\r\nabc").unwrap();
    assert_eq!(r.body, None);
}

#[test]
fn default_version() {
    let r = parse_request(b"GET / FOOBAR\r\n\r\n").unwrap();
    assert_eq!(r.version, Version::Http11);
    let missing = parse_request(b"GET /\r\n\r\n").unwrap();
    assert_eq!(missing.version, Version::Http11);
}

#[test]
fn version_literals() {
    assert_eq!(parse_version(b"HTTP/0.9"), Version::Http09);
    assert_eq!(parse_version(b"HTTP/1.0"), Version::Http10);
    assert_eq!(parse_version(b"HTTP/1.1"), Version::Http11);
    assert_eq!(parse_version(b"HTTP/2.0"), Version::Http2);
    assert_eq!(parse_version(b"HTTP/3.0"), Version::Http3);
    assert_eq!(parse_version(b"HTTP/2"), Version::Http11);
    assert_eq!(Version::Http3.literal(), b"HTTP/3.0".to_vec());
}

#[test]
fn malformed_request_line() {
    assert_eq!(parse_request(b"").unwrap_err(), ParseError::MalformedRequestLine);
    assert_eq!(parse_request(b"GET\r\n\r\n").unwrap_err(), ParseError::MalformedRequestLine);
    assert_eq!(parse_request(b"   \r\n").unwrap_err(), ParseError::MalformedRequestLine);
    assert!(parse_start_line(b"GET /a").is_ok());
}

#[test]
fn start_line_tokens() {
    let sl = parse_start_line(b"  DELETE\t/a?b=c   HTTP/0.9 extra\r\n").unwrap();
    assert_eq!(sl.method, b"DELETE".to_vec());
    assert_eq!(sl.target, b"/a?b=c".to_vec());
    assert_eq!(sl.version, Version::Http09);
}

#[test]
fn bare_line_feeds() {
    let r = parse_request(b"PUT /p HTTP/2.0\nContent-Length: 2\n\nok!").unwrap();
    assert_eq!(r.version, Version::Http2);
    assert_eq!(r.body, Some(b"ok".to_vec()));
}

#[test]
fn blank_lines() {
    assert!(is_blank_line(b"\r\n"));
    assert!(is_blank_line(b"\n"));
    assert!(is_blank_line(b""));
    assert!(!is_blank_line(b" \r\n"));
    assert!(!is_blank_line(b"\r"));
}

#[test]
fn trims_ascii_whitespace() {
    assert_eq!(trim_whitespace(b" \t a b \r\n"), b"a b");
    assert_eq!(trim_whitespace(b"   "), b"");
    assert_eq!(trim_whitespace(b""), b"");
}

fn sample_request() -> Request {
    let mut headers = Headers::new();
    headers.insert(b"Host".to_vec(), b"example.org".to_vec());
    headers.insert(b"Content-Length".to_vec(), b"4".to_vec());
    headers.insert(b"X-Empty".to_vec(), Vec::new());
    Request {
        method: b"PATCH".to_vec(),
        target: b"/items/7?x=1".to_vec(),
        version: Version::Http10,
        headers,
        body: Some(b"a\r\nb".to_vec()),
    }
}

#[test]
fn serialize_wire_form() {
    let wire = serialize(&sample_request());
    assert_eq!(
        wire,
        b"PATCH /items/7?x=1 HTTP/1.0\r\nHost: example.org\r\nContent-Length: 4\r\nX-Empty: \r\n\r\na\r\nb"
            .to_vec()
    );
}

#[test]
fn round_trip() {
    let r = sample_request();
    let back = parse_request(&serialize(&r)).unwrap();
    assert_eq!(back.method, r.method);
    assert_eq!(back.target, r.target);
    assert_eq!(back.version, r.version);
    assert_eq!(header_pairs(&back.headers), header_pairs(&r.headers));
    assert_eq!(back.body, r.body);
}

#[test]
fn round_trip_without_body_and_trailing_bytes() {
    let mut headers = Headers::new();
    headers.insert(b"Accept".to_vec(), b"*/*".to_vec());
    let r = Request {
        method: b"GET".to_vec(),
        target: b"/".to_vec(),
        version: Version::Http3,
        headers,
        body: None,
    };
    let mut bytes = serialize(&r);
    bytes.extend_from_slice(b"GET /next HTTP/1.1\r\n\r\n");
    let back = parse_request(&bytes).unwrap();
    assert_eq!(back.version, Version::Http3);
    assert_eq!(header_pairs(&back.headers), header_pairs(&r.headers));
    assert_eq!(back.body, None);
}

#[test]
fn headers_map_operations() {
    let mut h = Headers::new();
    assert_eq!(h.len(), 0);
    h.insert(b"k".to_vec(), b"1".to_vec());
    h.insert(b"k".to_vec(), b"2".to_vec());
    assert_eq!(h.len(), 1);
    assert_eq!(h.get(b"k"), Some(&b"2"[..]));
    assert_eq!(h.get(b"K"), None);
}

#[test]
fn vertical_tab_separates_tokens() {
    let sl = parse_start_line(b"GET\x0b/").unwrap();
    assert_eq!(sl.method, b"GET".to_vec());
    assert_eq!(sl.target, b"/".to_vec());
    assert_eq!(sl.version, Version::Http11);
}

#[test]
fn vertical_tab_is_trimmed_from_values() {
    let h = parse_header_line(b"K: v\x0b\r\n");
    assert_eq!(h.name, b"K".to_vec());
    assert_eq!(h.value, b"v".to_vec());
}

#[test]
fn unicode_whitespace_separates_tokens() {
    let line = "GET\u{a0}/a\u{3000}HTTP/1.0\u{2028}\r\n";
    let sl = parse_start_line(line.as_bytes()).unwrap();
    assert_eq!(sl.method, b"GET".to_vec());
    assert_eq!(sl.target, b"/a".to_vec());
    assert_eq!(sl.version, Version::Http10);
    let other = "\u{85}PUT\u{1680}/b\u{205f}\u{2000}HTTP/2.0";
    let sl = parse_start_line(other.as_bytes()).unwrap();
    assert_eq!(sl.method, b"PUT".to_vec());
    assert_eq!(sl.target, b"/b".to_vec());
    assert_eq!(sl.version, Version::Http2);
}

#[test]
fn unicode_whitespace_is_trimmed() {
    let v = "\u{200a} caf\u{e9} \u{85}\u{202f}";
    assert_eq!(trim_whitespace(v.as_bytes()), "caf\u{e9}".as_bytes());
    assert_eq!(trim_whitespace("\u{2029}\u{3000}".as_bytes()), b"");
    let h = parse_header_line("X: \u{a0}a b\u{2009}\r\n".as_bytes());
    assert_eq!(h.value, b"a b".to_vec());
}

#[test]
fn whitespace_matches_std() {
    let samples = [
        "a\u{b}b", "x\u{c}y", " \u{2007}z\u{feff}", "\u{2029}\u{85}\u{a0}", "\u{1680}q\u{200b}",
        "\u{3000}\u{205f}\u{202f}w\u{2028}",
    ];
    for s in samples {
        assert_eq!(trim_whitespace(s.as_bytes()), s.trim().as_bytes());
        let words: Vec<&str> = s.split_whitespace().collect();
        match parse_start_line(s.as_bytes()) {
            Ok(sl) => {
                assert!(words.len() >= 2);
                assert_eq!(sl.method, words[0].as_bytes().to_vec());
                assert_eq!(sl.target, words[1].as_bytes().to_vec());
            }
            Err(e) => {
                assert!(words.len() < 2);
                assert_eq!(e, ParseError::MalformedRequestLine);
            }
        }
    }
}
