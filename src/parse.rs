use crate::request::{
    header_value, version_of, HeaderSeq, Header, Headers, ParseError, Request,
    RequestView, Version, parse_version,
};
use vstd::prelude::*;
use vstd::slice::{slice_subrange, slice_to_vec};

verus! {

/// The one-byte whitespace characters: tab, line feed, vertical tab, form
/// feed, carriage return and space.
pub open spec fn is_ws(b: u8) -> bool {
    (9 <= b <= 13) || b == 32
}

/// The three-byte UTF-8 encodings of Unicode whitespace: U+1680, U+2000 to
/// U+200A, U+2028, U+2029, U+202F, U+205F and U+3000.
pub open spec fn is_ws3(a: u8, b: u8, c: u8) -> bool {
    (a == 0xE1 && b == 0x9A && c == 0x80) || (a == 0xE2 && b == 0x80 && ((0x80 <= c <= 0x8A)
        || c == 0xA8 || c == 0xA9 || c == 0xAF)) || (a == 0xE2 && b == 0x81 && c == 0x9F) || (a
        == 0xE3 && b == 0x80 && c == 0x80)
}

/// The length of the whitespace character whose UTF-8 encoding starts at `i`,
/// or 0 where none does. Whitespace is Unicode's White_Space property: the
/// one-byte characters of `is_ws`, U+0085 and U+00A0 (two bytes each), and
/// those of `is_ws3`. Every such encoding begins with a byte that never
/// continues a character, so in UTF-8 text a match is always a whole character.
pub open spec fn ws_len_at(s: Seq<u8>, i: int) -> int {
    if 0 <= i < s.len() && is_ws(s[i]) {
        1
    } else if 0 <= i && i + 1 < s.len() && s[i] == 0xC2 && (s[i + 1] == 0x85 || s[i + 1] == 0xA0) {
        2
    } else if 0 <= i && i + 2 < s.len() && is_ws3(s[i], s[i + 1], s[i + 2]) {
        3
    } else {
        0
    }
}

/// The length of the whitespace character whose UTF-8 encoding ends just
/// before `j`, or 0 where none does.
pub open spec fn ws_len_before(s: Seq<u8>, j: int) -> int {
    if 1 <= j <= s.len() && is_ws(s[j - 1]) {
        1
    } else if 2 <= j <= s.len() && s[j - 2] == 0xC2 && (s[j - 1] == 0x85 || s[j - 1] == 0xA0) {
        2
    } else if 3 <= j <= s.len() && is_ws3(s[j - 3], s[j - 2], s[j - 1]) {
        3
    } else {
        0
    }
}

/// The position just past the line that starts at `i`: past its `\n`, or the
/// end of the input when no `\n` follows.
pub open spec fn line_end(s: Seq<u8>, i: int) -> int
    decreases s.len() - i,
{
    if i >= s.len() {
        s.len() as int
    } else if s[i] == 10 {
        i + 1
    } else {
        line_end(s, i + 1)
    }
}

/// A line without its terminator: a final `\n`, and a `\r` just before it.
pub open spec fn strip_eol(l: Seq<u8>) -> Seq<u8> {
    if l.len() > 0 && l.last() == 10 {
        let a = l.drop_last();
        if a.len() > 0 && a.last() == 13 {
            a.drop_last()
        } else {
            a
        }
    } else {
        l
    }
}

/// The first position at or after `i` where no whitespace character starts.
pub open spec fn skip_ws(s: Seq<u8>, i: int) -> int
    decreases s.len() - i,
{
    if 0 <= i && ws_len_at(s, i) > 0 {
        skip_ws(s, i + ws_len_at(s, i))
    } else {
        i
    }
}

/// The first position at or after `i` where a whitespace character starts, or
/// the end.
pub open spec fn word_end(s: Seq<u8>, i: int) -> int
    decreases s.len() - i,
{
    if 0 <= i < s.len() && ws_len_at(s, i) == 0 {
        word_end(s, i + 1)
    } else {
        i
    }
}

/// Going back from `j`, no further than `lo`, past the whitespace characters
/// that end there.
pub open spec fn trim_end(s: Seq<u8>, lo: int, j: int) -> int
    decreases j - lo,
{
    if ws_len_before(s, j) > 0 && lo <= j - ws_len_before(s, j) {
        trim_end(s, lo, j - ws_len_before(s, j))
    } else {
        j
    }
}

/// `s` without leading and trailing whitespace.
pub open spec fn trim(s: Seq<u8>) -> Seq<u8> {
    let a = skip_ws(s, 0);
    s.subrange(a, trim_end(s, a, s.len() as int))
}

/// The position of the first `:` at or after `i`, or the end.
pub open spec fn first_colon(s: Seq<u8>, i: int) -> int
    decreases s.len() - i,
{
    if 0 <= i < s.len() && s[i] != 58 {
        first_colon(s, i + 1)
    } else {
        i
    }
}

/// The placeholder that stands for both name and value of a header line
/// without a `:`.
pub open spec fn placeholder() -> Seq<u8> {
    seq![78u8, 111, 110, 101]
}

/// A header line (terminator removed) as a (name, value) pair: the name is
/// everything before the first `:`, untrimmed; the value is everything after
/// it, trimmed. A line without `:` gives the placeholder for both.
pub open spec fn header_of(l: Seq<u8>) -> (Seq<u8>, Seq<u8>) {
    let c = first_colon(l, 0);
    if c < l.len() {
        (l.subrange(0, c), trim(l.subrange(c + 1, l.len() as int)))
    } else {
        (placeholder(), placeholder())
    }
}

/// The request line (terminator removed) split into method, target and
/// version: the first three whitespace-separated tokens. Method and target
/// are required; the version token may be missing or unknown.
pub open spec fn start_line(l: Seq<u8>) -> Result<(Seq<u8>, Seq<u8>, Version), ParseError> {
    let a = skip_ws(l, 0);
    let b = word_end(l, a);
    let c = skip_ws(l, b);
    let d = word_end(l, c);
    let e = skip_ws(l, d);
    let f = word_end(l, e);
    if a == b || c == d {
        Err(ParseError::MalformedRequestLine)
    } else {
        Ok((l.subrange(a, b), l.subrange(c, d), version_of(l.subrange(e, f))))
    }
}

pub proof fn lemma_line_end(s: Seq<u8>, i: int)
    requires
        0 <= i <= s.len(),
    ensures
        i <= line_end(s, i) <= s.len(),
        i < s.len() ==> i < line_end(s, i),
        forall|j: int| i <= j < line_end(s, i) - 1 ==> s[j] != 10,
        line_end(s, i) > i ==> (s[line_end(s, i) - 1] == 10 || line_end(s, i) == s.len()),
    decreases s.len() - i,
{
    if i < s.len() && s[i] != 10 {
        lemma_line_end(s, i + 1);
    }
}

pub proof fn lemma_skip_ws_bounds(s: Seq<u8>, i: int)
    requires
        0 <= i <= s.len(),
    ensures
        i <= skip_ws(s, i) <= s.len(),
    decreases s.len() - i,
{
    if ws_len_at(s, i) > 0 {
        lemma_skip_ws_bounds(s, i + ws_len_at(s, i));
    }
}

pub proof fn lemma_word_bounds(s: Seq<u8>, i: int)
    requires
        0 <= i <= s.len(),
    ensures
        i <= skip_ws(s, i) <= s.len(),
        i <= word_end(s, i) <= s.len(),
        i <= first_colon(s, i) <= s.len(),
    decreases s.len() - i,
{
    lemma_skip_ws_bounds(s, i);
    if i < s.len() {
        lemma_word_bounds(s, i + 1);
    }
}

/// The end of the line that starts at `pos`.
pub fn find_line_end(s: &[u8], pos: usize) -> (r: usize)
    requires
        pos <= s@.len(),
    ensures
        r == line_end(s@, pos as int),
{
    let mut i: usize = pos;
    while i < s.len()
        invariant
            pos <= i <= s@.len(),
            line_end(s@, pos as int) == line_end(s@, i as int),
        decreases s@.len() - i,
    {
        if s[i] == 10 {
            return i + 1;
        }
        i = i + 1;
    }
    i
}

/// A line with its terminator removed.
pub fn strip_line_terminator(l: &[u8]) -> (r: &[u8])
    ensures
        r@ == strip_eol(l@),
{
    let n = l.len();
    if n > 0 && l[n - 1] == 10 {
        if n > 1 && l[n - 2] == 13 {
            slice_subrange(l, 0, n - 2)
        } else {
            slice_subrange(l, 0, n - 1)
        }
    } else {
        l
    }
}

/// Whether a line is empty once its terminator is removed.
pub fn is_blank_line(l: &[u8]) -> (r: bool)
    ensures
        r == (strip_eol(l@).len() == 0),
{
    strip_line_terminator(l).len() == 0
}

fn is_ws_byte(b: u8) -> (r: bool)
    ensures
        r == is_ws(b),
{
    (9 <= b && b <= 13) || b == 32
}

fn is_ws3_bytes(a: u8, b: u8, c: u8) -> (r: bool)
    ensures
        r == is_ws3(a, b, c),
{
    (a == 0xE1 && b == 0x9A && c == 0x80) || (a == 0xE2 && b == 0x80 && ((0x80 <= c && c
        <= 0x8A) || c == 0xA8 || c == 0xA9 || c == 0xAF)) || (a == 0xE2 && b == 0x81 && c
        == 0x9F) || (a == 0xE3 && b == 0x80 && c == 0x80)
}

/// The length of the whitespace character that starts at `i`, or 0.
pub fn ws_len(s: &[u8], i: usize) -> (r: usize)
    requires
        i <= s@.len(),
    ensures
        r == ws_len_at(s@, i as int),
        r <= s@.len() - i,
{
    let n = s.len();
    if i < n && is_ws_byte(s[i]) {
        1
    } else if i < n && n - i > 1 && s[i] == 0xC2 && (s[i + 1] == 0x85 || s[i + 1] == 0xA0) {
        2
    } else if i < n && n - i > 2 && is_ws3_bytes(s[i], s[i + 1], s[i + 2]) {
        3
    } else {
        0
    }
}

/// The length of the whitespace character that ends just before `j`, or 0.
pub fn ws_len_back(s: &[u8], j: usize) -> (r: usize)
    requires
        j <= s@.len(),
    ensures
        r == ws_len_before(s@, j as int),
        r <= j,
{
    if 1 <= j && is_ws_byte(s[j - 1]) {
        1
    } else if 2 <= j && s[j - 2] == 0xC2 && (s[j - 1] == 0x85 || s[j - 1] == 0xA0) {
        2
    } else if 3 <= j && is_ws3_bytes(s[j - 3], s[j - 2], s[j - 1]) {
        3
    } else {
        0
    }
}

fn skip_whitespace(s: &[u8], i: usize) -> (r: usize)
    requires
        i <= s@.len(),
    ensures
        r == skip_ws(s@, i as int),
{
    let mut j: usize = i;
    loop
        invariant
            i <= j <= s@.len(),
            skip_ws(s@, i as int) == skip_ws(s@, j as int),
        decreases s@.len() - j,
    {
        let w = ws_len(s, j);
        if w == 0 {
            return j;
        }
        let n = s.len();
        assert(w <= n - j);
        j = j + w;
    }
}

fn skip_word(s: &[u8], i: usize) -> (r: usize)
    requires
        i <= s@.len(),
    ensures
        r == word_end(s@, i as int),
{
    let mut j: usize = i;
    while j < s.len() && ws_len(s, j) == 0
        invariant
            i <= j <= s@.len(),
            word_end(s@, i as int) == word_end(s@, j as int),
        decreases s@.len() - j,
    {
        j = j + 1;
    }
    j
}

/// `s` without leading and trailing whitespace.
pub fn trim_whitespace(s: &[u8]) -> (r: &[u8])
    ensures
        r@ == trim(s@),
{
    let a = skip_whitespace(s, 0);
    proof {
        lemma_word_bounds(s@, 0);
    }
    let mut j: usize = s.len();
    loop
        invariant
            a <= j <= s@.len(),
            a == skip_ws(s@, 0),
            trim_end(s@, a as int, s@.len() as int) == trim_end(s@, a as int, j as int),
        ensures
            a <= j <= s@.len(),
            trim_end(s@, a as int, s@.len() as int) == j,
        decreases j,
    {
        let w = ws_len_back(s, j);
        if w == 0 || j - a < w {
            assert(trim_end(s@, a as int, j as int) == j);
            break;
        }
        j = j - w;
    }
    slice_subrange(s, a, j)
}


/// The three parts of a request line.
#[derive(Clone, Debug)]
pub struct StartLine {
    pub method: Vec<u8>,
    pub target: Vec<u8>,
    pub version: Version,
}

/// Splits a request line into method, target and version. Fails with
/// `MalformedRequestLine` exactly when the method or the target is missing; a
/// missing or unknown version token gives HTTP/1.1.
pub fn parse_start_line(line: &[u8]) -> (r: Result<StartLine, ParseError>)
    ensures
        match r {
            Ok(sl) => start_line(strip_eol(line@)) == Ok::<_, ParseError>(
                (sl.method@, sl.target@, sl.version),
            ),
            Err(e) => start_line(strip_eol(line@)) == Err::<(Seq<u8>, Seq<u8>, Version), _>(e),
        },
{
    let l = strip_line_terminator(line);
    proof {
        lemma_word_bounds(l@, 0);
    }
    let a = skip_whitespace(l, 0);
    proof {
        lemma_word_bounds(l@, a as int);
    }
    let b = skip_word(l, a);
    proof {
        lemma_word_bounds(l@, b as int);
    }
    let c = skip_whitespace(l, b);
    proof {
        lemma_word_bounds(l@, c as int);
    }
    let d = skip_word(l, c);
    proof {
        lemma_word_bounds(l@, d as int);
    }
    let e = skip_whitespace(l, d);
    proof {
        lemma_word_bounds(l@, e as int);
    }
    let f = skip_word(l, e);
    if a == b || c == d {
        return Err(ParseError::MalformedRequestLine);
    }
    let method = slice_to_vec(slice_subrange(l, a, b));
    let target = slice_to_vec(slice_subrange(l, c, d));
    let version = parse_version(slice_subrange(l, e, f));
    Ok(StartLine { method, target, version })
}

fn first_colon_at(s: &[u8]) -> (r: usize)
    ensures
        r == first_colon(s@, 0),
{
    let mut j: usize = 0;
    while j < s.len() && s[j] != 58
        invariant
            j <= s@.len(),
            first_colon(s@, 0) == first_colon(s@, j as int),
        decreases s@.len() - j,
    {
        j = j + 1;
    }
    j
}

/// Splits a header line at its first `:` into name and trimmed value; a line
/// without `:` gives the placeholder `None` as both name and value.
pub fn parse_header_line(line: &[u8]) -> (r: Header)
    ensures
        (r.name@, r.value@) == header_of(strip_eol(line@)),
{
    let l = strip_line_terminator(line);
    let c = first_colon_at(l);
    proof {
        lemma_word_bounds(l@, 0);
    }
    if c < l.len() {
        let name = slice_to_vec(slice_subrange(l, 0, c));
        let value = slice_to_vec(trim_whitespace(slice_subrange(l, c + 1, l.len())));
        Header { name, value }
    } else {
        let name = vec![78u8, 111, 110, 101];
        let value = vec![78u8, 111, 110, 101];
        proof {
            assert(name@ =~= placeholder());
            assert(value@ =~= placeholder());
        }
        Header { name, value }
    }
}

pub open spec fn is_digit(b: u8) -> bool {
    48 <= b <= 57
}

pub open spec fn all_digits(s: Seq<u8>) -> bool {
    forall|i: int| 0 <= i < s.len() ==> is_digit(#[trigger] s[i])
}

/// The number that a string of decimal digits denotes.
pub open spec fn decimal_value(s: Seq<u8>) -> int
    decreases s.len(),
{
    if s.len() == 0 {
        0
    } else {
        decimal_value(s.drop_last()) * 10 + (s.last() - 48)
    }
}

/// The number a non-empty string of decimal digits denotes, where it fits in
/// `usize`.
pub open spec fn decimal_usize(d: Seq<u8>) -> Option<usize> {
    if d.len() > 0 && all_digits(d) && decimal_value(d) <= usize::MAX {
        Some(decimal_value(d) as usize)
    } else {
        None
    }
}

/// The length a length directive declares: the value is an optional `+`
/// followed by a non-empty string of decimal digits whose number fits in
/// `usize`; anything else (a `-` sign, other characters, nothing) declares none.
pub open spec fn length_directive(v: Seq<u8>) -> Option<usize> {
    if v.len() > 0 && v[0] == 43 {
        decimal_usize(v.drop_first())
    } else {
        decimal_usize(v)
    }
}

/// The name of the length directive, matched exactly.
pub open spec fn content_length_name() -> Seq<u8> {
    seq![67u8, 111, 110, 116, 101, 110, 116, 45, 76, 101, 110, 103, 116, 104]
}

/// How many body bytes the headers call for: none without a length
/// directive, the declared count with a valid one, `BadContentLength` else.
pub open spec fn body_length_of(hs: HeaderSeq) -> Result<Option<usize>, ParseError> {
    match header_value(hs, content_length_name()) {
        None => Ok(None),
        Some(v) => match length_directive(v) {
            Some(n) => Ok(Some(n)),
            None => Err(ParseError::BadContentLength),
        },
    }
}

pub proof fn lemma_decimal_prefix(s: Seq<u8>, i: int, j: int)
    requires
        all_digits(s),
        0 <= i <= j <= s.len(),
    ensures
        0 <= decimal_value(s.subrange(0, i)) <= decimal_value(s.subrange(0, j)),
    decreases j,
{
    if j > i {
        lemma_decimal_prefix(s, i, j - 1);
        assert(s.subrange(0, j).drop_last() =~= s.subrange(0, j - 1));
    } else if i > 0 {
        lemma_decimal_prefix(s, i - 1, i - 1);
        assert(s.subrange(0, i).drop_last() =~= s.subrange(0, i - 1));
    } else {
        assert(s.subrange(0, 0).len() == 0);
    }
}

fn parse_decimal(v: &[u8]) -> (r: Result<usize, ParseError>)
    ensures
        match decimal_usize(v@) {
            Some(n) => r == Ok::<usize, ParseError>(n),
            None => r == Err::<usize, _>(ParseError::BadContentLength),
        },
{
    if v.len() == 0 {
        return Err(ParseError::BadContentLength);
    }
    let mut acc: usize = 0;
    let mut i: usize = 0;
    while i < v.len()
        invariant
            i <= v@.len(),
            forall|k: int| 0 <= k < i ==> is_digit(#[trigger] v@[k]),
            acc == decimal_value(v@.subrange(0, i as int)),
        decreases v@.len() - i,
    {
        let b = v[i];
        if b < 48 || b > 57 {
            assert(!is_digit(v@[i as int]));
            return Err(ParseError::BadContentLength);
        }
        let ghost pre = v@.subrange(0, i as int);
        assert(v@.subrange(0, i + 1).drop_last() =~= pre);
        let next = match acc.checked_mul(10) {
            Some(m) => m.checked_add((b - 48) as usize),
            None => None,
        };
        match next {
            Some(n) => {
                acc = n;
            },
            None => {
                proof {
                    if all_digits(v@) {
                        lemma_decimal_prefix(v@, i + 1, v@.len() as int);
                        assert(v@ =~= v@.subrange(0, v@.len() as int));
                    }
                }
                return Err(ParseError::BadContentLength);
            },
        }
        i = i + 1;
    }
    assert(v@ =~= v@.subrange(0, v@.len() as int));
    Ok(acc)
}

/// Reads a length directive's value as a non-negative decimal number.
pub fn parse_content_length(v: &[u8]) -> (r: Result<usize, ParseError>)
    ensures
        match length_directive(v@) {
            Some(n) => r == Ok::<usize, ParseError>(n),
            None => r == Err::<usize, _>(ParseError::BadContentLength),
        },
{
    if v.len() > 0 && v[0] == 43 {
        parse_decimal(slice_subrange(v, 1, v.len()))
    } else {
        parse_decimal(v)
    }
}

/// How many body bytes the headers call for (see `body_length_of`).
pub fn body_length(headers: &Headers) -> (r: Result<Option<usize>, ParseError>)
    ensures
        r == body_length_of(headers@),
{
    let name = vec![67u8, 111, 110, 116, 101, 110, 116, 45, 76, 101, 110, 103, 116, 104];
    assert(name@ =~= content_length_name());
    match headers.get(name.as_slice()) {
        None => Ok(None),
        Some(v) => match parse_content_length(v) {
            Ok(n) => Ok(Some(n)),
            Err(e) => Err(e),
        },
    }
}


/// The header lines from `pos` up to the first blank line (or the end of the
/// input), inserted one by one into `hs`; with the position just past that
/// blank line.
pub open spec fn collect_headers(s: Seq<u8>, pos: int, hs: HeaderSeq) -> (HeaderSeq, int)
    decreases s.len() - pos,
    via collect_headers_decreases
{
    let e = line_end(s, pos);
    let l = strip_eol(s.subrange(pos, e));
    if pos < 0 || pos >= s.len() || l.len() == 0 {
        (hs, e)
    } else {
        let h = header_of(l);
        collect_headers(s, e, crate::request::header_insert(hs, h.0, h.1))
    }
}

#[via_fn]
pub proof fn collect_headers_decreases(s: Seq<u8>, pos: int, hs: HeaderSeq) {
    if 0 <= pos < s.len() {
        lemma_line_end(s, pos);
    }
}

/// What a byte stream that ends after `s` parses to: the request line, the
/// headers up to the blank line, and then exactly as many body bytes as the
/// length directive declares. Bytes past the body are not looked at.
pub open spec fn parse_bytes(s: Seq<u8>) -> Result<RequestView, ParseError> {
    let e0 = line_end(s, 0);
    match start_line(strip_eol(s.subrange(0, e0))) {
        Err(err) => Err(err),
        Ok(sl) => {
            let ch = collect_headers(s, e0, Seq::empty());
            let hs = ch.0;
            let p = ch.1;
            match body_length_of(hs) {
                Err(err) => Err(err),
                Ok(None) => Ok(
                    RequestView { method: sl.0, target: sl.1, version: sl.2, headers: hs, body: None },
                ),
                Ok(Some(n)) => if p + n > s.len() {
                    Err(ParseError::TruncatedBody)
                } else {
                    Ok(
                        RequestView {
                            method: sl.0,
                            target: sl.1,
                            version: sl.2,
                            headers: hs,
                            body: Some(s.subrange(p, p + n)),
                        },
                    )
                },
            }
        },
    }
}

/// Parses one request from the bytes a stream yields before it ends.
pub fn parse_request(input: &[u8]) -> (r: Result<Request, ParseError>)
    ensures
        match r {
            Ok(q) => parse_bytes(input@) == Ok::<_, ParseError>(q@),
            Err(e) => parse_bytes(input@) == Err::<RequestView, _>(e),
        },
{
    let ghost s = input@;
    let e0 = find_line_end(input, 0);
    proof {
        lemma_line_end(s, 0);
    }
    let sl = match parse_start_line(slice_subrange(input, 0, e0)) {
        Ok(sl) => sl,
        Err(e) => {
            return Err(e);
        },
    };
    let mut headers = Headers::new();
    let mut pos: usize = e0;
    loop
        invariant_except_break
            collect_headers(s, e0 as int, Seq::empty()) == collect_headers(s, pos as int, headers@),
        invariant
            e0 <= pos <= s.len(),
            input@ == s,
        ensures
            collect_headers(s, e0 as int, Seq::empty()) == (headers@, pos as int),
        decreases s.len() - pos,
    {
        let e = find_line_end(input, pos);
        proof {
            lemma_line_end(s, pos as int);
        }
        let l = slice_subrange(input, pos, e);
        if pos >= input.len() || is_blank_line(l) {
            assert(collect_headers(s, pos as int, headers@) == (headers@, e as int));
            pos = e;
            break;
        }
        let h = parse_header_line(l);
        headers.insert(h.name, h.value);
        pos = e;
    }
    let n = match body_length(&headers) {
        Ok(n) => n,
        Err(e) => {
            return Err(e);
        },
    };
    let body = match n {
        None => None,
        Some(n) => {
            if n > input.len() - pos {
                return Err(ParseError::TruncatedBody);
            }
            Some(slice_to_vec(slice_subrange(input, pos, pos + n)))
        },
    };
    Ok(Request { method: sl.method, target: sl.target, version: sl.version, headers, body })
}

} // verus!
