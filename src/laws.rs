use crate::parse::{
    lemma_line_end, body_length_of, collect_headers, first_colon, header_of, line_end, ws_len_at, ws_len_before,
    parse_bytes, skip_ws, start_line, strip_eol, trim, trim_end, word_end,
};
use crate::request::{
    has_key, header_insert, keys_unique, version_literal, version_of, HeaderSeq, RequestView,
    Version,
};
use crate::serialize::{body_bytes, header_line, headers_wire, request_line, wire};
use vstd::prelude::*;

verus! {

/// A non-empty token in which no whitespace character starts.
pub open spec fn is_token(t: Seq<u8>) -> bool {
    t.len() > 0 && forall|i: int| 0 <= i < t.len() ==> #[trigger] ws_len_at(t, i) == 0
}

/// A header name that survives the wire: no `:` and no line feed.
pub open spec fn is_wire_name(k: Seq<u8>) -> bool {
    forall|i: int| 0 <= i < k.len() ==> #[trigger] k[i] != 58 && k[i] != 10
}

/// A header value that survives the wire: no line feed, and no whitespace at
/// either end (the parser trims it).
pub open spec fn is_wire_value(v: Seq<u8>) -> bool {
    (forall|i: int| 0 <= i < v.len() ==> #[trigger] v[i] != 10) && (v.len() > 0 ==> ws_len_at(v, 0)
        == 0 && ws_len_before(v, v.len() as int) == 0)
}

/// A whitespace character inside `a` is found the same way when an ASCII
/// byte follows `a`.
proof fn lemma_ws_len_concat(a: Seq<u8>, b: Seq<u8>, k: int)
    requires
        0 <= k < a.len(),
        b.len() > 0,
        b[0] < 0x80,
    ensures
        ws_len_at(a + b, k) == ws_len_at(a, k),
{
    let s = a + b;
    assert(s[k] == a[k]);
    if k + 1 < a.len() {
        assert(s[k + 1] == a[k + 1]);
    } else {
        assert(s[k + 1] == b[0]);
    }
    if k + 2 < a.len() {
        assert(s[k + 2] == a[k + 2]);
    } else if k + 2 == a.len() {
        assert(s[k + 2] == b[0]);
    }
}

/// A whitespace character is found the same way after a prefix.
proof fn lemma_ws_len_shift(p: Seq<u8>, t: Seq<u8>, k: int)
    requires
        0 <= k,
    ensures
        ws_len_at(p + t, p.len() + k) == ws_len_at(t, k),
{
    let s = p + t;
    let i = p.len() + k;
    if k < t.len() {
        assert(s[i] == t[k]);
    }
    if k + 1 < t.len() {
        assert(s[i + 1] == t[k + 1]);
    }
    if k + 2 < t.len() {
        assert(s[i + 2] == t[k + 2]);
    }
}

proof fn lemma_visible_ascii(s: Seq<u8>, k: int)
    requires
        0 <= k < s.len(),
        0x21 <= s[k] <= 0x7E,
    ensures
        ws_len_at(s, k) == 0,
{
}

/// The body agrees with the length directive: present exactly when one is,
/// and of the length it declares.
pub open spec fn body_matches_headers(r: RequestView) -> bool {
    match (body_length_of(r.headers), r.body) {
        (Ok(None), None) => true,
        (Ok(Some(n)), Some(b)) => b.len() == n,
        _ => false,
    }
}

/// A request whose wire form reads back as itself.
pub open spec fn wire_safe(r: RequestView) -> bool {
    &&& is_token(r.method)
    &&& is_token(r.target)
    &&& keys_unique(r.headers)
    &&& forall|i: int|
        0 <= i < r.headers.len() ==> is_wire_name(#[trigger] r.headers[i].0) && is_wire_value(
            r.headers[i].1,
        )
    &&& body_matches_headers(r)
}

/// `s` begins with `w`.
pub open spec fn starts_with(s: Seq<u8>, w: Seq<u8>) -> bool {
    w.len() <= s.len() && s.subrange(0, w.len() as int) == w
}

proof fn lemma_prefix_sub(s: Seq<u8>, w: Seq<u8>, a: int, b: int)
    requires
        starts_with(s, w),
        0 <= a <= b <= w.len(),
    ensures
        s.subrange(a, b) == w.subrange(a, b),
{
    assert forall|i: int| 0 <= i < b - a implies s.subrange(a, b)[i] == w.subrange(a, b)[i] by {
        assert(s[a + i] == s.subrange(0, w.len() as int)[a + i]);
    }
    assert(s.subrange(a, b) =~= w.subrange(a, b));
}

proof fn lemma_collect_bounds(s: Seq<u8>, pos: int, hs: HeaderSeq)
    requires
        0 <= pos <= s.len(),
    ensures
        pos <= collect_headers(s, pos, hs).1 <= s.len(),
    decreases s.len() - pos,
{
    lemma_line_end(s, pos);
    let e = line_end(s, pos);
    let l = strip_eol(s.subrange(pos, e));
    if pos < s.len() && l.len() != 0 {
        let h = header_of(l);
        lemma_collect_bounds(s, e, header_insert(hs, h.0, h.1));
    }
}

/// Every parse that succeeds yields a body exactly when its headers hold a
/// valid length directive, and the body then has exactly the declared length.
pub proof fn lemma_body_matches_directive(s: Seq<u8>)
    ensures
        match parse_bytes(s) {
            Ok(r) => body_matches_headers(r),
            Err(_) => true,
        },
{
    lemma_line_end(s, 0);
    lemma_collect_bounds(s, line_end(s, 0), Seq::empty());
}

proof fn lemma_line_end_at(s: Seq<u8>, i: int, j: int)
    requires
        0 <= i <= j < s.len(),
        s[j] == 10,
        forall|k: int| i <= k < j ==> s[k] != 10,
    ensures
        line_end(s, i) == j + 1,
    decreases j - i,
{
    if i < j {
        lemma_line_end_at(s, i + 1, j);
    }
}

/// The line at `i` is `x` when `s` holds `x` there and `x` ends in its only
/// line feed.
proof fn lemma_line_is(s: Seq<u8>, i: int, x: Seq<u8>)
    requires
        0 <= i,
        i + x.len() <= s.len(),
        s.subrange(i, i + x.len()) == x,
        x.len() > 0,
        x.last() == 10,
        forall|k: int| 0 <= k < x.len() - 1 ==> x[k] != 10,
    ensures
        line_end(s, i) == i + x.len(),
        s.subrange(i, line_end(s, i)) == x,
{
    assert forall|k: int| i <= k < i + x.len() - 1 implies s[k] != 10 by {
        assert(s[k] == s.subrange(i, i + x.len())[k - i]);
    }
    assert(s[i + x.len() - 1] == s.subrange(i, i + x.len())[x.len() - 1]);
    lemma_line_end_at(s, i, i + x.len() - 1);
}

proof fn lemma_strip_crlf(y: Seq<u8>)
    ensures
        strip_eol(y + seq![13u8, 10]) == y,
{
    let l = y + seq![13u8, 10];
    assert(l.drop_last() =~= y + seq![13u8]);
    assert((y + seq![13u8]).drop_last() =~= y);
}

proof fn lemma_word_end_at(s: Seq<u8>, i: int, j: int)
    requires
        0 <= i <= j <= s.len(),
        forall|k: int| i <= k < j ==> ws_len_at(s, k) == 0,
        j == s.len() || ws_len_at(s, j) > 0,
    ensures
        word_end(s, i) == j,
    decreases j - i,
{
    if i < j {
        lemma_word_end_at(s, i + 1, j);
    }
}

proof fn lemma_first_colon_at(s: Seq<u8>, i: int, j: int)
    requires
        0 <= i <= j < s.len(),
        forall|k: int| i <= k < j ==> s[k] != 58,
        s[j] == 58,
    ensures
        first_colon(s, i) == j,
    decreases j - i,
{
    if i < j {
        lemma_first_colon_at(s, i + 1, j);
    }
}

proof fn lemma_version_of_literal(v: Version)
    ensures
        version_of(version_literal(v)) == v,
        forall|k: int|
            0 <= k < version_literal(v).len() ==> 0x21 <= #[trigger] version_literal(v)[k] <= 0x7E,
        version_literal(v).len() == 8,
{
    let l = version_literal(v);
    let l09 = version_literal(Version::Http09);
    let l10 = version_literal(Version::Http10);
    let l2 = version_literal(Version::Http2);
    let l3 = version_literal(Version::Http3);
    assert(l09[7] != l10[7]);
    assert(l09[5] != l2[5]);
    assert(l09[5] != l3[5]);
    assert(l10[5] != l2[5]);
    assert(l10[5] != l3[5]);
    assert(l2[5] != l3[5]);
    let l11 = version_literal(Version::Http11);
    assert(l11[7] != l09[7]);
    assert(l11[7] != l10[7]);
    assert(l11[5] != l2[5]);
    assert(l11[5] != l3[5]);
}

/// The request line of a wire form splits back into its parts.
#[verifier::rlimit(40)]
proof fn lemma_start_line(r: RequestView, s: Seq<u8>)
    requires
        is_token(r.method),
        is_token(r.target),
        starts_with(s, wire(r)),
    ensures
        line_end(s, 0) == request_line(r).len(),
        start_line(strip_eol(s.subrange(0, line_end(s, 0)))) == Ok::<_, crate::request::ParseError>(
            (r.method, r.target, r.version),
        ),
{
    let rl = request_line(r);
    let m = r.method;
    let t = r.target;
    let ver = version_literal(r.version);
    lemma_version_of_literal(r.version);
    let tail = seq![32u8] + ver;
    let mid = t + tail;
    let rest = seq![32u8] + mid;
    let l = m + rest;
    let b = m.len() as int;
    let d = b + 1 + t.len();
    assert(rl =~= l + seq![13u8, 10]);
    lemma_prefix_sub(s, wire(r), 0, rl.len() as int);
    assert(wire(r).subrange(0, rl.len() as int) =~= rl);
    assert forall|k: int| 0 <= k < b implies ws_len_at(l, k) == 0 by {
        assert(ws_len_at(m, k) == 0);
        lemma_ws_len_concat(m, rest, k);
    }
    assert forall|k: int| b + 1 <= k < d implies ws_len_at(l, k) == 0 by {
        assert(ws_len_at(t, k - b - 1) == 0);
        lemma_ws_len_concat(t, tail, k - b - 1);
        assert(l =~= (m + seq![32u8]) + mid);
        lemma_ws_len_shift(m + seq![32u8], mid, k - b - 1);
    }
    assert forall|k: int| d + 1 <= k < l.len() implies ws_len_at(l, k) == 0 by {
        assert(l[k] == ver[k - d - 1]);
        lemma_visible_ascii(l, k);
    }
    assert forall|k: int| 0 <= k < rl.len() - 1 implies rl[k] != 10 by {
        if k < l.len() {
            assert(rl[k] == l[k]);
            if k != b && k != d {
                assert(ws_len_at(l, k) == 0);
            }
        }
    }
    lemma_line_is(s, 0, rl);
    lemma_strip_crlf(l);
    assert(l[b] == 32);
    assert(l[d] == 32);
    assert(skip_ws(l, 0) == 0);
    lemma_word_end_at(l, 0, b);
    assert(skip_ws(l, b + 1) == b + 1);
    assert(skip_ws(l, b) == b + 1);
    lemma_word_end_at(l, b + 1, d);
    assert(skip_ws(l, d + 1) == d + 1);
    assert(skip_ws(l, d) == d + 1);
    lemma_word_end_at(l, d + 1, l.len() as int);
    assert(l.subrange(0, b) =~= m);
    assert(l.subrange(b + 1, d) =~= t);
    assert(l.subrange(d + 1, l.len() as int) =~= ver);
}


proof fn lemma_headers_wire_step(hs: HeaderSeq, k: int)
    requires
        0 <= k < hs.len(),
    ensures
        headers_wire(hs.subrange(0, k + 1)) == headers_wire(hs.subrange(0, k)) + header_line(
            hs[k],
        ),
{
    assert(hs.subrange(0, k + 1).drop_last() =~= hs.subrange(0, k));
}

proof fn lemma_headers_wire_prefix(hs: HeaderSeq, k: int)
    requires
        0 <= k <= hs.len(),
    ensures
        headers_wire(hs.subrange(0, k)).len() <= headers_wire(hs).len(),
        headers_wire(hs).subrange(0, headers_wire(hs.subrange(0, k)).len() as int)
            == headers_wire(hs.subrange(0, k)),
    decreases hs.len() - k,
{
    if k == hs.len() {
        assert(hs.subrange(0, k) =~= hs);
        assert(headers_wire(hs).subrange(0, headers_wire(hs).len() as int) =~= headers_wire(hs));
    } else {
        lemma_headers_wire_prefix(hs, k + 1);
        lemma_headers_wire_step(hs, k);
        let a = headers_wire(hs.subrange(0, k));
        let b = headers_wire(hs.subrange(0, k + 1));
        assert(headers_wire(hs).subrange(0, a.len() as int) =~= b.subrange(0, a.len() as int));
        assert(b.subrange(0, a.len() as int) =~= a);
    }
}

/// Where the `k`-th header line starts in the wire form.
pub open spec fn header_offset(r: RequestView, k: int) -> int {
    (request_line(r).len() + headers_wire(r.headers.subrange(0, k)).len()) as int
}

/// The `k`-th header line of the wire form stands at its offset.
proof fn lemma_header_line_at(r: RequestView, k: int)
    requires
        0 <= k < r.headers.len(),
    ensures
        header_offset(r, k + 1) == header_offset(r, k) + header_line(r.headers[k]).len(),
        header_offset(r, k + 1) <= wire(r).len(),
        wire(r).subrange(header_offset(r, k), header_offset(r, k + 1)) == header_line(
            r.headers[k],
        ),
{
    let s = wire(r);
    let hs = r.headers;
    let rl = request_line(r);
    lemma_headers_wire_prefix(hs, k + 1);
    lemma_headers_wire_step(hs, k);
    let b = headers_wire(hs.subrange(0, k + 1));
    let hw = headers_wire(hs);
    assert(s.subrange(rl.len() as int, (rl.len() + hw.len()) as int) =~= hw);
    assert(s.subrange(header_offset(r, k), header_offset(r, k + 1)) =~= b.subrange(
        headers_wire(hs.subrange(0, k)).len() as int,
        b.len() as int,
    ));
}

proof fn lemma_trim_value(v: Seq<u8>)
    requires
        is_wire_value(v),
    ensures
        trim(seq![32u8] + v) == v,
{
    let u = seq![32u8] + v;
    lemma_ws_len_shift(seq![32u8], v, 0);
    if v.len() > 0 {
        assert(u[u.len() - 1] == v[v.len() - 1]);
        if v.len() >= 2 {
            assert(u[u.len() - 2] == v[v.len() - 2]);
        }
        if v.len() >= 3 {
            assert(u[u.len() - 3] == v[v.len() - 3]);
        }
        assert(ws_len_before(u, u.len() as int) == 0);
    }
    assert(skip_ws(u, 1) == 1);
    assert(skip_ws(u, 0) == 1);
    assert(trim_end(u, 1, u.len() as int) == u.len());
    assert(u.subrange(1, u.len() as int) =~= v);
}

/// A header line of the wire form parses back into its pair.
proof fn lemma_header_of_line(k: Seq<u8>, v: Seq<u8>)
    requires
        is_wire_name(k),
        is_wire_value(v),
    ensures
        strip_eol(header_line((k, v))).len() > 0,
        header_of(strip_eol(header_line((k, v)))) == (k, v),
        forall|i: int|
            0 <= i < header_line((k, v)).len() - 1 ==> #[trigger] header_line((k, v))[i] != 10,
        header_line((k, v)).last() == 10,
{
    let y = k + seq![58u8, 32] + v;
    let x = header_line((k, v));
    assert(x =~= y + seq![13u8, 10]);
    lemma_strip_crlf(y);
    assert forall|i: int| 0 <= i < x.len() - 1 implies #[trigger] x[i] != 10 by {
        if i < k.len() {
            assert(x[i] == k[i]);
        } else if i >= k.len() + 2 && i < y.len() {
            assert(x[i] == v[i - k.len() - 2]);
        }
    }
    assert forall|i: int| 0 <= i < k.len() implies y[i] != 58 by {
        assert(y[i] == k[i]);
    }
    lemma_first_colon_at(y, 0, k.len() as int);
    assert(y.subrange(0, k.len() as int) =~= k);
    assert(y.subrange(k.len() + 1int, y.len() as int) =~= seq![32u8] + v);
    lemma_trim_value(v);
}

/// Collecting the header lines of a wire form from the `k`-th on, after the
/// first `k` pairs, gives back every pair and stops past the blank line.
proof fn lemma_collect_from(r: RequestView, s: Seq<u8>, k: int)
    requires
        wire_safe(r),
        starts_with(s, wire(r)),
        0 <= k <= r.headers.len(),
    ensures
        collect_headers(s, header_offset(r, k), r.headers.subrange(0, k)) == (
            r.headers,
            header_offset(r, r.headers.len() as int) + 2,
        ),
    decreases r.headers.len() - k,
{
    let hs = r.headers;
    let n = hs.len() as int;
    if k == n {
        let o = header_offset(r, n);
        assert(hs.subrange(0, n) =~= hs);
        let crlf = seq![13u8, 10];
        lemma_prefix_sub(s, wire(r), o, o + 2);
        assert(wire(r).subrange(o, o + 2) =~= crlf);
        lemma_line_is(s, o, crlf);
        lemma_strip_crlf(Seq::empty());
        assert(Seq::<u8>::empty() + crlf =~= crlf);
    } else {
        let o = header_offset(r, k);
        let h = hs[k];
        assert(is_wire_name(h.0) && is_wire_value(h.1));
        assert(h == (h.0, h.1));
        lemma_header_line_at(r, k);
        lemma_prefix_sub(s, wire(r), o, header_offset(r, k + 1));
        lemma_header_of_line(h.0, h.1);
        lemma_line_is(s, o, header_line(h));
        let pre = hs.subrange(0, k);
        assert(!has_key(pre, h.0)) by {
            if has_key(pre, h.0) {
                let i = choose|i: int| 0 <= i < pre.len() && #[trigger] pre[i].0 == h.0;
                assert(hs[i].0 == hs[k].0);
            }
        }
        assert(header_insert(pre, h.0, h.1) =~= hs.subrange(0, k + 1));
        lemma_collect_from(r, s, k + 1);
    }
}

/// Parsing the wire form of a request with bytes after it: the request is
/// read back whole and the bytes that follow it are not looked at. A request
/// whose method and target are tokens, whose header names hold no `:` or line
/// feed, whose header values are single lines without surrounding whitespace,
/// and whose body agrees with its length directive, is read back with the same
/// method, target, version, headers and body.
pub proof fn lemma_trailing_bytes_ignored(r: RequestView, extra: Seq<u8>)
    requires
        wire_safe(r),
    ensures
        parse_bytes(wire(r) + extra) == Ok::<RequestView, crate::request::ParseError>(r),
{
    let w = wire(r);
    let s = w + extra;
    assert(s.subrange(0, w.len() as int) =~= w);
    lemma_start_line(r, s);
    assert(r.headers.subrange(0, 0) =~= Seq::<(Seq<u8>, Seq<u8>)>::empty());
    assert(header_offset(r, 0) == request_line(r).len());
    lemma_collect_from(r, s, 0);
    let p = header_offset(r, r.headers.len() as int) + 2;
    assert(r.headers.subrange(0, r.headers.len() as int) =~= r.headers);
    assert(w.len() == p + body_bytes(r.body).len());
    assert(w.subrange(p, w.len() as int) =~= body_bytes(r.body));
    lemma_prefix_sub(s, w, p, w.len() as int);
}

/// Serialising a request and parsing the bytes gives the request back, for
/// every request whose method and target are tokens, whose header names hold
/// no `:` or line feed, whose header values are single lines without
/// surrounding whitespace, and whose body agrees with its length directive.
pub proof fn lemma_round_trip(r: RequestView)
    requires
        wire_safe(r),
    ensures
        parse_bytes(wire(r)) == Ok::<RequestView, crate::request::ParseError>(r),
{
    lemma_trailing_bytes_ignored(r, Seq::empty());
    assert(wire(r) + Seq::<u8>::empty() =~= wire(r));
}


/// The header lines from `pos` on end with a blank line inside `s`, not with
/// the end of the input.
pub open spec fn ends_in_blank(s: Seq<u8>, pos: int) -> bool
    decreases s.len() - pos,
    via ends_in_blank_decreases
{
    if 0 <= pos < s.len() {
        let e = line_end(s, pos);
        if strip_eol(s.subrange(pos, e)).len() == 0 {
            true
        } else {
            ends_in_blank(s, e)
        }
    } else {
        false
    }
}

#[via_fn]
pub proof fn ends_in_blank_decreases(s: Seq<u8>, pos: int) {
    if 0 <= pos < s.len() {
        lemma_line_end(s, pos);
    }
}

/// `h` is a request head: a request line, header lines, and the blank line
/// that ends them, with nothing after it.
pub open spec fn is_head(h: Seq<u8>) -> bool {
    ends_in_blank(h, line_end(h, 0)) && collect_headers(h, line_end(h, 0), Seq::empty()).1
        == h.len()
}

proof fn lemma_line_end_append(h: Seq<u8>, x: Seq<u8>, i: int)
    requires
        0 <= i < h.len(),
        line_end(h, i) <= h.len(),
        h[line_end(h, i) - 1] == 10,
    ensures
        line_end(h + x, i) == line_end(h, i),
    decreases h.len() - i,
{
    assert((h + x)[i] == h[i]);
    if h[i] != 10 {
        assert(line_end(h, i) == line_end(h, i + 1));
        if i + 1 == h.len() {
            assert(line_end(h, i + 1) == h.len());
            assert(h[line_end(h, i) - 1] == h[i]);
        }
        lemma_line_end_append(h, x, i + 1);
    }
}

proof fn lemma_collect_append(h: Seq<u8>, x: Seq<u8>, pos: int, hs: HeaderSeq)
    requires
        0 <= pos <= h.len(),
        ends_in_blank(h, pos),
    ensures
        collect_headers(h + x, pos, hs) == collect_headers(h, pos, hs),
    decreases h.len() - pos,
{
    lemma_line_end(h, pos);
    let e = line_end(h, pos);
    let line = h.subrange(pos, e);
    assert(h[e - 1] == 10) by {
        assert(line.len() > 0);
        if strip_eol(line).len() == 0 {
            assert(line.last() == h[e - 1]);
        } else {
            assert(ends_in_blank(h, e));
            assert(e < h.len());
        }
    }
    lemma_line_end_append(h, x, pos);
    assert((h + x).subrange(pos, e) =~= line);
    if strip_eol(line).len() != 0 {
        let hd = header_of(strip_eol(line));
        lemma_collect_append(h, x, e, header_insert(hs, hd.0, hd.1));
    }
}

/// Once a request head has been read, what follows it is read only as the
/// body. Without a length directive nothing after the head is looked at and
/// the request has no body; with a bad directive the parse fails with
/// `BadContentLength` whatever follows; with a valid one for `n` bytes, fewer
/// than `n` following bytes fail with `TruncatedBody`, and otherwise the body
/// is the first `n` of them and the rest is not looked at.
pub proof fn lemma_after_head(h: Seq<u8>, rest: Seq<u8>)
    requires
        is_head(h),
    ensures
        ({
            let e0 = line_end(h, 0);
            let hs = collect_headers(h, e0, Seq::empty()).0;
            let head_ok = start_line(strip_eol(h.subrange(0, e0))) is Ok;
            &&& !head_ok ==> parse_bytes(h + rest) == parse_bytes(h)
            &&& body_length_of(hs) == Ok::<Option<usize>, crate::request::ParseError>(None)
                ==> parse_bytes(h + rest) == parse_bytes(h)
            &&& head_ok && body_length_of(hs) is Err ==> parse_bytes(h + rest) == Err::<
                RequestView,
                _,
            >(crate::request::ParseError::BadContentLength)
            &&& match body_length_of(hs) {
                Ok(Some(n)) => head_ok ==> if rest.len() < n {
                    parse_bytes(h + rest) == Err::<RequestView, _>(
                        crate::request::ParseError::TruncatedBody,
                    )
                } else {
                    parse_bytes(h + rest) matches Ok(r) && r.body == Some(rest.subrange(0, n as int))
                        && parse_bytes(h + rest) == parse_bytes(h + rest.subrange(0, n as int))
                },
                _ => true,
            }
        }),
{
    let e0 = line_end(h, 0);
    lemma_line_end(h, 0);
    assert(e0 < h.len());
    lemma_line_end(h, e0);
    assert(h[e0 - 1] == 10);
    lemma_line_end_append(h, rest, 0);
    assert((h + rest).subrange(0, e0) =~= h.subrange(0, e0));
    lemma_collect_append(h, rest, e0, Seq::empty());
    match body_length_of(collect_headers(h, e0, Seq::empty()).0) {
        Ok(Some(n)) => {
            if rest.len() >= n {
                let r2 = rest.subrange(0, n as int);
                assert((h + rest).subrange(h.len() as int, h.len() + n) =~= r2);
                lemma_line_end_append(h, r2, 0);
                assert((h + r2).subrange(0, e0) =~= h.subrange(0, e0));
                lemma_collect_append(h, r2, e0, Seq::empty());
                assert((h + r2).subrange(h.len() as int, h.len() + n) =~= r2);
            }
        },
        _ => {},
    }
}

} // verus!
