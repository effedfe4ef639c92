use crate::request::{version_literal, HeaderSeq, Request, RequestView};
use vstd::prelude::*;

verus! {

/// `name: value` and a CRLF.
pub open spec fn header_line(h: (Seq<u8>, Seq<u8>)) -> Seq<u8> {
    h.0 + seq![58u8, 32] + h.1 + seq![13u8, 10]
}

/// The header lines in order.
pub open spec fn headers_wire(hs: HeaderSeq) -> Seq<u8>
    decreases hs.len(),
{
    if hs.len() == 0 {
        Seq::empty()
    } else {
        headers_wire(hs.drop_last()) + header_line(hs.last())
    }
}

/// `method target version` and a CRLF.
pub open spec fn request_line(r: RequestView) -> Seq<u8> {
    r.method + seq![32u8] + r.target + seq![32u8] + version_literal(r.version) + seq![13u8, 10]
}

pub open spec fn body_bytes(b: Option<Seq<u8>>) -> Seq<u8> {
    match b {
        Some(b) => b,
        None => Seq::empty(),
    }
}

/// The wire form of a request: request line, header lines, a blank line, and
/// the body bytes with nothing after them.
pub open spec fn wire(r: RequestView) -> Seq<u8> {
    request_line(r) + headers_wire(r.headers) + seq![13u8, 10] + body_bytes(r.body)
}

fn push_all(out: &mut Vec<u8>, b: &[u8])
    ensures
        final(out)@ == old(out)@ + b@,
{
    let ghost start = out@;
    let mut i: usize = 0;
    while i < b.len()
        invariant
            i <= b@.len(),
            out@ == start + b@.subrange(0, i as int),
        decreases b@.len() - i,
    {
        out.push(b[i]);
        assert(b@.subrange(0, i + 1) == b@.subrange(0, i as int).push(b@[i as int]));
        i = i + 1;
    }
    assert(b@ == b@.subrange(0, b@.len() as int));
}

/// The wire form of `req`. Total: every request has one.
pub fn serialize(req: &Request) -> (r: Vec<u8>)
    ensures
        r@ == wire(req@),
{
    let ghost rv = req@;
    let mut out: Vec<u8> = Vec::new();
    push_all(&mut out, req.method.as_slice());
    out.push(32);
    push_all(&mut out, req.target.as_slice());
    out.push(32);
    let v = req.version.literal();
    push_all(&mut out, v.as_slice());
    out.push(13);
    out.push(10);
    assert(out@ =~= request_line(rv));
    let mut i: usize = 0;
    while i < req.headers.len()
        invariant
            i <= rv.headers.len(),
            rv == req@,
            out@ == request_line(rv) + headers_wire(rv.headers.subrange(0, i as int)),
        decreases rv.headers.len() - i,
    {
        let ghost before = out@;
        push_all(&mut out, req.headers.name_at(i));
        out.push(58);
        out.push(32);
        push_all(&mut out, req.headers.value_at(i));
        out.push(13);
        out.push(10);
        proof {
            let hs = rv.headers.subrange(0, i + 1);
            assert(hs.drop_last() =~= rv.headers.subrange(0, i as int));
            assert(out@ =~= before + header_line(rv.headers[i as int]));
        }
        i = i + 1;
    }
    assert(rv.headers.subrange(0, rv.headers.len() as int) =~= rv.headers);
    out.push(13);
    out.push(10);
    match &req.body {
        Some(b) => push_all(&mut out, b.as_slice()),
        None => {},
    }
    assert(out@ =~= wire(rv));
    out
}

} // verus!
