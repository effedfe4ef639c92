use vstd::prelude::*;

verus! {

/// The protocol versions a request line may name.
#[derive(Clone, Copy, Debug, PartialEq, Eq, Structural)]
pub enum Version {
    Http09,
    Http10,
    Http11,
    Http2,
    Http3,
}

/// The literal that names each version on the wire.
pub open spec fn version_literal(v: Version) -> Seq<u8> {
    match v {
        Version::Http09 => seq![72u8, 84, 84, 80, 47, 48, 46, 57],
        Version::Http10 => seq![72u8, 84, 84, 80, 47, 49, 46, 48],
        Version::Http11 => seq![72u8, 84, 84, 80, 47, 49, 46, 49],
        Version::Http2 => seq![72u8, 84, 84, 80, 47, 50, 46, 48],
        Version::Http3 => seq![72u8, 84, 84, 80, 47, 51, 46, 48],
    }
}

/// The version a token names: one of the five literals, and HTTP/1.1 for
/// anything else (an unknown or missing token is not an error).
pub open spec fn version_of(token: Seq<u8>) -> Version {
    if token == version_literal(Version::Http09) {
        Version::Http09
    } else if token == version_literal(Version::Http10) {
        Version::Http10
    } else if token == version_literal(Version::Http2) {
        Version::Http2
    } else if token == version_literal(Version::Http3) {
        Version::Http3
    } else {
        Version::Http11
    }
}

/// Byte-wise equality of two byte strings.
pub fn bytes_eq(a: &[u8], b: &[u8]) -> (r: bool)
    ensures
        r == (a@ == b@),
{
    if a.len() != b.len() {
        return false;
    }
    let mut i: usize = 0;
    while i < a.len()
        invariant
            a@.len() == b@.len(),
            i <= a@.len(),
            a@.subrange(0, i as int) == b@.subrange(0, i as int),
        decreases a@.len() - i,
    {
        if a[i] != b[i] {
            assert(a@[i as int] != b@[i as int]);
            return false;
        }
        assert(a@.subrange(0, i + 1) == a@.subrange(0, i as int).push(a@[i as int]));
        assert(b@.subrange(0, i + 1) == b@.subrange(0, i as int).push(b@[i as int]));
        i = i + 1;
    }
    assert(a@ == a@.subrange(0, a@.len() as int));
    assert(b@ == b@.subrange(0, b@.len() as int));
    true
}

impl Version {
    /// The wire literal of this version.
    pub fn literal(&self) -> (r: Vec<u8>)
        ensures
            r@ == version_literal(*self),
    {
        match self {
            Version::Http09 => vec![72u8, 84, 84, 80, 47, 48, 46, 57],
            Version::Http10 => vec![72u8, 84, 84, 80, 47, 49, 46, 48],
            Version::Http11 => vec![72u8, 84, 84, 80, 47, 49, 46, 49],
            Version::Http2 => vec![72u8, 84, 84, 80, 47, 50, 46, 48],
            Version::Http3 => vec![72u8, 84, 84, 80, 47, 51, 46, 48],
        }
    }
}

/// Maps a version token to its version; unrecognised tokens give HTTP/1.1.
pub fn parse_version(token: &[u8]) -> (r: Version)
    ensures
        r == version_of(token@),
{
    let t09 = Version::Http09.literal();
    let t10 = Version::Http10.literal();
    let t2 = Version::Http2.literal();
    let t3 = Version::Http3.literal();
    if bytes_eq(token, t09.as_slice()) {
        Version::Http09
    } else if bytes_eq(token, t10.as_slice()) {
        Version::Http10
    } else if bytes_eq(token, t2.as_slice()) {
        Version::Http2
    } else if bytes_eq(token, t3.as_slice()) {
        Version::Http3
    } else {
        Version::Http11
    }
}


/// The ways a parse can fail. Every failure is returned to the caller.
#[derive(Clone, Copy, Debug, PartialEq, Eq, Structural)]
pub enum ParseError {
    /// The request line lacks a method or a target.
    MalformedRequestLine,
    /// A line could not be read from the byte source.
    UnreadableLine,
    /// The length directive is not a decimal number that fits in `usize`.
    BadContentLength,
    /// The source ended before the declared number of body bytes.
    TruncatedBody,
    /// The body is not valid text where text is required.
    InvalidBodyEncoding,
}

/// The header list as a sequence of (name, value) pairs, in insertion order.
pub type HeaderSeq = Seq<(Seq<u8>, Seq<u8>)>;

/// No name occurs twice.
pub open spec fn keys_unique(hs: HeaderSeq) -> bool {
    forall|i: int, j: int|
        0 <= i < hs.len() && 0 <= j < hs.len() && #[trigger] hs[i].0 == #[trigger] hs[j].0 ==> i == j
}

pub open spec fn has_key(hs: HeaderSeq, k: Seq<u8>) -> bool {
    exists|i: int| 0 <= i < hs.len() && #[trigger] hs[i].0 == k
}

/// The position of `k` in the list (meaningful when `has_key`).
pub open spec fn key_index(hs: HeaderSeq, k: Seq<u8>) -> int {
    choose|i: int| 0 <= i < hs.len() && #[trigger] hs[i].0 == k
}

/// Inserting a pair: a name already present keeps its place and takes the new
/// value (last write wins); a new name goes to the end.
pub open spec fn header_insert(hs: HeaderSeq, k: Seq<u8>, v: Seq<u8>) -> HeaderSeq {
    if has_key(hs, k) {
        hs.update(key_index(hs, k), (k, v))
    } else {
        hs.push((k, v))
    }
}

/// The value stored under `k`, if any.
pub open spec fn header_value(hs: HeaderSeq, k: Seq<u8>) -> Option<Seq<u8>> {
    if has_key(hs, k) {
        Some(hs[key_index(hs, k)].1)
    } else {
        None
    }
}

/// One header field.
#[derive(Clone, Debug)]
pub struct Header {
    pub name: Vec<u8>,
    pub value: Vec<u8>,
}

/// An insertion-ordered map from header name to header value.
#[derive(Debug)]
pub struct Headers {
    fields: Vec<Header>,
}

impl View for Headers {
    type V = HeaderSeq;

    closed spec fn view(&self) -> HeaderSeq {
        pairs_of(self.fields@)
    }
}

spec fn pairs_of(fields: Seq<Header>) -> HeaderSeq {
    Seq::new(fields.len(), |i: int| (fields[i].name@, fields[i].value@))
}

impl Headers {
    /// No name occurs twice.
    #[verifier::type_invariant]
    closed spec fn inv(&self) -> bool {
        keys_unique(self@)
    }

    /// An empty header map.
    pub fn new() -> (r: Headers)
        ensures
            r@ == Seq::<(Seq<u8>, Seq<u8>)>::empty(),
    {
        let r = Headers { fields: Vec::new() };
        assert(r@ =~= Seq::<(Seq<u8>, Seq<u8>)>::empty());
        r
    }

    /// The number of fields.
    pub fn len(&self) -> (r: usize)
        ensures
            r == self@.len(),
    {
        self.fields.len()
    }

    /// The name of the field at `i`.
    pub fn name_at(&self, i: usize) -> (r: &[u8])
        requires
            i < self@.len(),
        ensures
            r@ == self@[i as int].0,
    {
        self.fields[i].name.as_slice()
    }

    /// The value of the field at `i`.
    pub fn value_at(&self, i: usize) -> (r: &[u8])
        requires
            i < self@.len(),
        ensures
            r@ == self@[i as int].1,
    {
        self.fields[i].value.as_slice()
    }

    /// The position of the field named `name`, if present.
    fn find(&self, name: &[u8]) -> (r: Option<usize>)
        ensures
            match r {
                Some(i) => i < self@.len() && self@[i as int].0 == name@,
                None => !has_key(self@, name@),
            },
    {
        let mut i: usize = 0;
        while i < self.fields.len()
            invariant
                i <= self@.len(),
                self@.len() == self.fields@.len(),
                forall|j: int| 0 <= j < i ==> #[trigger] self@[j].0 != name@,
            decreases self.fields@.len() - i,
        {
            if bytes_eq(self.fields[i].name.as_slice(), name) {
                return Some(i);
            }
            i = i + 1;
        }
        None
    }

    /// Stores `value` under `name`, replacing an earlier value of that name.
    pub fn insert(&mut self, name: Vec<u8>, value: Vec<u8>)
        ensures
            final(self)@ == header_insert(old(self)@, name@, value@),
            keys_unique(final(self)@),
    {
        proof {
            use_type_invariant(&*self);
        }
        let ghost hs = self@;
        let ghost k = name@;
        let ghost v = value@;
        let found = self.find(name.as_slice());
        let mut fields: Vec<Header> = Vec::new();
        proof {
            assert(pairs_of(fields@) =~= Seq::<(Seq<u8>, Seq<u8>)>::empty());
        }
        std::mem::swap(&mut self.fields, &mut fields);
        assert(pairs_of(fields@) == hs);
        match found {
            Some(i) => {
                fields.set(i, Header { name, value });
                proof {
                    assert(has_key(hs, k));
                    assert(key_index(hs, k) == i as int);
                    assert(pairs_of(fields@) =~= hs.update(i as int, (k, v)));
                }
            },
            None => {
                fields.push(Header { name, value });
                proof {
                    assert(pairs_of(fields@) =~= hs.push((k, v)));
                }
            },
        }
        self.fields = fields;
    }

    /// The value stored under `name`, if any.
    pub fn get(&self, name: &[u8]) -> (r: Option<&[u8]>)
        ensures
            match r {
                Some(v) => header_value(self@, name@) == Some(v@),
                None => header_value(self@, name@) is None,
            },
    {
        proof {
            use_type_invariant(self);
        }
        match self.find(name) {
            Some(i) => {
                proof {
                    assert(has_key(self@, name@));
                    assert(key_index(self@, name@) == i as int);
                }
                Some(self.fields[i].value.as_slice())
            },
            None => None,
        }
    }
}


/// The abstract value of a request.
pub struct RequestView {
    pub method: Seq<u8>,
    pub target: Seq<u8>,
    pub version: Version,
    pub headers: HeaderSeq,
    pub body: Option<Seq<u8>>,
}

/// A parsed request. The body is raw bytes, exactly as many as the length
/// directive declared; it is absent when no length directive was sent.
#[derive(Debug)]
pub struct Request {
    pub method: Vec<u8>,
    pub target: Vec<u8>,
    pub version: Version,
    pub headers: Headers,
    pub body: Option<Vec<u8>>,
}

impl View for Request {
    type V = RequestView;

    open spec fn view(&self) -> RequestView {
        RequestView {
            method: self.method@,
            target: self.target@,
            version: self.version,
            headers: self.headers@,
            body: match self.body {
                Some(b) => Some(b@),
                None => None,
            },
        }
    }
}

} // verus!
