//! Heads of HTTP/1 messages, as `httparse` reads them.

use vstd::prelude::*;

verus! {

/// Headers as names and values.
pub type HeadersView = Seq<(Seq<char>, Seq<u8>)>;

/// Method, path, minor version, headers and size of a request head.
pub type RequestHeadView = (
    Option<Seq<char>>,
    Option<Seq<char>>,
    Option<u8>,
    HeadersView,
    nat,
);

/// The head of a request.
#[derive(Debug, PartialEq, Eq)]
pub struct RequestHead {
    pub method: Option<String>,
    pub path: Option<String>,
    /// The minor version.
    pub version: Option<u8>,
    pub headers: Vec<(String, Vec<u8>)>,
    /// Bytes up to and with the empty line.
    pub size: usize,
}

/// The head of a response, as far as it was there.
#[derive(Debug, PartialEq, Eq)]
pub struct ResponseHead {
    pub code: Option<u16>,
    pub headers: Vec<(String, Vec<u8>)>,
}

/// The headers in terms of sequences.
pub open spec fn headers_view(h: Seq<(String, Vec<u8>)>) -> HeadersView {
    Seq::new(h.len(), |i: int| (h[i].0@, h[i].1@))
}

/// The text of an optional string.
pub open spec fn string_opt(s: Option<String>) -> Option<Seq<char>> {
    match s {
        Some(t) => Some(t@),
        None => None,
    }
}

impl View for RequestHead {
    type V = RequestHeadView;

    open spec fn view(&self) -> RequestHeadView {
        (
            string_opt(self.method),
            string_opt(self.path),
            self.version,
            headers_view(self.headers@),
            self.size as nat,
        )
    }
}

/// What the bytes say as the head of a request with at most 64 headers: an
/// error, nothing yet, or the head.
pub uninterp spec fn request_head(buf: Seq<u8>) -> Result<Option<RequestHeadView>, ()>;

/// `httparse::Request::parse`. The size of a head is at most that of the bytes.
#[verifier::external_body]
pub(crate) fn parse_request(buf: &[u8]) -> (r: Result<Option<RequestHead>, ()>)
    ensures
        request_head(buf@) == match r {
            Ok(Some(h)) => Ok(Some(h@)),
            Ok(None) => Ok(None),
            Err(e) => Err(e),
        },
        r matches Ok(Some(h)) ==> h.size <= buf@.len(),
{
    let mut headers = [httparse::EMPTY_HEADER; 64];
    let mut req = httparse::Request::new(&mut headers);
    match req.parse(buf) {
        Ok(httparse::Status::Complete(size)) => Ok(Some(RequestHead {
            method: req.method.map(|s| s.to_string()),
            path: req.path.map(|s| s.to_string()),
            version: req.version,
            headers: req.headers.iter().map(|h| (h.name.to_string(), h.value.to_vec())).collect(),
            size,
        })),
        Ok(httparse::Status::Partial) => Ok(None),
        Err(_) => Err(()),
    }
}

/// What the bytes say as the head of a response with at most 16 headers: status
/// code and headers, as far as they are there, unless they are no such head.
pub uninterp spec fn response_head(buf: Seq<u8>) -> Option<(Option<u16>, HeadersView)>;

/// `httparse::Response::parse`. A head that is cut off is no error.
#[verifier::external_body]
pub(crate) fn parse_response(buf: &[u8]) -> (r: Option<ResponseHead>)
    ensures
        response_head(buf@) == match r {
            Some(h) => Some((h.code, headers_view(h.headers@))),
            None => None,
        },
{
    let mut headers = [httparse::EMPTY_HEADER; 16];
    let mut resp = httparse::Response::new(&mut headers);
    resp.parse(buf).ok()?;
    Some(ResponseHead {
        code: resp.code,
        headers: resp.headers.iter().map(|h| (h.name.to_string(), h.value.to_vec())).collect(),
    })
}

/// The lower-case form of an ASCII letter; any other character as it is.
pub open spec fn lower(c: char) -> char {
    if 'A' <= c <= 'Z' {
        (c as u32 + 32) as char
    } else {
        c
    }
}

/// Two texts are the same but for the case of ASCII letters.
pub open spec fn same_ignoring_case(a: Seq<char>, b: Seq<char>) -> bool {
    a.len() == b.len() && forall|i: int| 0 <= i < a.len() ==> lower(#[trigger] a[i]) == lower(b[i])
}

fn lower_code(c: char) -> (u: u32)
    ensures
        u == lower(c) as u32,
{
    if 'A' <= c && c <= 'Z' {
        c as u32 + 32
    } else {
        c as u32
    }
}

/// Whether two texts are the same but for the case of ASCII letters.
pub fn eq_ignore_case(a: &str, b: &str) -> (r: bool)
    ensures
        r == same_ignoring_case(a@, b@),
{
    let x = crate::text::chars_of(a);
    let y = crate::text::chars_of(b);
    if x.len() != y.len() {
        return false;
    }
    let mut i: usize = 0;
    while i < x.len()
        invariant
            i <= x@.len(),
            x@ == a@,
            y@ == b@,
            x@.len() == y@.len(),
            forall|k: int| 0 <= k < i ==> lower(#[trigger] a@[k]) == lower(b@[k]),
        decreases x@.len() - i,
    {
        if lower_code(x[i]) != lower_code(y[i]) {
            assert(lower(a@[i as int]) != lower(b@[i as int]));
            return false;
        }
        i += 1;
    }
    true
}

/// The value of the first header of this name.
pub open spec fn header_value(h: HeadersView, name: Seq<char>) -> Option<Seq<u8>>
    decreases h.len(),
{
    if h.len() == 0 {
        None
    } else if same_ignoring_case(h[0].0, name) {
        Some(h[0].1)
    } else {
        header_value(h.drop_first(), name)
    }
}

/// Finds the value of the first header of this name.
pub fn find_header<'a>(h: &'a Vec<(String, Vec<u8>)>, name: &str) -> (r: Option<&'a Vec<u8>>)
    ensures
        match header_value(headers_view(h@), name@) {
            Some(v) => r matches Some(x) && x@ == v,
            None => r is None,
        },
{
    let ghost all = headers_view(h@);
    let mut i: usize = 0;
    assert(all.skip(0) =~= all);
    while i < h.len()
        invariant
            i <= h@.len(),
            all == headers_view(h@),
            header_value(all, name@) == header_value(all.skip(i as int), name@),
        decreases h@.len() - i,
    {
        assert(all.skip(i as int)[0] == (h@[i as int].0@, h@[i as int].1@));
        if eq_ignore_case(h[i].0.as_str(), name) {
            return Some(&h[i].1);
        }
        assert(all.skip(i as int).drop_first() =~= all.skip(i + 1));
        i += 1;
    }
    None
}

} // verus!
