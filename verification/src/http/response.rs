//! Responses and their wire form: a status line, one line per header, a blank
//! line, then the body bytes verbatim.

use vstd::prelude::*;

verus! {

use vstd::utf8::encode_utf8;
use crate::table::StrTable;
use crate::text::push_str_bytes;

/// The status codes this server surfaces.
#[derive(Clone, Copy, Debug, PartialEq, Eq, Structural)]
pub enum Status {
    Okay,
    InternalServer,
    NotFound,
    MethodNotAllowed,
    BadRequest,
}

/// The code and reason phrase of a status, as written on the status line.
pub open spec fn reason_chars(s: Status) -> Seq<char> {
    match s {
        Status::Okay => "200 OK"@,
        Status::InternalServer => "500 Internal Server Error"@,
        Status::NotFound => "404 Not Found"@,
        Status::MethodNotAllowed => "405 Method Not Allowed"@,
        Status::BadRequest => "400 Bad Request"@,
    }
}

/// The status line for `s`, carriage return and line feed included.
pub open spec fn status_line_bytes(s: Status) -> Seq<u8> {
    encode_utf8("HTTP/1.1 "@) + encode_utf8(reason_chars(s)) + encode_utf8("\r\n"@)
}

/// A whole response with status `s` and no headers and no body: the status
/// line followed by the empty-header blank line.
pub open spec fn status_head_bytes(s: Status) -> Seq<u8> {
    status_line_bytes(s) + encode_utf8("\r\n"@)
}

impl Status {
    /// The code and reason phrase, e.g. `200 OK`.
    pub fn reason(&self) -> (r: &'static str)
        ensures
            r@ == reason_chars(*self),
    {
        match self {
            Status::Okay => "200 OK",
            Status::InternalServer => "500 Internal Server Error",
            Status::NotFound => "404 Not Found",
            Status::MethodNotAllowed => "405 Method Not Allowed",
            Status::BadRequest => "400 Bad Request",
        }
    }

    /// The serialized form of a response that carries only this status:
    /// status line, blank line, no headers, no body.
    pub fn head_bytes(&self) -> (r: Vec<u8>)
        ensures
            r@ == status_head_bytes(*self),
    {
        let mut out: Vec<u8> = Vec::new();
        proof {
            assert(out@ + encode_utf8("HTTP/1.1 "@) =~= encode_utf8("HTTP/1.1 "@));
        }
        push_str_bytes(&mut out, "HTTP/1.1 ");
        push_str_bytes(&mut out, self.reason());
        push_str_bytes(&mut out, "\r\n");
        push_str_bytes(&mut out, "\r\n");
        proof {
            assert(out@ =~= status_head_bytes(*self));
        }
        out
    }
}

/// The wire form of one header pair: `name: value` and a line break.
pub open spec fn header_line_bytes(p: (Seq<char>, Seq<char>)) -> Seq<u8> {
    encode_utf8(p.0) + encode_utf8(": "@) + encode_utf8(p.1) + encode_utf8("\r\n"@)
}

/// The wire form of a header table: one line per pair, in insertion order.
pub open spec fn header_block_bytes(hs: Seq<(Seq<char>, Seq<char>)>) -> Seq<u8>
    decreases hs.len(),
{
    if hs.len() == 0 {
        Seq::empty()
    } else {
        header_line_bytes(hs.first()) + header_block_bytes(hs.drop_first())
    }
}

pub proof fn lemma_header_block_push(hs: Seq<(Seq<char>, Seq<char>)>, p: (Seq<char>, Seq<char>))
    ensures
        header_block_bytes(hs.push(p)) == header_block_bytes(hs) + header_line_bytes(p),
    decreases hs.len(),
{
    if hs.len() == 0 {
        assert(hs.push(p).drop_first() =~= hs);
        assert(hs =~= Seq::<(Seq<char>, Seq<char>)>::empty());
        assert(header_block_bytes(hs) == Seq::<u8>::empty());
        assert(header_block_bytes(hs.push(p)) =~= header_block_bytes(hs) + header_line_bytes(p));
    } else {
        lemma_header_block_push(hs.drop_first(), p);
        assert(hs.push(p).drop_first() =~= hs.drop_first().push(p));
        assert(hs.push(p).first() == hs.first());
        assert(header_block_bytes(hs.push(p)) =~= header_block_bytes(hs) + header_line_bytes(p));
    }
}

/// The abstract value of a response.
pub struct ResponseModel {
    pub status: Status,
    pub headers: Seq<(Seq<char>, Seq<char>)>,
    pub body: Seq<u8>,
}

/// The full wire form of a response: status line, header lines, blank line,
/// body bytes appended verbatim.
pub open spec fn spec_serialize(r: ResponseModel) -> Seq<u8> {
    status_line_bytes(r.status) + header_block_bytes(r.headers) + encode_utf8("\r\n"@) + r.body
}

/// The model of a freshly constructed response: status `Okay`, no headers,
/// no body. Handlers start from this value.
pub open spec fn default_response() -> ResponseModel {
    ResponseModel { status: Status::Okay, headers: Seq::empty(), body: Seq::empty() }
}

/// A response under construction: handlers receive one with status `Okay` and
/// no headers or body, and fill it in.
#[derive(Debug)]
pub struct Response {
    pub headers: StrTable,
    pub body: Vec<u8>,
    pub status: Status,
}

impl View for Response {
    type V = ResponseModel;

    open spec fn view(&self) -> ResponseModel {
        ResponseModel { status: self.status, headers: self.headers@, body: self.body@ }
    }
}

impl Default for Response {
    /// An empty successful response: status `Okay`, no headers, no body.
    fn default() -> (r: Response)
        ensures
            r@ == default_response(),
    {
        let r = Response { headers: StrTable::new(), body: Vec::new(), status: Status::Okay };
        proof {
            assert(r@.headers =~= default_response().headers);
            assert(r@.body =~= default_response().body);
        }
        r
    }
}

impl Response {
    /// The wire bytes of this response.
    pub fn serialize(self) -> (r: Vec<u8>)
        ensures
            r@ == spec_serialize(self@),
    {
        let ghost model = self@;
        let mut out: Vec<u8> = Vec::new();
        proof {
            assert(out@ + encode_utf8("HTTP/1.1 "@) =~= encode_utf8("HTTP/1.1 "@));
        }
        push_str_bytes(&mut out, "HTTP/1.1 ");
        push_str_bytes(&mut out, self.status.reason());
        push_str_bytes(&mut out, "\r\n");
        proof {
            assert(model.headers.take(0) =~= Seq::<(Seq<char>, Seq<char>)>::empty());
            assert(out@ =~= status_line_bytes(model.status) + header_block_bytes(
                model.headers.take(0),
            ));
        }
        let n = self.headers.len();
        let mut i: usize = 0;
        while i < n
            invariant
                i <= n,
                n == model.headers.len(),
                self@ == model,
                out@ == status_line_bytes(model.status) + header_block_bytes(
                    model.headers.take(i as int),
                ),
            decreases n - i,
        {
            push_str_bytes(&mut out, self.headers.key_at(i).as_str());
            push_str_bytes(&mut out, ": ");
            push_str_bytes(&mut out, self.headers.value_at(i).as_str());
            push_str_bytes(&mut out, "\r\n");
            proof {
                lemma_header_block_push(model.headers.take(i as int), model.headers[i as int]);
                assert(model.headers.take(i + 1) =~= model.headers.take(i as int).push(
                    model.headers[i as int],
                ));
                assert(out@ =~= status_line_bytes(model.status) + header_block_bytes(
                    model.headers.take(i + 1),
                ));
            }
            i = i + 1;
        }
        push_str_bytes(&mut out, "\r\n");
        let mut body = self.body;
        out.append(&mut body);
        proof {
            assert(model.headers.take(n as int) =~= model.headers);
            assert(out@ =~= spec_serialize(model));
        }
        out
    }
}

/// Conversion of a finished value into wire bytes.
pub trait IntoResponse {
    /// The wire bytes to write back on the connection.
    fn into_response(self) -> Vec<u8>;
}

impl IntoResponse for Response {
    fn into_response(self) -> Vec<u8> {
        self.serialize()
    }
}

} // verus!
