//! Responses, and the serialiser that writes one as bytes for the wire.

use vstd::prelude::*;
use vstd::string::StringSliceAdditionalSpecFns;
use crate::bytes::{
    append, decimal, lemma_decimal_number, number, optional, push_decimal, render_number, to_vec,
    COLON, CR, LF, SPACE,
};
use crate::assoc::{as_map, keys_distinct, lemma_put, put};
use crate::fields::{Entry, Fields};

verus! {

/// A response under construction: a status, headers and possibly a body.
#[derive(Debug)]
pub struct Response {
    status: u16,
    body: Option<Vec<u8>>,
    status_reason: Vec<u8>,
    headers: Fields,
}

/// What a `Response` holds, as mathematical values. The headers stand in the
/// order in which their names were first set.
pub ghost struct ResponseView {
    pub status: u16,
    pub reason: Seq<u8>,
    pub headers: Seq<Entry>,
    pub body: Option<Seq<u8>>,
}

/// The status that goes on the wire: 200 where none was set.
pub open spec fn shown_status(status: u16) -> u16 {
    if status == 0 {
        200
    } else {
        status
    }
}

/// The first line of a response.
pub open spec fn status_line(status: u16, reason: Seq<u8>) -> Seq<u8> {
    "HTTP/1.1 ".spec_bytes() + decimal(shown_status(status) as nat) + seq![SPACE] + reason
        + seq![CR, LF]
}

/// One header as it goes on the wire.
pub open spec fn header_line(entry: Entry) -> Seq<u8> {
    entry.0 + seq![COLON, SPACE] + entry.1 + seq![CR, LF]
}

/// The header lines of a response, one after the other.
pub open spec fn header_lines(headers: Seq<Entry>) -> Seq<u8>
    decreases headers.len(),
{
    if headers.len() == 0 {
        Seq::empty()
    } else {
        header_lines(headers.drop_last()) + header_line(headers.last())
    }
}

/// The bytes of a body, none if there is no body.
pub open spec fn body_bytes(body: Option<Seq<u8>>) -> Seq<u8> {
    match body {
        Some(bytes) => bytes,
        None => Seq::empty(),
    }
}

/// A response as it goes on the wire: the status line, the header lines, an
/// empty line, and the body if there is one.
pub open spec fn wire(response: ResponseView) -> Seq<u8> {
    status_line(response.status, response.reason) + header_lines(response.headers) + seq![CR, LF]
        + body_bytes(response.body)
}

/// The response before any handler has run: 404 Not Found, no header, no body.
pub open spec fn not_found() -> ResponseView {
    ResponseView {
        status: 404,
        reason: "Not Found".spec_bytes(),
        headers: Seq::empty(),
        body: None,
    }
}

/// `response` after `body` has become its body: the body is there, and the
/// header `Content-Length` gives its length.
pub open spec fn with_body(response: ResponseView, body: Seq<u8>) -> ResponseView {
    ResponseView {
        headers: put(response.headers, "Content-Length".spec_bytes(), decimal(body.len())),
        body: Some(body),
        ..response
    }
}

impl View for Response {
    type V = ResponseView;

    closed spec fn view(&self) -> ResponseView {
        ResponseView {
            status: self.status,
            reason: self.status_reason@,
            headers: self.headers.entries(),
            body: optional(self.body),
        }
    }
}

impl Clone for Response {
    fn clone(&self) -> (copy: Response)
        ensures
            copy@ == self@,
    {
        Response {
            status: self.status,
            body: match &self.body {
                Some(bytes) => Some(to_vec(bytes.as_slice())),
                None => None,
            },
            status_reason: to_vec(self.status_reason.as_slice()),
            headers: self.headers.clone(),
        }
    }
}

impl Response {
    /// The response before any handler has run.
    pub fn new() -> (response: Response)
        ensures
            response@ == not_found(),
    {
        Response {
            body: None,
            status: 404,
            status_reason: to_vec("Not Found".as_bytes()),
            headers: Fields::new(),
        }
    }

    /// Sets the status code and the reason phrase.
    pub fn set_status(&mut self, status: u16, status_reason: Vec<u8>)
        ensures
            final(self)@ == (ResponseView { status, reason: status_reason@, ..old(self)@ }),
    {
        self.status = status;
        self.status_reason = status_reason;
    }

    /// Sets the body, and the header `Content-Length` to its length.
    pub fn set_body(&mut self, body: Vec<u8>)
        ensures
            final(self)@ == with_body(old(self)@, body@),
    {
        let length = render_number(body.len());
        self.set_header(to_vec("Content-Length".as_bytes()), length);
        self.body = Some(body);
    }

    /// Sets the header `name` to `value`. A value set earlier is replaced.
    pub fn set_header(&mut self, name: Vec<u8>, value: Vec<u8>)
        ensures
            final(self)@ == (ResponseView {
                headers: put(old(self)@.headers, name@, value@),
                ..old(self)@
            }),
    {
        self.headers.insert(name, value);
    }

    /// The head of the response as it goes on the wire: the status line and
    /// the header lines, with the empty line that ends them.
    fn head_bytes(&mut self) -> (out: Vec<u8>)
        ensures
            final(self)@ == (ResponseView {
                status: shown_status(old(self)@.status),
                ..old(self)@
            }),
            out@ == status_line(old(self)@.status, old(self)@.reason) + header_lines(
                old(self)@.headers,
            ) + seq![CR, LF],
    {
        let mut out = to_vec("HTTP/1.1 ".as_bytes());
        if self.status == 0 {
            self.status = 200;
        }
        push_decimal(&mut out, self.status as usize);
        out.push(SPACE);
        append(&mut out, self.status_reason.as_slice());
        out.push(CR);
        out.push(LF);
        proof {
            assert(out@ =~= status_line(old(self)@.status, old(self)@.reason));
        }
        let ghost top = out@;
        let ghost entries = self.headers.entries();
        let mut i: usize = 0;
        proof {
            assert(entries.take(0) =~= Seq::<Entry>::empty());
        }
        while i < self.headers.len()
            invariant
                i <= entries.len(),
                entries == self.headers.entries(),
                out@ == top + header_lines(entries.take(i as int)),
            decreases entries.len() - i,
        {
            let field = self.headers.entry(i);
            let ghost before = out@;
            append(&mut out, field.name.as_slice());
            out.push(COLON);
            out.push(SPACE);
            append(&mut out, field.value.as_slice());
            out.push(CR);
            out.push(LF);
            proof {
                assert(out@ =~= before + header_line(entries[i as int]));
                assert(entries.take(i + 1).drop_last() =~= entries.take(i as int));
                assert(entries.take(i + 1).last() == entries[i as int]);
                assert(out@ =~= top + header_lines(entries.take(i + 1)));
            }
            i += 1;
        }
        proof {
            assert(entries.take(entries.len() as int) =~= entries);
        }
        out.push(CR);
        out.push(LF);
        proof {
            assert(out@ =~= top + header_lines(entries) + seq![CR, LF]);
        }
        out
    }

    /// The response as it goes on the wire. A status of 0 becomes 200.
    pub fn as_bytes(&mut self) -> (out: Vec<u8>)
        ensures
            final(self)@ == (ResponseView {
                status: shown_status(old(self)@.status),
                ..old(self)@
            }),
            out@ == wire(old(self)@),
    {
        let mut out = self.head_bytes();
        if let Some(body) = &self.body {
            append(&mut out, body.as_slice());
        }
        proof {
            assert(out@ =~= wire(old(self)@));
        }
        out
    }

    /// The status code.
    pub fn status(&self) -> (status: u16)
        ensures
            status == self@.status,
    {
        self.status
    }

    /// The reason phrase.
    pub fn status_reason(&self) -> (reason: &Vec<u8>)
        ensures
            reason@ == self@.reason,
    {
        &self.status_reason
    }

    /// The headers.
    pub fn headers(&self) -> (headers: &Fields)
        ensures
            headers.entries() == self@.headers,
    {
        &self.headers
    }

    /// The body, if one was set.
    pub fn body(&self) -> (body: &Option<Vec<u8>>)
        ensures
            optional(*body) == self@.body,
    {
        &self.body
    }
}

/// A response with a body announces the length of that body: its header
/// `Content-Length` holds the decimal number of the body's bytes, which reads
/// back as that number.
pub proof fn lemma_body_length_announced(response: ResponseView, body: Seq<u8>)
    requires
        keys_distinct(response.headers),
    ensures
        keys_distinct(with_body(response, body).headers),
        as_map(with_body(response, body).headers).contains_key("Content-Length".spec_bytes()),
        as_map(with_body(response, body).headers)["Content-Length".spec_bytes()] == decimal(
            body.len(),
        ),
        number(decimal(body.len())) == Some(body.len()),
{
    lemma_put(response.headers, "Content-Length".spec_bytes(), decimal(body.len()));
    lemma_decimal_number(body.len());
}

} // verus!
