//! Content negotiation: choosing an encoding that the client accepts, and
//! encoding the body of a response with it.

use std::io::Write;
use flate2::write::GzEncoder;
use flate2::Compression;
use vstd::prelude::*;
use vstd::string::StringSliceAdditionalSpecFns;
use crate::assoc::{as_map, keys_distinct, lemma_put, put};
use crate::bytes::{
    decimal, is_word, optional, pieces, split, to_vec, trim, trimmed, views, COMMA,
};
use crate::request::Request;
use crate::response::{with_body, Response, ResponseView};

verus! {

/// The encodings that the server can apply to a body.
#[derive(Clone, Copy, Debug, PartialEq, Eq, Structural)]
pub enum Encoding {
    Gzip,
}

/// The gzip stream that the encoder writes for `data` at its default level.
pub uninterp spec fn gzip(data: Seq<u8>) -> Seq<u8>;

/// Compresses `data` into a gzip stream.
///
/// Trusted, not proved: the body hands `data` to a `flate2::write::GzEncoder`
/// made by `GzEncoder::new` over an empty `Vec` at `Compression::default()`,
/// with `write_all`, and takes the `Vec` back from `GzEncoder::finish`. The
/// header that the encoder writes holds no time stamp and no file name, so
/// the stream depends on the bytes of `data` alone, and `gzip` names it.
/// Writing into a `Vec` does not fail, so neither call returns an error.
#[verifier::external_body]
fn compress(data: &[u8]) -> (out: Vec<u8>)
    ensures
        out@ == gzip(data@),
{
    let mut encoder = GzEncoder::new(Vec::new(), Compression::default());
    encoder.write_all(data).unwrap();
    encoder.finish().unwrap()
}

/// The encoding that `name` stands for, if the server can apply it.
pub open spec fn supported(name: Seq<u8>) -> Option<Encoding> {
    if name == "gzip".spec_bytes() {
        Some(Encoding::Gzip)
    } else {
        None
    }
}

/// The encodings that a list names: what stands between its commas, without
/// the whitespace around each name.
pub open spec fn offered(list: Seq<u8>) -> Seq<Seq<u8>> {
    Seq::new(pieces(list, COMMA).len(), |i: int| trimmed(pieces(list, COMMA)[i]))
}

/// The encoding of the first of `names` that the server can apply.
pub open spec fn first_supported(names: Seq<Seq<u8>>) -> Option<Encoding>
    decreases names.len(),
{
    if names.len() == 0 {
        None
    } else {
        match supported(names[0]) {
            Some(encoding) => Some(encoding),
            None => first_supported(names.drop_first()),
        }
    }
}

/// The encoding to apply for a client that accepts the encodings in `list`:
/// the first in the client's order that the server can apply.
pub open spec fn chosen(list: Seq<u8>) -> Option<Encoding> {
    first_supported(offered(list))
}

/// `response` with its body encoded: the header `Content-Encoding` names the
/// encoding, and the body, if there is one, is replaced by its encoded form,
/// with `Content-Length` set anew.
pub open spec fn encoded(response: ResponseView, encoding: Encoding) -> ResponseView {
    match encoding {
        Encoding::Gzip => {
            let marked = ResponseView {
                headers: put(
                    response.headers,
                    "Content-Encoding".spec_bytes(),
                    "gzip".spec_bytes(),
                ),
                ..response
            };
            match response.body {
                Some(body) => with_body(marked, gzip(body)),
                None => marked,
            }
        },
    }
}

/// The response to send to a client whose `Accept-Encoding` header is
/// `accept`: encoded with the chosen encoding, or as it is if the header is
/// absent or names no encoding that the server can apply.
pub open spec fn negotiated(response: ResponseView, accept: Option<Seq<u8>>) -> ResponseView {
    match accept {
        Some(list) => match chosen(list) {
            Some(encoding) => encoded(response, encoding),
            None => response,
        },
        None => response,
    }
}

/// The value of the header `Accept-Encoding`, if the headers hold it.
pub open spec fn accept_encoding(headers: Map<Seq<u8>, Seq<u8>>) -> Option<Seq<u8>> {
    if headers.contains_key("Accept-Encoding".spec_bytes()) {
        Some(headers["Accept-Encoding".spec_bytes()])
    } else {
        None
    }
}

/// The encoding that `name` stands for, if the server can apply it.
pub fn encoding_of(name: &[u8]) -> (encoding: Option<Encoding>)
    ensures
        encoding == supported(name@),
{
    if is_word(name, "gzip") {
        Some(Encoding::Gzip)
    } else {
        None
    }
}

/// Chooses the encoding for a client that accepts the encodings in `list`.
pub fn select_encoding(list: &[u8]) -> (choice: Option<Encoding>)
    ensures
        choice == chosen(list@),
{
    let names = split(list, COMMA);
    let ghost all = offered(list@);
    let mut i: usize = 0;
    proof {
        assert(all.skip(0) =~= all);
    }
    while i < names.len()
        invariant
            i <= names.len(),
            views(names@) == pieces(list@, COMMA),
            all == offered(list@),
            first_supported(all) == first_supported(all.skip(i as int)),
        decreases names.len() - i,
    {
        let name = trim(names[i].as_slice());
        proof {
            assert(names@[i as int]@ == views(names@)[i as int]);
            assert(all.skip(i as int)[0] == name@);
            assert(all.skip(i as int).drop_first() =~= all.skip(i + 1));
        }
        if let Some(encoding) = encoding_of(name) {
            return Some(encoding);
        }
        i += 1;
    }
    None
}

/// Encodes the body of `response` with `encoding`.
pub fn encode(response: Response, encoding: Encoding) -> (out: Response)
    ensures
        out@ == encoded(response@, encoding),
{
    let mut response = response;
    match encoding {
        Encoding::Gzip => {
            let compressed: Option<Vec<u8>> = match response.body() {
                Some(body) => Some(compress(body.as_slice())),
                None => None,
            };
            response.set_header(to_vec("Content-Encoding".as_bytes()), to_vec("gzip".as_bytes()));
            if let Some(bytes) = compressed {
                response.set_body(bytes);
            }
        },
    }
    response
}

/// The value of the header `Accept-Encoding` of `request`, if it has one.
pub fn accepted(request: &Request) -> (accept: Option<Vec<u8>>)
    ensures
        optional(accept) == accept_encoding(request@.headers),
{
    match request.headers.get("Accept-Encoding".as_bytes()) {
        Some(list) => Some(to_vec(list.as_slice())),
        None => None,
    }
}

/// Encodes `response` for a client whose `Accept-Encoding` header is `accept`.
pub fn negotiate(accept: &Option<Vec<u8>>, response: Response) -> (out: Response)
    ensures
        out@ == negotiated(response@, optional(*accept)),
{
    match accept {
        Some(list) => match select_encoding(list.as_slice()) {
            Some(encoding) => encode(response, encoding),
            None => response,
        },
        None => response,
    }
}

/// A client that lists no encoding the server can apply gets the response
/// as it is, and so does a client that sends no list.
pub proof fn lemma_unsupported_leaves_response(response: ResponseView, accept: Option<Seq<u8>>)
    requires
        accept is Some ==> chosen(accept->0) is None,
    ensures
        negotiated(response, accept) == response,
{
}

/// A client that lists gzip gets the body as a gzip stream, under a
/// `Content-Encoding` header that says so and a `Content-Length` header that
/// gives the length of the stream; status and reason stay.
pub proof fn lemma_gzip_applied(response: ResponseView, list: Seq<u8>, body: Seq<u8>)
    requires
        keys_distinct(response.headers),
        chosen(list) == Some(Encoding::Gzip),
        response.body == Some(body),
    ensures
        ({
            let sent = negotiated(response, Some(list));
            &&& sent.body == Some(gzip(body))
            &&& sent.status == response.status
            &&& sent.reason == response.reason
            &&& keys_distinct(sent.headers)
            &&& as_map(sent.headers) == as_map(response.headers).insert(
                "Content-Encoding".spec_bytes(),
                "gzip".spec_bytes(),
            ).insert("Content-Length".spec_bytes(), decimal(gzip(body).len()))
        }),
{
    let marked = put(response.headers, "Content-Encoding".spec_bytes(), "gzip".spec_bytes());
    lemma_put(response.headers, "Content-Encoding".spec_bytes(), "gzip".spec_bytes());
    lemma_put(marked, "Content-Length".spec_bytes(), decimal(gzip(body).len()));
}

} // verus!
