//! Handlers for common routes, and the parts of the file handlers that
//! need no file system.

use vstd::prelude::*;
use vstd::string::StringSliceAdditionalSpecFns;
use crate::assoc::put;
use crate::bytes::{after_last, append, is_word, suffix_after_last, to_vec, views, SLASH};
use crate::request::Request;
use crate::response::{with_body, Response, ResponseView};

verus! {

/// `response` with the status 200 OK.
pub open spec fn ok(response: ResponseView) -> ResponseView {
    ResponseView { status: 200, reason: "OK".spec_bytes(), ..response }
}

/// `response` with the status 200 OK, the given content type and the given body.
pub open spec fn ok_with(
    response: ResponseView,
    content_type: Seq<u8>,
    body: Seq<u8>,
) -> ResponseView {
    with_body(
        ok(
            ResponseView {
                headers: put(response.headers, "Content-Type".spec_bytes(), content_type),
                ..response
            },
        ),
        body,
    )
}

/// Answers 200 OK with `body` as a body of the type `content_type`.
fn respond_with(response: Response, content_type: &str, body: Vec<u8>) -> (out: Response)
    ensures
        out@ == ok_with(response@, content_type.spec_bytes(), body@),
{
    let mut response = response;
    response.set_header(to_vec("Content-Type".as_bytes()), to_vec(content_type.as_bytes()));
    response.set_status(200, to_vec("OK".as_bytes()));
    response.set_body(body);
    response
}

/// Answers with what follows the last slash of the request target, as plain text.
pub fn echo(request: Request, response: Response) -> (out: Response)
    requires
        request.target@.contains(SLASH),
    ensures
        out@ == ok_with(response@, "text/plain".spec_bytes(), after_last(request.target@, SLASH)),
{
    let body = match suffix_after_last(request.target.as_slice(), SLASH) {
        Some(data) => to_vec(data),
        None => Vec::new(),
    };
    respond_with(response, "text/plain", body)
}

/// Answers 200 OK.
pub fn root(_request: Request, response: Response) -> (out: Response)
    ensures
        out@ == ok(response@),
{
    let mut response = response;
    response.set_status(200, to_vec("OK".as_bytes()));
    response
}

/// Answers with the value of the request's `User-Agent` header, as plain text.
pub fn user_agent(request: Request, response: Response) -> (out: Response)
    requires
        request.headers@.contains_key("User-Agent".spec_bytes()),
    ensures
        out@ == ok_with(
            response@,
            "text/plain".spec_bytes(),
            request.headers@["User-Agent".spec_bytes()],
        ),
{
    let body = match request.headers.get("User-Agent".as_bytes()) {
        Some(agent) => to_vec(agent.as_slice()),
        None => Vec::new(),
    };
    respond_with(response, "text/plain", body)
}

/// The directory that the command line names: the argument after the last
/// `--directory` that has one after it, or nothing.
pub open spec fn directory_of(args: Seq<Seq<u8>>) -> Seq<u8>
    decreases args.len(),
{
    if args.len() < 2 {
        Seq::empty()
    } else if args[args.len() - 2] == "--directory".spec_bytes() {
        args.last()
    } else {
        directory_of(args.drop_last())
    }
}

/// Finds the directory that the command line `args` names. `None` if the
/// last argument is `--directory`, with no directory after it.
pub fn directory(args: &Vec<Vec<u8>>) -> (out: Option<Vec<u8>>)
    ensures
        match out {
            Some(path) => path@ == directory_of(views(args@)) && !(args@.len() > 0
                && args@.last()@ == "--directory".spec_bytes()),
            None => args@.len() > 0 && args@.last()@ == "--directory".spec_bytes(),
        },
{
    if args.len() > 0 && is_word(args[args.len() - 1].as_slice(), "--directory") {
        return None;
    }
    let ghost all = views(args@);
    let mut i: usize = args.len();
    proof {
        assert(all.take(i as int) =~= all);
    }
    while i >= 2
        invariant
            i <= args.len(),
            all == views(args@),
            !(args@.len() > 0 && args@.last()@ == "--directory".spec_bytes()),
            directory_of(all) == directory_of(all.take(i as int)),
        decreases i,
    {
        proof {
            let front = all.take(i as int);
            assert(front[i - 2] == args@[i - 2]@);
            assert(front.last() == args@[i - 1]@);
            assert(front.drop_last() =~= all.take(i - 1));
        }
        if is_word(args[i - 2].as_slice(), "--directory") {
            return Some(to_vec(args[i - 1].as_slice()));
        }
        i -= 1;
    }
    Some(Vec::new())
}

/// The path of the file that a request for `target` names, in `directory`:
/// the directory followed by what stands after the last slash of the target.
pub fn file_path(directory: &[u8], target: &[u8]) -> (path: Vec<u8>)
    requires
        target@.contains(SLASH),
    ensures
        path@ == directory@ + after_last(target@, SLASH),
{
    let mut path = to_vec(directory);
    if let Some(name) = suffix_after_last(target, SLASH) {
        append(&mut path, name);
    }
    path
}

/// Answers a request for a file that holds `contents`.
pub fn file_found(response: Response, contents: Vec<u8>) -> (out: Response)
    ensures
        out@ == ok_with(response@, "application/octet-stream".spec_bytes(), contents@),
{
    respond_with(response, "application/octet-stream", contents)
}

/// Answers a request that stored a file: 201 Created.
pub fn file_created(response: Response) -> (out: Response)
    ensures
        out@ == (ResponseView { status: 201, reason: "Created".spec_bytes(), ..response@ }),
{
    let mut response = response;
    response.set_status(201, to_vec("Created".as_bytes()));
    response
}

} // verus!
