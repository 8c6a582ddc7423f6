//! One exchange: from a request to the response that answers it.

use vstd::prelude::*;
use crate::compression::{accept_encoding, accepted, negotiate, negotiated};
use crate::request::{Request, RequestView};
use crate::response::{not_found, Response, ResponseView};
use crate::router::{resolve, Router, RouterView};

verus! {

/// `request` as its handler sees it: with the path variables that the route bound.
pub open spec fn routed(
    request: RequestView,
    path_variables: Map<Seq<u8>, Seq<u8>>,
) -> RequestView {
    RequestView { path_variables, ..request }
}

/// Whether the handler that `router` finds for `request`, if it finds one,
/// can be called on the request and a fresh response.
pub open spec fn handler_ready<H: Fn(Request, Response) -> Response>(
    router: RouterView<H>,
    request: RequestView,
) -> bool {
    match resolve(router, request.target, request.http_method) {
        Some(found) => forall|seen: Request, fresh: Response|
            seen@ == routed(request, found.path_variables) && fresh@ == not_found()
                ==> call_requires(found.handler, (seen, fresh)),
        None => true,
    }
}

/// Whether `response` answers `request` on a server with the routes of
/// `router`: without a route it is the fresh 404 response; with one it is
/// what the route's handler made of the request and a fresh response, encoded
/// as the request's `Accept-Encoding` header asks.
pub open spec fn answers<H: Fn(Request, Response) -> Response>(
    router: RouterView<H>,
    request: RequestView,
    response: ResponseView,
) -> bool {
    match resolve(router, request.target, request.http_method) {
        Some(found) => exists|seen: Request, fresh: Response, handled: Response|
            seen@ == routed(request, found.path_variables) && fresh@ == not_found()
                && #[trigger] call_ensures(found.handler, (seen, fresh), handled) && response
                == negotiated(handled@, accept_encoding(request.headers)),
        None => response == not_found(),
    }
}

/// Answers `request`: looks up its route, lets the route's handler fill in a
/// fresh response, and encodes the body as the client accepts. Without a
/// route the answer is the fresh response, 404 Not Found.
pub fn runner<H: Fn(Request, Response) -> Response>(
    request: Request,
    router: &Router<H>,
) -> (response: Response)
    requires
        handler_ready(router@, request@),
    ensures
        answers(router@, request@, response@),
{
    let ghost before = request@;
    let found = router.get_route(request.target.as_slice(), &request.http_method);
    match found {
        None => {
            assert(resolve(router@, before.target, before.http_method) is None);
            Response::new()
        },
        Some(details) => {
            proof {
                let found = resolve(router@, before.target, before.http_method)->0;
                assert(found.handler == *details.handler);
                assert(found.path_variables == details.path_variables@);
            }
            let accept = accepted(&request);
            let mut seen = request;
            seen.path_variables = details.path_variables;
            let fresh = Response::new();
            assert(seen@ == routed(before, details.path_variables@));
            let handler = details.handler;
            let handled = handler(seen, fresh);
            let response = negotiate(&accept, handled);
            proof {
                assert(call_ensures(*handler, (seen, fresh), handled));
            }
            response
        },
    }
}

} // verus!
