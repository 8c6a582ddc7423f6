//! The server: the routes shared by all connections, and the course of one
//! connection from its first byte to its close.
//!
//! Nothing here touches a socket. The caller reads and writes; a
//! `Connection` tells it what to do next and is told what came of it.

use vstd::prelude::*;
use crate::bytes::append;
use crate::request::{head_closed, parse, ParseError, Request, RequestView};
use crate::response::{wire, Response, ResponseView};
use crate::router::{Router, RouterView};
use crate::runner::{answers, handler_ready, runner};

verus! {

/// A server: its routes, fixed before the first connection is accepted.
pub struct Server<H> {
    router: Router<H>,
}

/// The bytes of a result that holds bytes.
pub open spec fn reply_view(reply: Result<Vec<u8>, ParseError>) -> Result<Seq<u8>, ParseError> {
    match reply {
        Ok(bytes) => Ok(bytes@),
        Err(e) => Err(e),
    }
}

/// Whether a handler is ready for the request that `input` holds, if it holds one.
pub open spec fn ready_for<H: Fn(Request, Response) -> Response>(
    router: RouterView<H>,
    input: Seq<u8>,
) -> bool {
    match parse(input) {
        Ok(request) => handler_ready(router, request),
        Err(_) => true,
    }
}

/// Whether `reply` is what a server with the routes of `router` makes of the
/// bytes `input`: the fault of the parser, or a response that answers the
/// request, as it goes on the wire.
pub open spec fn replies<H: Fn(Request, Response) -> Response>(
    router: RouterView<H>,
    input: Seq<u8>,
    reply: Result<Seq<u8>, ParseError>,
) -> bool {
    match parse(input) {
        Ok(request) => exists|response: ResponseView| #[trigger]
            answers(router, request, response) && reply == Ok::<Seq<u8>, ParseError>(
                wire(response),
            ),
        Err(e) => reply == Err::<Seq<u8>, ParseError>(e),
    }
}

impl<H> Server<H> {
    /// The routes of the server.
    pub closed spec fn routes(&self) -> RouterView<H> {
        self.router@
    }

    /// A server with the routes of `router`.
    pub fn new(router: Router<H>) -> (server: Server<H>)
        ensures
            server.routes() == router@,
    {
        Server { router }
    }

    /// The router of the server.
    pub fn router(&self) -> (router: &Router<H>)
        ensures
            router@ == self.routes(),
    {
        &self.router
    }
}

impl<H: Fn(Request, Response) -> Response> Server<H> {
    /// Answers a request: runs it, and writes the response as bytes for the wire.
    pub fn answer(&self, request: Request) -> (bytes: Vec<u8>)
        requires
            handler_ready(self.routes(), request@),
        ensures
            exists|response: ResponseView| #[trigger]
                answers(self.routes(), request@, response) && bytes@ == wire(response),
    {
        let mut response = runner(request, &self.router);
        let ghost answer = response@;
        let bytes = response.as_bytes();
        proof {
            assert(answers(self.routes(), request@, answer));
        }
        bytes
    }

    /// Answers the bytes that a client sent: reads the request from them and
    /// answers it. A faulty request gets no answer but its fault.
    pub fn respond(&self, input: &[u8]) -> (reply: Result<Vec<u8>, ParseError>)
        requires
            ready_for(self.routes(), input@),
        ensures
            replies(self.routes(), input@, reply_view(reply)),
    {
        match Request::new(input) {
            Err(e) => Err(e),
            Ok(request) => Ok(self.answer(request)),
        }
    }
}

/// Where a connection stands. Between `Reading` and `Writing` a request is
/// routed, handled and negotiated; none of that waits for the client, so a
/// connection passes through it within one step.
#[derive(Clone, Copy, Debug, PartialEq, Eq, Structural)]
pub enum ConnectionState {
    /// Nothing has happened yet.
    Idle,
    /// The request is being read.
    Reading,
    /// The response is being written.
    Writing,
    /// The connection is over.
    Closed,
}

/// What happened on the socket since the last step.
#[derive(Debug)]
pub enum Event {
    /// A client has connected.
    Accepted,
    /// These bytes have arrived.
    Received(Vec<u8>),
    /// The client will send no more.
    EndOfStream,
    /// The bytes handed out for writing have been written.
    Written,
    /// Reading or writing has failed.
    Failed,
}

/// What to do on the socket next.
#[derive(Debug)]
pub enum Action {
    /// Read more bytes, and report them or the end of the stream.
    Read,
    /// Write these bytes, and report when it is done.
    Write(Vec<u8>),
    /// Close the connection.
    Close,
}

/// An `Event` as a mathematical value.
pub ghost enum EventView {
    Accepted,
    Received(Seq<u8>),
    EndOfStream,
    Written,
    Failed,
}

/// An `Action` as a mathematical value.
pub ghost enum ActionView {
    Read,
    Write(Seq<u8>),
    Close,
}

impl View for Event {
    type V = EventView;

    open spec fn view(&self) -> EventView {
        match self {
            Event::Accepted => EventView::Accepted,
            Event::Received(bytes) => EventView::Received(bytes@),
            Event::EndOfStream => EventView::EndOfStream,
            Event::Written => EventView::Written,
            Event::Failed => EventView::Failed,
        }
    }
}

impl View for Action {
    type V = ActionView;

    open spec fn view(&self) -> ActionView {
        match self {
            Action::Read => ActionView::Read,
            Action::Write(bytes) => ActionView::Write(bytes@),
            Action::Close => ActionView::Close,
        }
    }
}

/// One connection: where it stands, the bytes received so far, and the fault
/// of the request if it closed on one.
#[derive(Debug)]
pub struct Connection {
    state: ConnectionState,
    received: Vec<u8>,
    fault: Option<ParseError>,
}

/// What a `Connection` holds, as mathematical values.
pub ghost struct ConnectionView {
    pub state: ConnectionState,
    pub received: Seq<u8>,
    pub fault: Option<ParseError>,
}

/// Whether the bytes received so far are a whole request or a faulty one, so
/// that reading can stop: the head is closed, and the body is not cut short.
pub open spec fn is_complete(received: Seq<u8>) -> bool {
    head_closed(received) && parse(received) != Err::<RequestView, ParseError>(
        ParseError::TruncatedBody,
    )
}

/// The bytes that a step will read a request from, if it reads one: all
/// that was received, once that is complete or the stream has ended.
pub open spec fn to_answer(connection: ConnectionView, event: EventView) -> Option<Seq<u8>> {
    match (connection.state, event) {
        (ConnectionState::Reading, EventView::Received(bytes)) => if is_complete(
            connection.received + bytes,
        ) {
            Some(connection.received + bytes)
        } else {
            None
        },
        (ConnectionState::Reading, EventView::EndOfStream) => Some(connection.received),
        _ => None,
    }
}

/// Whether a connection may go from `before` to `after` with `action` when
/// `event` is reported, on a server with the routes of `router`.
///
/// An accepted connection reads. While it reads, bytes that arrive are kept;
/// once they are complete, or the stream ends, they are answered: a response
/// is written, or the connection closes on a faulty request. When the
/// response is written the connection closes. A failure, or an event out of
/// turn, closes the connection at once.
pub open spec fn steps<H: Fn(Request, Response) -> Response>(
    router: RouterView<H>,
    before: ConnectionView,
    event: EventView,
    after: ConnectionView,
    action: ActionView,
) -> bool {
    match (before.state, event) {
        (ConnectionState::Idle, EventView::Accepted) => after == (ConnectionView {
            state: ConnectionState::Reading,
            ..before
        }) && action == ActionView::Read,
        (ConnectionState::Reading, EventView::Received(bytes)) => after.received
            == before.received + bytes && match to_answer(before, event) {
            Some(input) => answered(router, input, after, action),
            None => after.state == ConnectionState::Reading && after.fault == before.fault
                && action == ActionView::Read,
        },
        (ConnectionState::Reading, EventView::EndOfStream) => after.received == before.received
            && answered(router, before.received, after, action),
        (ConnectionState::Writing, EventView::Written) => after == (ConnectionView {
            state: ConnectionState::Closed,
            ..before
        }) && action == ActionView::Close,
        _ => after == (ConnectionView { state: ConnectionState::Closed, ..before }) && action
            == ActionView::Close,
    }
}

/// Whether the state of `after` and `action` are what follows from answering
/// `input`: the reply is written, or, if `input` holds no request, the
/// connection closes and keeps the fault.
pub open spec fn answered<H: Fn(Request, Response) -> Response>(
    router: RouterView<H>,
    input: Seq<u8>,
    after: ConnectionView,
    action: ActionView,
) -> bool {
    match action {
        ActionView::Write(bytes) => after.state == ConnectionState::Writing && after.fault
            is None && replies(router, input, Ok::<Seq<u8>, ParseError>(bytes)),
        ActionView::Close => after.state == ConnectionState::Closed && parse(input) is Err
            && after.fault == Some(parse(input)->Err_0),
        ActionView::Read => false,
    }
}

impl View for Connection {
    type V = ConnectionView;

    closed spec fn view(&self) -> ConnectionView {
        ConnectionView { state: self.state, received: self.received@, fault: self.fault }
    }
}

impl Connection {
    /// Only a closed connection holds a fault.
    #[verifier::type_invariant]
    closed spec fn well_formed(&self) -> bool {
        self.fault is Some ==> self.state == ConnectionState::Closed
    }

    /// A connection on which nothing has happened yet.
    pub fn new() -> (connection: Connection)
        ensures
            connection@ == (ConnectionView {
                state: ConnectionState::Idle,
                received: Seq::empty(),
                fault: None,
            }),
    {
        Connection { state: ConnectionState::Idle, received: Vec::new(), fault: None }
    }

    /// Where the connection stands.
    pub fn state(&self) -> (state: ConnectionState)
        ensures
            state == self@.state,
    {
        self.state
    }

    /// The fault of the request, if the connection closed on one.
    pub fn fault(&self) -> (fault: Option<ParseError>)
        ensures
            fault == self@.fault,
    {
        self.fault
    }

    /// Answers what was received, read as `read` tells, and says what to do
    /// with the reply.
    fn answer<H: Fn(Request, Response) -> Response>(
        &mut self,
        server: &Server<H>,
        read: Result<Request, ParseError>,
    ) -> (action: Action)
        requires
            old(self)@.state == ConnectionState::Reading,
            ready_for(server.routes(), old(self)@.received),
            match read {
                Ok(request) => parse(old(self)@.received) == Ok::<RequestView, ParseError>(
                    request@,
                ),
                Err(e) => parse(old(self)@.received) == Err::<RequestView, ParseError>(e),
            },
        ensures
            final(self)@.received == old(self)@.received,
            answered(server.routes(), old(self)@.received, final(self)@, action@),
    {
        proof {
            use_type_invariant(&*self);
        }
        match read {
            Ok(request) => {
                self.state = ConnectionState::Writing;
                Action::Write(server.answer(request))
            },
            Err(e) => {
                // The state goes first: only a closed connection may hold a fault.
                self.state = ConnectionState::Closed;
                self.fault = Some(e);
                Action::Close
            },
        }
    }

    /// Takes the connection one step further: given what happened on the
    /// socket, says what to do there next.
    pub fn step<H: Fn(Request, Response) -> Response>(
        &mut self,
        server: &Server<H>,
        event: Event,
    ) -> (action: Action)
        requires
            match to_answer(old(self)@, event@) {
                Some(input) => ready_for(server.routes(), input),
                None => true,
            },
        ensures
            steps(server.routes(), old(self)@, event@, final(self)@, action@),
    {
        proof {
            use_type_invariant(&*self);
        }
        match (self.state, event) {
            (ConnectionState::Idle, Event::Accepted) => {
                self.state = ConnectionState::Reading;
                Action::Read
            },
            (ConnectionState::Reading, Event::Received(bytes)) => {
                let mut received: Vec<u8> = Vec::new();
                std::mem::swap(&mut received, &mut self.received);
                append(&mut received, bytes.as_slice());
                self.received = received;
                match Request::read(self.received.as_slice()) {
                    (_, false) | (Err(ParseError::TruncatedBody), true) => Action::Read,
                    (read, true) => self.answer(server, read),
                }
            },
            (ConnectionState::Reading, Event::EndOfStream) => {
                let read = Request::new(self.received.as_slice());
                self.answer(server, read)
            },
            (ConnectionState::Writing, Event::Written) => {
                self.state = ConnectionState::Closed;
                Action::Close
            },
            _ => {
                self.state = ConnectionState::Closed;
                Action::Close
            },
        }
    }
}

} // verus!
