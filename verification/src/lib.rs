//! The core of a small HTTP/1.1 server: a request parser, a router with
//! static and parameterised routes, content negotiation and a response
//! serialiser. All text is held as bytes, exactly as it travels on the wire.

pub mod assoc;
pub mod bytes;
pub mod compression;
pub mod fields;
pub mod request;
pub mod response;
pub mod router;
pub mod runner;
pub mod server;
pub mod services;
