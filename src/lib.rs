//! A small HTTP/1.1 server core: request parsing, response serialization,
//! routing, content-type and status catalogs, and the decisions of the
//! accept loop and of each connection.
pub mod config;
pub mod request;
pub mod response;
pub mod router;
pub mod server;
pub mod text;
