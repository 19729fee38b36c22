//! An HTTP/1.1 server library: a zero-copy request parser, response
//! serialisation, and the routing rules of a static website.
//!
//! Parsing, routing and serialisation are verified; the TCP loop and file
//! access live in the application around the library.
pub mod http;
pub mod server;
pub mod text;
pub mod website_handler;

pub use server::Server;
pub use website_handler::WebsiteHandler;
