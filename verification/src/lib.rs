//! A minimal HTTP/1.1 message engine: a request-line and header parser, a
//! response builder and serializer, and the resource resolution that decides
//! which bytes and status code answer a request, backed by an in-memory
//! preload table with a filesystem fallback. The engine handles one full
//! request per connection; transport, startup and logging live with the
//! caller.
pub mod config;
pub mod http;
pub mod net;
pub mod server;
pub mod text;

pub use server::ServerError;
