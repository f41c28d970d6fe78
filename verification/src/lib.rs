//! A small HTTP server's request-handling core: request parsing, path
//! resolution, routing, page rendering, server-side includes, the static
//! request queue, the file cache and the dispatcher's bookkeeping.

pub mod args;
pub mod bytes;
pub mod http;
pub mod keyed;
pub mod lru;
pub mod path;
pub mod peers;
pub mod queue;
pub mod request;
pub mod server;
pub mod ssi;
pub mod static_file;
pub mod time;
