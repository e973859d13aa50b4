//! The connection-handling core of a small HTTP/1.1 server: a request
//! parser on bytes, a router that builds framed responses, and the job
//! queue of a fixed-size worker pool.
pub mod connection;
pub mod gzip;
pub mod headers;
pub mod request;
pub mod response;
pub mod router;
pub mod text;
pub mod thread_pool;
mod tuples;
