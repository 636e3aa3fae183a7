//! A small synchronous HTTP/1.1 client: URL and header handling, response
//! framing, and the per-connection and pool bookkeeping, with their contracts.
pub mod client;
pub mod error;
pub mod header;
pub mod pool;
pub mod request;
pub mod session;
pub mod response;
pub mod text;
pub mod url;
pub mod wire;

pub use client::HttpClient;
pub use error::HttpError;
pub use header::HttpHeader;
pub use request::{Method, Request};
pub use response::HttpStatus;
pub use url::Url;
