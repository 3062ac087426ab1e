//! Request ingestion for a small HTTP toolkit: a byte-level head parser,
//! a content-length body reader, and decoders for URL-encoded forms and
//! multipart form data, all specified over byte sequences.

pub mod error;
pub mod scan;
pub mod head;
pub mod util;
pub mod request;
pub mod multipart;
pub mod response;
pub mod laws;

pub use error::Error;
pub use multipart::{Part, Span};
pub use request::{parse, Request, Status};
pub use response::Response;
