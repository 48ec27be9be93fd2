//! Parsing and normalising the path and query of a request target.

pub mod border;
pub mod grammar;
pub mod laws;
pub mod path;
pub mod segment;

pub use self::path::{sanitize_request_path, OwnedUrlPath, SanitizationError, UrlPath};
pub use self::segment::ParseError;
