//! Request dispatch core of a reverse-proxy web server.
//!
//! - [`url`]: parsing and normalising the path and query of a request target.
//! - [`matcher`]: matching hosts and paths against exact strings, hierarchical
//!   prefixes and suffixes, and regular expressions.
//! - [`config`]: finding the listener, the site and the service for a request.
//! - [`lexer`] and [`syntax`]: reading the configuration language.
//! - [`vfs`]: joining a request path to the directory that is served.
//! - [`domain_key`] and [`map_maybe`]: the key of a site, and chaining onto a
//!   value that may be absent.
//!
//! Every function states what it returns over a mathematical model of its
//! arguments, and the statements are proved. What is taken from other crates
//! without proof is marked where it is declared.

pub mod config;
pub mod domain_key;
pub mod lexer;
pub mod map_maybe;
pub mod matcher;
pub mod syntax;
pub mod text;
pub mod url;
pub mod vfs;
