//! regexr-server core: the request/response rules of the private RegExr
//! deployment, written as verified functions over plain values.
//!
//! The PCRE2 engine, HTTP serving and JSON (de)serialisation live in the
//! `app` crate around this library.

pub mod actions;
pub mod config;
pub mod http;
pub mod solve;
pub mod text;
