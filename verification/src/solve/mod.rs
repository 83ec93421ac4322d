//! `regex/solve`: byte/UTF-16 offsets, replacement expansion, errors and
//! the decisions around the PCRE2 engine.

pub mod engine;
pub mod pcre2;
pub mod errors;
pub mod offsets;
pub mod report;
pub mod solver;
pub mod subst;
