//! Actions other than `regex/solve`.

pub mod stubs;
