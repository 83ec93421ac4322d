//! HTTP-facing rules: request routing and the static-page bits.

pub mod api;
pub mod static_assets;
