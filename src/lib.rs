//! OAuth 1.0a request signing and the three-legged login flow, with the
//! text-threading helpers of a small command-line client.

pub mod api;
pub mod auth;
pub mod config;
pub mod encode;
pub mod nonce;
pub mod oauth;
pub mod text;
pub mod thread;
