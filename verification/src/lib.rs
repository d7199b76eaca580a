//! Verified core of the kiro-rs gateway: the API key registry and the proxy
//! pool with its sticky credential-to-proxy bindings.

pub mod time;
pub mod api_key;
pub mod auth;
pub mod binding;
pub mod health;
pub mod proxy_pool;
pub mod concurrency;
pub mod filter_facts;
