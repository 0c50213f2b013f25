//! Where transports, requests and responses belong.
//!
//! `P` describes the proxy through which they pass.

pub mod http;
pub mod transport;
