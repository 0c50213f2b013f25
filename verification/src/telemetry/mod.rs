//! What the proxy reports of itself.

pub mod event;
