//! Where a transport belongs.

use std::sync::Arc;
use vstd::prelude::*;

verus! {

/// Where a transport belongs.
#[derive(Clone, Debug)]
pub struct Ctx<P> {
    /// The proxy that holds the transport.
    pub proxy: Arc<P>,
}

/// Where a transport that a client opened belongs.
#[derive(Clone, Debug)]
pub struct Server<P> {
    /// The proxy that accepted the transport.
    pub proxy: Arc<P>,
}

impl<P> Ctx<P> {
    /// The proxy that holds the transport.
    pub fn proxy(&self) -> (proxy: &Arc<P>)
        ensures
            *proxy == self.proxy,
    {
        &self.proxy
    }
}

} // verus!
