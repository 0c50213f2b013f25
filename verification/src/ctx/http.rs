//! Where requests and responses belong.

use crate::ctx::transport::Server;
use std::sync::Arc;
use vstd::prelude::*;

verus! {

/// Where a request belongs.
#[derive(Clone, Debug)]
pub struct Request<P> {
    /// The transport on which it came.
    pub server: Arc<Server<P>>,
}

/// Where a response belongs.
#[derive(Clone, Debug)]
pub struct Response<P> {
    /// The request to which it responds.
    pub request: Arc<Request<P>>,
}

} // verus!
