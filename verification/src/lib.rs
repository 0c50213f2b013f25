//! A router that sends each request to a service and keeps the services it
//! has bound in a bounded cache.

pub mod activity;
pub mod cache;
pub mod ctx;
pub mod error;
pub mod inner;
pub mod laws;
pub mod recognize;
pub mod response;
mod route_map;
pub mod router;
pub mod routing;
pub mod telemetry;

pub use crate::activity::{Activity, HasActivity};
pub use crate::error::{Cause, Error};
pub use crate::recognize::{Recognize, Single};
pub use crate::response::ResponseFuture;
pub use crate::router::Router;
