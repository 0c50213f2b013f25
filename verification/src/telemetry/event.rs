//! What happens in the proxy, as it is reported.

use crate::ctx::http::{Request, Response};
use crate::ctx::transport::Ctx;
use std::sync::Arc;
use std::time::{Duration, Instant};
use vstd::prelude::*;

verus! {

/// `h2::Reason`, as an opaque type.
#[verifier::external_type_specification]
#[verifier::external_body]
pub struct ExReason(h2::Reason);

/// Something that happened. `P` describes the proxy in which it did, and `H`
/// is why a handshake failed.
#[derive(Clone, Debug)]
pub enum Event<P, H> {
    TransportOpen(Arc<Ctx<P>>),
    TransportClose(Arc<Ctx<P>>, TransportClose),
    StreamRequestOpen(Arc<Request<P>>),
    StreamRequestFail(Arc<Request<P>>, StreamRequestFail),
    StreamRequestEnd(Arc<Request<P>>, StreamRequestEnd),
    StreamResponseOpen(Arc<Response<P>>, StreamResponseOpen),
    StreamResponseFail(Arc<Response<P>>, StreamResponseFail),
    StreamResponseEnd(Arc<Response<P>>, StreamResponseEnd),
    TlsHandshakeFailed(Arc<Ctx<P>>, H),
    ControlTlsHandshakeFailed(ControlConnection, H),
}

/// An address and a port.
#[derive(Clone, Copy, Debug, Hash, PartialEq, Eq, Structural)]
pub enum SocketAddr {
    V4 { ipv4: u32, port: u16 },
    V6 { ipv6: u128, port: u16, flowinfo: u32, scope_id: u32 },
}

/// A connection to or from the control plane.
#[derive(Debug, Hash, PartialEq, Eq, Structural)]
pub enum ControlConnection {
    Accept { local_addr: SocketAddr, remote_addr: SocketAddr },
    Connect(SocketAddr),
}

impl Clone for ControlConnection {
    fn clone(&self) -> (copy: Self)
        ensures
            copy == *self,
    {
        match self {
            ControlConnection::Accept { local_addr, remote_addr } => {
                ControlConnection::Accept { local_addr: *local_addr, remote_addr: *remote_addr }
            },
            ControlConnection::Connect(addr) => ControlConnection::Connect(*addr),
        }
    }
}

/// How a transport closed.
#[derive(Debug)]
pub struct TransportClose {
    /// Indicates that the transport was closed without error.
    pub clean: bool,
    pub duration: Duration,
    pub rx_bytes: u64,
    pub tx_bytes: u64,
}

impl Clone for TransportClose {
    fn clone(&self) -> (copy: Self)
        ensures
            copy == *self,
    {
        TransportClose {
            clean: self.clean,
            duration: self.duration,
            rx_bytes: self.rx_bytes,
            tx_bytes: self.tx_bytes,
        }
    }
}

/// How a request failed.
#[derive(Debug)]
pub struct StreamRequestFail {
    pub request_open_at: Instant,
    pub request_fail_at: Instant,
    pub error: h2::Reason,
}

impl Clone for StreamRequestFail {
    fn clone(&self) -> (copy: Self)
        ensures
            copy == *self,
    {
        StreamRequestFail {
            request_open_at: self.request_open_at,
            request_fail_at: self.request_fail_at,
            error: self.error,
        }
    }
}

/// When a request ended.
#[derive(Debug)]
pub struct StreamRequestEnd {
    pub request_open_at: Instant,
    pub request_end_at: Instant,
}

impl Clone for StreamRequestEnd {
    fn clone(&self) -> (copy: Self)
        ensures
            copy == *self,
    {
        StreamRequestEnd {
            request_open_at: self.request_open_at,
            request_end_at: self.request_end_at,
        }
    }
}

/// When a response began.
#[derive(Debug)]
pub struct StreamResponseOpen {
    pub request_open_at: Instant,
    pub response_open_at: Instant,
}

impl Clone for StreamResponseOpen {
    fn clone(&self) -> (copy: Self)
        ensures
            copy == *self,
    {
        StreamResponseOpen {
            request_open_at: self.request_open_at,
            response_open_at: self.response_open_at,
        }
    }
}

/// How a response failed.
#[derive(Debug)]
pub struct StreamResponseFail {
    pub request_open_at: Instant,
    pub response_open_at: Instant,
    pub response_first_frame_at: Option<Instant>,
    pub response_fail_at: Instant,
    pub error: h2::Reason,
    pub bytes_sent: u64,
    pub frames_sent: u32,
}

impl Clone for StreamResponseFail {
    fn clone(&self) -> (copy: Self)
        ensures
            copy == *self,
    {
        StreamResponseFail {
            request_open_at: self.request_open_at,
            response_open_at: self.response_open_at,
            response_first_frame_at: self.response_first_frame_at,
            response_fail_at: self.response_fail_at,
            error: self.error,
            bytes_sent: self.bytes_sent,
            frames_sent: self.frames_sent,
        }
    }
}

/// How a response ended.
#[derive(Debug)]
pub struct StreamResponseEnd {
    pub request_open_at: Instant,
    pub response_open_at: Instant,
    pub response_first_frame_at: Instant,
    pub response_end_at: Instant,
    pub grpc_status: Option<u32>,
    pub bytes_sent: u64,
    pub frames_sent: u32,
}

impl Clone for StreamResponseEnd {
    fn clone(&self) -> (copy: Self)
        ensures
            copy == *self,
    {
        StreamResponseEnd {
            request_open_at: self.request_open_at,
            response_open_at: self.response_open_at,
            response_first_frame_at: self.response_first_frame_at,
            response_end_at: self.response_end_at,
            grpc_status: self.grpc_status,
            bytes_sent: self.bytes_sent,
            frames_sent: self.frames_sent,
        }
    }
}

impl<P, H> Event<P, H> {
    /// The event is of a request or of a response.
    pub open spec fn of_stream(self) -> bool {
        ||| self is StreamRequestOpen
        ||| self is StreamRequestFail
        ||| self is StreamRequestEnd
        ||| self is StreamResponseOpen
        ||| self is StreamResponseFail
        ||| self is StreamResponseEnd
    }

    /// A transport opened or closed.
    pub open spec fn of_transport(self) -> bool {
        self is TransportOpen || self is TransportClose
    }

    /// A handshake failed.
    pub open spec fn of_handshake(self) -> bool {
        self is TlsHandshakeFailed || self is ControlTlsHandshakeFailed
    }

    /// Whether the event is of a request or of a response.
    pub fn is_http(&self) -> (b: bool)
        ensures
            b == self.of_stream(),
            match *self {
                Event::StreamRequestOpen(_)
                | Event::StreamRequestFail(_, _)
                | Event::StreamRequestEnd(_, _)
                | Event::StreamResponseOpen(_, _)
                | Event::StreamResponseFail(_, _)
                | Event::StreamResponseEnd(_, _) => b,
                Event::TransportOpen(_)
                | Event::TransportClose(_, _)
                | Event::TlsHandshakeFailed(_, _)
                | Event::ControlTlsHandshakeFailed(_, _) => !b,
            },
    {
        match self {
            Event::StreamRequestOpen(_)
            | Event::StreamRequestFail(_, _)
            | Event::StreamRequestEnd(_, _)
            | Event::StreamResponseOpen(_, _)
            | Event::StreamResponseFail(_, _)
            | Event::StreamResponseEnd(_, _) => true,
            _ => false,
        }
    }

    /// Whether a transport opened or closed.
    pub fn is_transport(&self) -> (b: bool)
        ensures
            b == self.of_transport(),
            match *self {
                Event::TransportOpen(_) | Event::TransportClose(_, _) => b,
                Event::StreamRequestOpen(_)
                | Event::StreamRequestFail(_, _)
                | Event::StreamRequestEnd(_, _)
                | Event::StreamResponseOpen(_, _)
                | Event::StreamResponseFail(_, _)
                | Event::StreamResponseEnd(_, _)
                | Event::TlsHandshakeFailed(_, _)
                | Event::ControlTlsHandshakeFailed(_, _) => !b,
            },
    {
        match self {
            Event::TransportOpen(_) | Event::TransportClose(_, _) => true,
            _ => false,
        }
    }

    /// The proxy in which the event happened. A connection to or from the
    /// control plane passes through none.
    pub fn proxy(&self) -> (proxy: &Arc<P>)
        requires
            self !is ControlTlsHandshakeFailed,
        ensures
            match *self {
                Event::TransportOpen(ctx)
                | Event::TransportClose(ctx, _)
                | Event::TlsHandshakeFailed(ctx, _) => *proxy == ctx.proxy,
                Event::StreamRequestOpen(req)
                | Event::StreamRequestFail(req, _)
                | Event::StreamRequestEnd(req, _) => *proxy == req.server.proxy,
                Event::StreamResponseOpen(rsp, _)
                | Event::StreamResponseFail(rsp, _)
                | Event::StreamResponseEnd(rsp, _) => *proxy == rsp.request.server.proxy,
                Event::ControlTlsHandshakeFailed(_, _) => false,
            },
    {
        match self {
            Event::TransportOpen(ctx)
            | Event::TransportClose(ctx, _)
            | Event::TlsHandshakeFailed(ctx, _) => ctx.proxy(),
            Event::StreamRequestOpen(req)
            | Event::StreamRequestFail(req, _)
            | Event::StreamRequestEnd(req, _) => &req.server.proxy,
            Event::StreamResponseOpen(rsp, _)
            | Event::StreamResponseFail(rsp, _)
            | Event::StreamResponseEnd(rsp, _) => &rsp.request.server.proxy,
            Event::ControlTlsHandshakeFailed(_, _) => vstd::pervasive::unreached(),
        }
    }

    /// An event is of exactly one kind: of a request or response, of a
    /// transport, or of a failed handshake.
    pub proof fn one_kind(self)
        ensures
            self.of_stream() ==> !self.of_transport() && !self.of_handshake(),
            self.of_transport() ==> !self.of_stream() && !self.of_handshake(),
            self.of_stream() || self.of_transport() || self.of_handshake(),
    {
    }

    /// The kind of an event is that of its variant, whatever the event holds.
    pub proof fn kind_by_variant(self)
        ensures
            self.of_stream() <==> self is StreamRequestOpen || self is StreamRequestFail
                || self is StreamRequestEnd || self is StreamResponseOpen
                || self is StreamResponseFail || self is StreamResponseEnd,
            self.of_transport() <==> self is TransportOpen || self is TransportClose,
            self.of_handshake() <==> self is TlsHandshakeFailed
                || self is ControlTlsHandshakeFailed,
    {
    }

    /// No event is both of a stream and of a transport, and it is neither
    /// exactly where a handshake failed.
    pub proof fn neither_only_for_handshakes(self, http: bool, transport: bool)
        requires
            call_ensures(Event::<P, H>::is_http, (&self,), http),
            call_ensures(Event::<P, H>::is_transport, (&self,), transport),
        ensures
            !(http && transport),
            !http && !transport <==> self is TlsHandshakeFailed
                || self is ControlTlsHandshakeFailed,
            transport <==> self is TransportOpen || self is TransportClose,
    {
    }
}

} // verus!
