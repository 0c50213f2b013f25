use proxy_router::ctx::http::{Request, Response};
use proxy_router::ctx::transport::{Ctx, Server};
use proxy_router::telemetry::event::{
    ControlConnection, Event, SocketAddr, StreamRequestEnd, StreamRequestFail, StreamResponseEnd,
    StreamResponseFail, StreamResponseOpen, TransportClose,
};
use std::sync::Arc;
use std::time::{Duration, Instant};

fn transport(proxy: &'static str) -> Arc<Ctx<&'static str>> {
    Arc::new(Ctx { proxy: Arc::new(proxy) })
}

fn request(proxy: &'static str) -> Arc<Request<&'static str>> {
    Arc::new(Request { server: Arc::new(Server { proxy: Arc::new(proxy) }) })
}

fn response(proxy: &'static str) -> Arc<Response<&'static str>> {
    Arc::new(Response { request: request(proxy) })
}

fn close() -> TransportClose {
    TransportClose { clean: true, duration: Duration::from_secs(1), rx_bytes: 2, tx_bytes: 3 }
}

/// The events that pass through a proxy, each through one of its own.
fn events() -> Vec<(Event<&'static str, u8>, &'static str)> {
    let at = Instant::now();
    let fail = StreamRequestFail {
        request_open_at: at,
        request_fail_at: at,
        error: h2::Reason::CANCEL,
    };
    let end = StreamRequestEnd { request_open_at: at, request_end_at: at };
    let open = StreamResponseOpen { request_open_at: at, response_open_at: at };
    let rsp_fail = StreamResponseFail {
        request_open_at: at,
        response_open_at: at,
        response_first_frame_at: None,
        response_fail_at: at,
        error: h2::Reason::REFUSED_STREAM,
        bytes_sent: 4,
        frames_sent: 5,
    };
    let rsp_end = StreamResponseEnd {
        request_open_at: at,
        response_open_at: at,
        response_first_frame_at: at,
        response_end_at: at,
        grpc_status: Some(6),
        bytes_sent: 7,
        frames_sent: 8,
    };
    vec![
        (Event::TransportOpen(transport("a")), "a"),
        (Event::TransportClose(transport("b"), close()), "b"),
        (Event::TlsHandshakeFailed(transport("c"), 1), "c"),
        (Event::StreamRequestOpen(request("d")), "d"),
        (Event::StreamRequestFail(request("e"), fail), "e"),
        (Event::StreamRequestEnd(request("f"), end), "f"),
        (Event::StreamResponseOpen(response("g"), open), "g"),
        (Event::StreamResponseFail(response("h"), rsp_fail), "h"),
        (Event::StreamResponseEnd(response("i"), rsp_end), "i"),
    ]
}

fn control() -> Event<&'static str, u8> {
    let addr = SocketAddr::V4 { ipv4: 0x7f000001, port: 80 };
    Event::ControlTlsHandshakeFailed(ControlConnection::Connect(addr), 2)
}

#[test]
fn each_event_has_its_proxy() {
    for (event, proxy) in events() {
        assert_eq!(**event.proxy(), proxy);
    }
}

#[test]
fn http_events() {
    let http: Vec<bool> = events().iter().map(|e| e.0.is_http()).collect();
    assert_eq!(http, vec![false, false, false, true, true, true, true, true, true]);
    assert!(!control().is_http());
}

#[test]
fn transport_events() {
    let transport: Vec<bool> = events().iter().map(|e| e.0.is_transport()).collect();
    assert_eq!(transport, vec![true, true, false, false, false, false, false, false, false]);
    assert!(!control().is_transport());
}

#[test]
fn clones_keep_their_kind() {
    for (event, proxy) in events() {
        let copy = event.clone();
        assert_eq!(copy.is_http(), event.is_http());
        assert_eq!(copy.is_transport(), event.is_transport());
        assert_eq!(**copy.proxy(), proxy);
    }
}

#[test]
fn details_are_cloned() {
    let copy = close().clone();
    assert!(copy.clean);
    assert_eq!(copy.duration, Duration::from_secs(1));
    assert_eq!(copy.rx_bytes, 2);
    assert_eq!(copy.tx_bytes, 3);
    if let (Event::StreamResponseFail(_, fail), _) = events().remove(7) {
        let copy = fail.clone();
        assert_eq!(copy.error, h2::Reason::REFUSED_STREAM);
        assert_eq!(copy.bytes_sent, 4);
        assert_eq!(copy.frames_sent, 5);
    } else {
        panic!("a failed response");
    }
}

#[test]
fn control_connections() {
    let local_addr = SocketAddr::V4 { ipv4: 1, port: 2 };
    let remote_addr = SocketAddr::V6 { ipv6: 1, port: 2, flowinfo: 0, scope_id: 0 };
    let accept = ControlConnection::Accept { local_addr, remote_addr };
    assert_eq!(accept, accept.clone());
    assert_ne!(accept, ControlConnection::Connect(local_addr));
    assert_ne!(local_addr, remote_addr);
}
