use proxy_router::{Cause, Error, ResponseFuture};

type Response = ResponseFuture<u32, &'static str>;

fn count_up(n: &mut u32) -> Result<u32, &'static str> {
    *n += 1;
    if *n > 2 {
        Err("too far")
    } else {
        Ok(*n)
    }
}

#[test]
fn inner_is_polled() {
    let mut rsp: Response = ResponseFuture::new(0);
    assert_eq!(rsp.poll(count_up), Ok(1));
    assert_eq!(rsp.poll(count_up), Ok(2));
    assert_eq!(rsp.poll(count_up), Err(Error::Inner("too far")));
    assert!(!rsp.is_invalid());
}

#[test]
fn route_error_is_handed_out_once() {
    let mut rsp: Response = ResponseFuture::route_err("no route");
    assert!(!rsp.is_invalid());
    assert_eq!(rsp.poll(count_up), Err(Error::Route("no route")));
    assert!(rsp.is_invalid());
}

#[test]
fn refusals_stay() {
    let mut rsp: Response = ResponseFuture::not_recognized();
    assert_eq!(rsp.poll(count_up), Err(Error::NotRecognized));
    assert_eq!(rsp.poll(count_up), Err(Error::NotRecognized));
    let mut rsp: Response = ResponseFuture::no_capacity(7);
    assert_eq!(rsp.poll(count_up), Err(Error::NoCapacity(7)));
    assert_eq!(rsp.poll(count_up), Err(Error::NoCapacity(7)));
    assert!(!rsp.is_invalid());
}

fn shown(e: &Error<u8, u8>) -> String {
    e.fmt(|inner: &u8| format!("inner {}", inner), |route: &u8| format!("route {}", route))
}

#[test]
fn errors_in_words() {
    assert_eq!(shown(&Error::Inner(3)), "inner 3");
    assert_eq!(shown(&Error::Route(4)), "route recognition failed: route 4");
    assert_eq!(shown(&Error::NoCapacity(0)), "router capacity reached (0)");
    assert_eq!(shown(&Error::NoCapacity(10)), "router capacity reached (10)");
    assert_eq!(shown(&Error::NoCapacity(9876543210)), "router capacity reached (9876543210)");
    assert_eq!(shown(&Error::NotRecognized), "route not recognized");
}

#[test]
fn error_descriptions() {
    let describe = |e: Error<u8, u8>| e.description().to_string();
    assert_eq!(describe(Error::Inner(3)), "inner service error");
    assert_eq!(describe(Error::Route(4)), "route recognition failed");
    assert_eq!(describe(Error::NoCapacity(1)), "router capacity reached");
    assert_eq!(describe(Error::NotRecognized), "route not recognized");
}

#[test]
fn error_causes() {
    let inner: Error<u8, u8> = Error::Inner(3);
    assert!(matches!(inner.cause(), Some(Cause::Inner(3))));
    let route: Error<u8, u8> = Error::Route(4);
    assert!(matches!(route.cause(), Some(Cause::Route(4))));
    let full: Error<u8, u8> = Error::NoCapacity(1);
    assert!(full.cause().is_none());
    let unknown: Error<u8, u8> = Error::NotRecognized;
    assert!(unknown.cause().is_none());
}
