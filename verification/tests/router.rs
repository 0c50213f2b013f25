use futures::{future, Async, Future, Poll};
use proxy_router::{Activity, Error, HasActivity, Recognize, ResponseFuture, Router, Single};
use std::sync::atomic::{AtomicUsize, Ordering};
use std::sync::Arc;
use tower_service::Service;

/// Counts what is under way on one service.
#[derive(Clone, Default)]
struct TrackActivity {
    pending: Arc<AtomicUsize>,
    active: Arc<AtomicUsize>,
}

/// Counts as under way until it is dropped.
struct Counted(Arc<AtomicUsize>);

impl Counted {
    fn new(count: &Arc<AtomicUsize>) -> Self {
        count.fetch_add(1, Ordering::SeqCst);
        Counted(count.clone())
    }
}

impl Drop for Counted {
    fn drop(&mut self) {
        self.0.fetch_sub(1, Ordering::SeqCst);
    }
}

impl TrackActivity {
    fn pending_request(&self) -> Counted {
        Counted::new(&self.pending)
    }

    fn active_response(&self) -> Counted {
        Counted::new(&self.active)
    }

    fn activity(&self) -> Activity {
        Activity::new(
            self.pending.load(Ordering::SeqCst),
            self.active.load(Ordering::SeqCst),
        )
    }
}

/// Binds services, and remembers for which keys and with which counts.
#[derive(Default)]
struct Recognizer {
    bound: Arc<std::sync::Mutex<Vec<(usize, TrackActivity)>>>,
}

struct MultiplyAndAssign(usize, TrackActivity);

enum Request {
    NotRecognized,
    Recgonized(usize),
}

impl Recognize for Recognizer {
    type Request = Request;
    type Key = usize;
    type RouteError = ();
    type Service = MultiplyAndAssign;

    fn recognize(&self, req: &Self::Request) -> Option<Self::Key> {
        match *req {
            Request::NotRecognized => None,
            Request::Recgonized(n) => Some(n),
        }
    }

    fn bind_service(&mut self, key: &Self::Key) -> Result<Self::Service, Self::RouteError> {
        if *key == UNBINDABLE {
            return Err(());
        }
        let watched = TrackActivity::default();
        self.bound.lock().unwrap().push((*key, watched.clone()));
        Ok(MultiplyAndAssign(1, watched))
    }
}

/// No service can be bound for this key.
const UNBINDABLE: usize = 99;

/// A service fails on this request.
const FAILING: usize = 13;

impl Service for MultiplyAndAssign {
    type Request = Request;
    type Response = usize;
    type Error = ();
    type Future = future::FutureResult<usize, ()>;

    fn poll_ready(&mut self) -> Poll<(), ()> {
        unreachable!()
    }

    fn call(&mut self, req: Self::Request) -> Self::Future {
        let _req = self.1.pending_request();
        let _rsp = self.1.active_response();
        let n = match req {
            Request::NotRecognized => unreachable!(),
            Request::Recgonized(n) => n,
        };
        if n == FAILING {
            return future::err(());
        }
        self.0 *= n;
        future::ok(self.0)
    }
}

impl HasActivity for MultiplyAndAssign {
    fn activity(&self) -> Activity {
        self.1.activity()
    }
}

fn wait<F: Future, E>(mut rsp: ResponseFuture<F, E>) -> Result<F::Item, Error<F::Error, E>> {
    loop {
        if let Async::Ready(item) = rsp.poll(|f: &mut F| f.poll())? {
            return Ok(item);
        }
    }
}

fn call(router: &mut Router<Recognizer>, req: Request) -> Result<usize, Error<(), ()>> {
    wait(router.call(req, |svc: &mut MultiplyAndAssign, req| svc.call(req)))
}

fn call_ok(router: &mut Router<Recognizer>, req: Request) -> usize {
    call(router, req).expect("should route")
}

fn call_err(router: &mut Router<Recognizer>, req: Request) -> Error<(), ()> {
    call(router, req).expect_err("should not route")
}

/// A router, and what its recognizer remembers.
fn watched(capacity: usize) -> (Router<Recognizer>, Arc<std::sync::Mutex<Vec<(usize, TrackActivity)>>>) {
    let recognizer = Recognizer::default();
    let bound = recognizer.bound.clone();
    (Router::new(recognizer, capacity), bound)
}

#[test]
fn invalid() {
    let mut router = Router::new(Recognizer::default(), 1);

    let rsp = call_err(&mut router, Request::NotRecognized);
    assert_eq!(rsp, Error::NotRecognized);
}

#[test]
fn cache_limited_by_capacity() {
    let mut router = Router::new(Recognizer::default(), 1);

    let rsp = call_ok(&mut router, Request::Recgonized(2));
    assert_eq!(rsp, 2);

    let rsp = call_err(&mut router, Request::Recgonized(3));
    assert_eq!(rsp, Error::NoCapacity(1));
}

#[test]
fn services_cached() {
    let mut router = Router::new(Recognizer::default(), 1);

    let rsp = call_ok(&mut router, Request::Recgonized(2));
    assert_eq!(rsp, 2);

    let rsp = call_ok(&mut router, Request::Recgonized(2));
    assert_eq!(rsp, 4);
}

#[test]
fn always_ready() {
    let mut router = Router::new(Recognizer::default(), 0);
    let ready: Result<(), Error<(), ()>> = router.poll_ready();
    assert_eq!(ready, Ok(()));
}

#[test]
fn no_capacity_serves_nothing() {
    let (mut router, bound) = watched(0);
    assert_eq!(call_err(&mut router, Request::Recgonized(2)), Error::NoCapacity(0));
    assert_eq!(call_err(&mut router, Request::NotRecognized), Error::NotRecognized);
    assert!(bound.lock().unwrap().is_empty());
}

#[test]
fn services_are_bound_once_per_key() {
    let (mut router, bound) = watched(3);
    assert_eq!(call_ok(&mut router, Request::Recgonized(2)), 2);
    assert_eq!(call_ok(&mut router, Request::Recgonized(3)), 3);
    assert_eq!(call_ok(&mut router, Request::Recgonized(2)), 4);
    assert_eq!(call_ok(&mut router, Request::Recgonized(3)), 9);
    let keys: Vec<usize> = bound.lock().unwrap().iter().map(|b| b.0).collect();
    assert_eq!(keys, vec![2, 3]);
}

#[test]
fn bound_route_keeps_its_service() {
    let (mut router, bound) = watched(2);
    assert_eq!(call_ok(&mut router, Request::Recgonized(2)), 2);
    // What comes between two requests on a route leaves its service alone.
    assert_eq!(call_ok(&mut router, Request::Recgonized(3)), 3);
    assert_eq!(call_err(&mut router, Request::NotRecognized), Error::NotRecognized);
    assert_eq!(call_err(&mut router, Request::Recgonized(5)), Error::NoCapacity(2));
    assert_eq!(call_ok(&mut router, Request::Recgonized(3)), 9);
    assert_eq!(call_ok(&mut router, Request::Recgonized(2)), 4);
    // Another route is given up, the one in use is not.
    let busy = bound.lock().unwrap()[0].1.clone();
    let guard = busy.active_response();
    assert_eq!(call_ok(&mut router, Request::Recgonized(7)), 7);
    drop(guard);
    assert_eq!(call_ok(&mut router, Request::Recgonized(2)), 8);
    let keys: Vec<usize> = bound.lock().unwrap().iter().map(|b| b.0).collect();
    assert_eq!(keys, vec![2, 3, 7]);
}

#[test]
fn refusal_changes_nothing() {
    let (mut router, bound) = watched(2);
    call_ok(&mut router, Request::Recgonized(2));
    call_ok(&mut router, Request::Recgonized(3));
    assert_eq!(call_err(&mut router, Request::Recgonized(5)), Error::NoCapacity(2));
    assert_eq!(call_ok(&mut router, Request::Recgonized(2)), 4);
    assert_eq!(call_ok(&mut router, Request::Recgonized(3)), 9);
    assert_eq!(bound.lock().unwrap().len(), 2);
}

#[test]
fn oldest_idle_route_is_given_up() {
    let (mut router, bound) = watched(2);
    call_ok(&mut router, Request::Recgonized(2));
    call_ok(&mut router, Request::Recgonized(3));
    // The older route is in use, the newer one idle: the newer one goes.
    let busy = bound.lock().unwrap()[0].1.clone();
    let guard = busy.active_response();
    assert_eq!(call_ok(&mut router, Request::Recgonized(5)), 5);
    assert_eq!(call_ok(&mut router, Request::Recgonized(2)), 4);
    // The given up route is bound anew, and the idle one goes for it.
    assert_eq!(call_ok(&mut router, Request::Recgonized(3)), 3);
    assert_eq!(call_ok(&mut router, Request::Recgonized(2)), 8);
    drop(guard);
    let keys: Vec<usize> = bound.lock().unwrap().iter().map(|b| b.0).collect();
    assert_eq!(keys, vec![2, 3, 5, 3]);
}

#[test]
fn refused_when_all_routes_are_in_use() {
    let (mut router, bound) = watched(2);
    call_ok(&mut router, Request::Recgonized(2));
    call_ok(&mut router, Request::Recgonized(3));
    let guards: Vec<Counted> =
        bound.lock().unwrap().iter().map(|b| b.1.active_response()).collect();
    assert_eq!(call_err(&mut router, Request::Recgonized(5)), Error::NoCapacity(2));
    drop(guards);
    assert_eq!(call_ok(&mut router, Request::Recgonized(2)), 4);
    assert_eq!(call_ok(&mut router, Request::Recgonized(3)), 9);
    assert_eq!(bound.lock().unwrap().len(), 2);
}

#[test]
fn pending_request_counts_as_use() {
    let (mut router, bound) = watched(2);
    call_ok(&mut router, Request::Recgonized(2));
    call_ok(&mut router, Request::Recgonized(3));
    let busy = bound.lock().unwrap()[0].1.clone();
    let _guard = busy.pending_request();
    assert_eq!(call_ok(&mut router, Request::Recgonized(5)), 5);
    assert_eq!(call_ok(&mut router, Request::Recgonized(2)), 4);
    let other = bound.lock().unwrap()[2].1.clone();
    let _other_guard = other.pending_request();
    assert_eq!(call_err(&mut router, Request::Recgonized(3)), Error::NoCapacity(2));
}

#[test]
fn least_recently_used_goes_first() {
    let (mut router, bound) = watched(3);
    call_ok(&mut router, Request::Recgonized(2));
    call_ok(&mut router, Request::Recgonized(3));
    call_ok(&mut router, Request::Recgonized(5));
    // 2 is used again, and stays in use: 3, 5, 2.
    call_ok(&mut router, Request::Recgonized(2));
    let busy = bound.lock().unwrap()[0].1.clone();
    let _guard = busy.active_response();
    // 3 goes: 5, 2, 7.
    assert_eq!(call_ok(&mut router, Request::Recgonized(7)), 7);
    // 5 is used: 2, 7, 5.
    assert_eq!(call_ok(&mut router, Request::Recgonized(5)), 25);
    // 2 is the oldest and in use, so 7 goes: 2, 5, 3.
    assert_eq!(call_ok(&mut router, Request::Recgonized(3)), 3);
    assert_eq!(call_ok(&mut router, Request::Recgonized(5)), 125);
    assert_eq!(call_ok(&mut router, Request::Recgonized(2)), 8);
    // 3 is now the oldest: it goes.
    assert_eq!(call_ok(&mut router, Request::Recgonized(7)), 7);
    let keys: Vec<usize> = bound.lock().unwrap().iter().map(|b| b.0).collect();
    assert_eq!(keys, vec![2, 3, 5, 7, 3, 7]);
}

#[test]
fn failed_binding() {
    let (mut router, bound) = watched(2);
    assert_eq!(call_err(&mut router, Request::Recgonized(UNBINDABLE)), Error::Route(()));
    assert_eq!(call_ok(&mut router, Request::Recgonized(2)), 2);
    assert_eq!(call_ok(&mut router, Request::Recgonized(3)), 3);
    // Room is made before the service is bound: the idle route is gone.
    let busy = bound.lock().unwrap()[1].1.clone();
    let guard = busy.active_response();
    assert_eq!(call_err(&mut router, Request::Recgonized(UNBINDABLE)), Error::Route(()));
    drop(guard);
    assert_eq!(call_ok(&mut router, Request::Recgonized(2)), 2);
    assert_eq!(call_ok(&mut router, Request::Recgonized(3)), 9);
    assert_eq!(bound.lock().unwrap().len(), 3);
}

#[test]
fn failed_service() {
    let mut router = Router::new(Recognizer::default(), 1);
    assert_eq!(call_err(&mut router, Request::Recgonized(FAILING)), Error::Inner(()));
}

#[test]
fn recognized_key_is_routed() {
    let (mut router, _) = watched(1);
    let send = |svc: &mut MultiplyAndAssign, req| svc.call(req);
    assert_eq!(wait(router.route(Some(4), Request::Recgonized(6), send)), Ok(6));
    assert_eq!(wait(router.route(Some(4), Request::Recgonized(6), send)), Ok(36));
    assert_eq!(
        wait(router.route(None, Request::Recgonized(6), send)),
        Err(Error::NotRecognized)
    );
}

#[test]
fn bound_service_is_served() {
    let (mut router, _) = watched(1);
    let send = |svc: &mut MultiplyAndAssign, req| svc.call(req);
    let bound = Ok(MultiplyAndAssign(5, TrackActivity::default()));
    assert_eq!(wait(router.serve(4, bound, Request::Recgonized(6), send)), Ok(30));
    assert_eq!(
        wait(router.serve(4, Err(()), Request::Recgonized(6), send)),
        Err(Error::Route(()))
    );
    assert_eq!(call_ok(&mut router, Request::Recgonized(4)), 120);
}

#[test]
fn single_route() {
    let single = Single::new(MultiplyAndAssign(1, TrackActivity::default()));
    let mut router: Router<Single<MultiplyAndAssign, Request>> = Router::new(single, 1);
    let send = |svc: &mut MultiplyAndAssign, req| svc.call(req);
    assert_eq!(wait(router.call(Request::Recgonized(2), send)), Ok(2));
    assert_eq!(wait(router.call(Request::Recgonized(3), send)), Ok(6));
    assert_eq!(wait(router.call(Request::Recgonized(5), send)), Ok(30));
}

#[test]
fn single_recognizes_everything() {
    let mut single: Single<usize, Request> = Single::new(7);
    assert_eq!(single.recognize(&Request::NotRecognized), Some(()));
    assert_eq!(single.bind_service(&()), Ok(7));
}

#[test]
fn readings() {
    let idle = Activity::new(0, 0);
    assert!(!idle.is_in_use());
    let pending = Activity::new(2, 0);
    assert_eq!(pending.pending_requests(), 2);
    assert_eq!(pending.active_responses(), 0);
    assert!(pending.is_in_use());
    let active = Activity::new(0, 3);
    assert_eq!(active.active_responses(), 3);
    assert!(active.is_in_use());
    assert!(Activity::new(usize::MAX, usize::MAX).is_in_use());
}
