use proxy_router::inner::Inner;
use proxy_router::{Activity, HasActivity, Recognize};

/// A service that is as busy as it says.
#[derive(Debug, PartialEq)]
struct Route {
    name: &'static str,
    active: usize,
}

impl HasActivity for Route {
    fn activity(&self) -> Activity {
        Activity::new(0, self.active)
    }
}

/// Recognizes a request as its length, and binds services of that name.
struct ByLength;

impl Recognize for ByLength {
    type Request = &'static str;
    type Key = usize;
    type RouteError = usize;
    type Service = Route;

    fn recognize(&self, req: &Self::Request) -> Option<usize> {
        if req.is_empty() {
            None
        } else {
            Some(req.len())
        }
    }

    fn bind_service(&mut self, key: &usize) -> Result<Route, usize> {
        if *key > 9 {
            Err(*key)
        } else {
            Ok(Route { name: "bound", active: *key })
        }
    }
}

fn idle(name: &'static str) -> Route {
    Route { name, active: 0 }
}

fn busy(name: &'static str) -> Route {
    Route { name, active: 1 }
}

/// The names of the routes of keys 1 to 4, `-` where there is none. Asking
/// for a route uses it.
fn names(inner: &mut Inner<ByLength>) -> Vec<&'static str> {
    (1..5).map(|k| inner.mark_route(&k).map(|r| r.name).unwrap_or("-")).collect()
}

#[test]
fn fresh_state() {
    let mut inner = Inner::new(ByLength, 4);
    assert_eq!(inner.capacity(), 4);
    assert_eq!(inner.current_capacity(), 4);
    assert_eq!(names(&mut inner), vec!["-", "-", "-", "-"]);
}

#[test]
fn recognizer_is_asked() {
    let mut inner = Inner::new(ByLength, 4);
    assert_eq!(inner.recognize(&""), None);
    assert_eq!(inner.recognize(&"abc"), Some(3));
    assert_eq!(inner.bind_service(&3), Ok(Route { name: "bound", active: 3 }));
    assert_eq!(inner.bind_service(&12), Err(12));
    assert_eq!(inner.current_capacity(), 4);
}

#[test]
fn added_routes_are_found() {
    let mut inner = Inner::new(ByLength, 3);
    inner.add_route(1, idle("one"));
    inner.add_route(3, busy("three"));
    assert_eq!(inner.current_capacity(), 1);
    assert_eq!(names(&mut inner), vec!["one", "-", "three", "-"]);
    // A route that is bound again keeps its place in the count.
    inner.add_route(3, busy("tres"));
    assert_eq!(inner.current_capacity(), 1);
    assert_eq!(names(&mut inner), vec!["one", "-", "tres", "-"]);
}

#[test]
fn marked_route_can_be_written() {
    let mut inner = Inner::new(ByLength, 1);
    inner.add_route(2, idle("two"));
    inner.mark_route(&2).unwrap().name = "deux";
    assert!(inner.mark_route(&1).is_none());
    assert_eq!(inner.mark_route(&2), Some(&mut idle("deux")));
}

#[test]
fn keys_stand_by_last_use() {
    let mut inner = Inner::new(ByLength, 3);
    for (k, name) in [(1, "one"), (2, "two"), (1, "uno"), (3, "three"), (2, "dos"), (2, "due")] {
        inner.add_route(k, idle(name));
    }
    // Each key stands once: 1, 3, 2
    assert_eq!(inner.current_capacity(), 0);
    inner.evict(0);
    inner.evict(0);
    assert_eq!(inner.current_capacity(), 2);
    assert_eq!(names(&mut inner), vec!["-", "due", "-", "-"]);
}

#[test]
fn place_in_the_order_of_use() {
    let mut inner = Inner::new(ByLength, 4);
    for (k, name) in [(1, "one"), (2, "two"), (3, "three"), (4, "four")] {
        inner.add_route(k, idle(name));
    }
    inner.mark_route(&2);
    inner.mark_route(&1);
    // 3, 4, 2, 1
    inner.evict(1);
    assert_eq!(inner.current_capacity(), 1);
    // 3, 2, 1
    inner.evict(2);
    // 3, 2
    inner.evict(0);
    assert_eq!(names(&mut inner), vec!["-", "two", "-", "-"]);
    assert_eq!(inner.current_capacity(), 3);
}

#[test]
fn capacity_is_created_from_the_oldest_idle() {
    let mut inner = Inner::new(ByLength, 4);
    inner.add_route(1, busy("one"));
    inner.add_route(2, idle("two"));
    inner.add_route(3, busy("three"));
    inner.add_route(4, idle("four"));
    inner.create_capacity();
    assert_eq!(inner.current_capacity(), 1);
    assert_eq!(names(&mut inner), vec!["one", "-", "three", "four"]);
    inner.create_capacity();
    assert_eq!(names(&mut inner), vec!["one", "-", "three", "-"]);
    // All that are left are in use.
    inner.create_capacity();
    assert_eq!(inner.current_capacity(), 2);
    assert_eq!(names(&mut inner), vec!["one", "-", "three", "-"]);
}

#[test]
fn idle_routes_are_kept_where_none_is_in_use() {
    let mut inner = Inner::new(ByLength, 2);
    inner.add_route(1, idle("one"));
    inner.add_route(2, idle("two"));
    inner.create_capacity();
    assert_eq!(inner.current_capacity(), 0);
    assert_eq!(names(&mut inner), vec!["one", "two", "-", "-"]);
}

#[test]
fn nothing_to_give_up() {
    let mut inner: Inner<ByLength> = Inner::new(ByLength, 2);
    inner.create_capacity();
    assert_eq!(inner.current_capacity(), 2);
}
