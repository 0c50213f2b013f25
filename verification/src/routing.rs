//! What can become of a request, and what that makes of the cache.

use crate::activity::HasActivity;
use crate::cache::Cache;
use crate::inner::{kept, marked, Used};
use crate::response::State;
use vstd::prelude::*;

verus! {

/// What became of a request, with what the services and the recognizer
/// answered on the way.
#[verifier::reject_recursive_types(K)]
#[verifier::reject_recursive_types(S)]
pub enum Outcome<K, S, F, E> {
    /// The request belongs to no route.
    Unrecognized,
    /// The route was bound: its service answered `response` and is now `after`.
    Cached { key: K, response: F, after: S },
    /// The route was not bound, and there was no room for it.
    Refused { key: K },
    /// There was room for the route, and no service could be bound; `room` is
    /// the cache in which there was room.
    Unbound { key: K, room: Cache<K, S>, error: E },
    /// There was room for the route, and `service` was bound: it answered
    /// `response` and is now `after`.
    Bound { key: K, room: Cache<K, S>, service: S, response: F, after: S },
}

impl<K, S, F, E> Outcome<K, S, F, E> {
    /// The key as which the request was recognized.
    pub open spec fn key(self) -> Option<K> {
        match self {
            Outcome::Unrecognized => None,
            Outcome::Cached { key, .. } => Some(key),
            Outcome::Refused { key } => Some(key),
            Outcome::Unbound { key, .. } => Some(key),
            Outcome::Bound { key, .. } => Some(key),
        }
    }

    /// What binding a service returned, if one was to be bound.
    pub open spec fn bound(self) -> Option<Result<S, E>> {
        match self {
            Outcome::Unbound { error, .. } => Some(Err(error)),
            Outcome::Bound { service, .. } => Some(Ok(service)),
            _ => None,
        }
    }

    /// The service that was sent the request, what it answered, and what the
    /// request made of it, if one was sent the request.
    pub open spec fn sent(self, before: Cache<K, S>) -> Option<(S, F, S)> {
        match self {
            Outcome::Cached { key, response, after } => Some((before.routes[key], response, after)),
            Outcome::Bound { service, response, after, .. } => Some((service, response, after)),
            _ => None,
        }
    }

    /// The cache after the request.
    pub open spec fn after(self, before: Cache<K, S>) -> Cache<K, S> {
        match self {
            Outcome::Unrecognized => before,
            Outcome::Cached { key, after, .. } => before.used(key, after),
            Outcome::Refused { .. } => before,
            Outcome::Unbound { room, .. } => room,
            Outcome::Bound { key, room, after, .. } => room.used(key, after),
        }
    }

    /// The request made `after` of the entries `before`, which say when each
    /// route was last used.
    pub open spec fn reordered(self, before: Seq<Used<K>>, after: Seq<Used<K>>) -> bool {
        match self {
            Outcome::Unrecognized => after == before,
            Outcome::Cached { key, .. } => marked(before, key, after),
            Outcome::Refused { .. } => after == before,
            Outcome::Unbound { room, .. } => kept(before, room.lru, after),
            Outcome::Bound { key, room, .. } => exists|left: Seq<Used<K>>| #[trigger]
                kept(before, room.lru, left) && marked(left, key, after),
        }
    }

    /// The answer to the request.
    pub open spec fn answer(self, before: Cache<K, S>) -> State<F, E> {
        match self {
            Outcome::Unrecognized => State::NotRecognized,
            Outcome::Cached { response, .. } => State::Inner(response),
            Outcome::Refused { .. } => State::NoCapacity(before.capacity),
            Outcome::Unbound { error, .. } => State::RouteError(error),
            Outcome::Bound { response, .. } => State::Inner(response),
        }
    }
}

impl<K, S: HasActivity> Cache<K, S> {
    /// `room` may be the cache in which a new route is to be bound: this cache,
    /// or, where it is full, what a search for a route to give up leaves of it.
    pub open spec fn room(self, room: Self) -> bool {
        if self.is_full() {
            self.made_room(room)
        } else {
            room == self
        }
    }

    /// The route of `key` is not bound, and there may be room for it.
    pub open spec fn may_bind(self, key: K) -> bool {
        &&& !self.routes.contains_key(key)
        &&& exists|room: Self| #[trigger] self.room(room) && !room.is_full()
    }

    /// A request that finds this cache may come to `outcome`.
    pub open spec fn allows<F, E>(self, outcome: Outcome<K, S, F, E>) -> bool {
        match outcome {
            Outcome::Unrecognized => true,
            Outcome::Cached { key, .. } => self.routes.contains_key(key),
            Outcome::Refused { key } => {
                &&& !self.routes.contains_key(key)
                &&& self.is_full()
                &&& self.made_room(self)
            },
            Outcome::Unbound { key, room, .. } => {
                &&& !self.routes.contains_key(key)
                &&& self.room(room)
                &&& !room.is_full()
            },
            Outcome::Bound { key, room, .. } => {
                &&& !self.routes.contains_key(key)
                &&& self.room(room)
                &&& !room.is_full()
            },
        }
    }
}

} // verus!
