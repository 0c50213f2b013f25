//! The router.

use crate::activity::HasActivity;
use crate::cache::Cache;
use crate::error::Error;
use crate::inner::{kept, keys, marked, Inner, Used};
use crate::recognize::{key_model, Recognize};
use crate::response::{ResponseFuture, State};
use crate::routing::Outcome;
use vstd::prelude::*;

verus! {

/// Routes requests based on a configurable `Key`.
#[verifier::reject_recursive_types(T)]
pub struct Router<T: Recognize> {
    inner: Inner<T>,
}

impl<T: Recognize> View for Router<T> {
    type V = Cache<T::Key, T::Service>;

    closed spec fn view(&self) -> Cache<T::Key, T::Service> {
        self.inner@
    }
}

impl<T: Recognize> Router<T> where T::Key: Clone, T::Service: HasActivity {
    /// What tells requests apart and binds routes.
    pub closed spec fn recognizer(self) -> T {
        self.inner.recognizer()
    }

    /// The routes with the times at which they were last used, the least
    /// recently used one first.
    pub closed spec fn order(self) -> Seq<Used<T::Key>> {
        self.inner.order()
    }

    /// The order of use is that of the entries.
    pub proof fn lru_is_order(self)
        ensures
            self@.lru == keys(self.order()),
            self@.lru.len() == self.order().len(),
            forall|i: int|
                0 <= i < self.order().len() ==> #[trigger] self@.lru[i] == self.order()[i].spec_key(),
    {
        self.inner.lru_is_order();
    }

    /// The cache is well formed and its keys behave as keys.
    pub open spec fn wf(self) -> bool {
        &&& key_model::<T::Key>()
        &&& self@.wf()
    }

    /// Nothing else is asked of a well-formed one.
    pub proof fn wf_by_cache(self)
        ensures
            self.wf() <==> key_model::<T::Key>() && self@.wf(),
    {
    }

    /// A router that has bound no route and may bind `capacity` of them.
    pub fn new(recognize: T, capacity: usize) -> (router: Self)
        requires
            key_model::<T::Key>(),
        ensures
            router.wf(),
            router@ == Cache::<T::Key, T::Service>::new(capacity),
            router@.capacity == capacity,
            router@.routes == Map::<T::Key, T::Service>::empty(),
            router@.lru == Seq::<T::Key>::empty(),
            router.order() == Seq::<Used<T::Key>>::empty(),
            router.recognizer() == recognize,
    {
        Router { inner: Inner::new(recognize, capacity) }
    }

    /// Always ready to serve.
    ///
    /// Graceful backpressure is **not** supported at this level, since each request may
    /// be routed to different resources. Instead, requests should be issued and each
    /// route should support a queue of requests.
    pub fn poll_ready<I>(&mut self) -> (r: Result<(), Error<I, T::RouteError>>)
        ensures
            r == Ok::<(), Error<I, T::RouteError>>(()),
            *final(self) == *old(self),
    {
        Ok(())
    }

    /// Routes the request through an underlying service: `send` sends it.
    ///
    /// The response fails when the request cannot be routed.
    pub fn call<F, C>(&mut self, request: T::Request, send: C) -> (r: ResponseFuture<
        F,
        T::RouteError,
    >) where C: FnOnce(&mut T::Service, T::Request) -> F
        requires
            old(self).wf(),
            forall|svc: &mut T::Service| #[trigger] call_requires(send, (svc, request)),
            forall|key: T::Key| #[trigger]
                call_ensures(T::recognize, (&old(self).recognizer(), &request), Some(key))
                    && old(self)@.may_bind(key) ==> old(self).recognizer().bindable(&key),
        ensures
            final(self).wf(),
            exists|outcome: Outcome<T::Key, T::Service, F, T::RouteError>|
                {
                    &&& #[trigger] old(self)@.allows(outcome)
                    &&& final(self)@ == outcome.after(old(self)@)
                    &&& r@ == outcome.answer(old(self)@)
                    &&& outcome.reordered(old(self).order(), final(self).order())
                    // what the recognizer made of the request
                    &&& call_ensures(
                        T::recognize,
                        (&old(self).recognizer(), &request),
                        outcome.key(),
                    )
                    // what the recognizer bound
                    &&& match outcome.bound() {
                        Some(bound) => exists|rec: &mut T|
                            {
                                &&& #[trigger] call_ensures(
                                    T::bind_service,
                                    (rec, &outcome.key()->Some_0),
                                    bound,
                                )
                                &&& *rec == old(self).recognizer()
                                &&& *final(rec) == final(self).recognizer()
                            },
                        None => final(self).recognizer() == old(self).recognizer(),
                    }
                    // what the service answered
                    &&& outcome.sent(old(self)@) matches Some((service, response, after)) ==> {
                        exists|svc: &mut T::Service|
                            {
                                &&& #[trigger] call_ensures(send, (svc, request), response)
                                &&& *svc == service
                                &&& *final(svc) == after
                            }
                    }
                },
    {
        let key: Option<T::Key> = self.inner.recognize(&request);
        self.route(key, request, send)
    }

    /// Routes a request that was recognized as `key`.
    #[verifier::rlimit(60)]
    pub fn route<F, C>(&mut self, key: Option<T::Key>, request: T::Request, send: C) -> (r:
        ResponseFuture<F, T::RouteError>) where C: FnOnce(&mut T::Service, T::Request) -> F
        requires
            old(self).wf(),
            forall|svc: &mut T::Service| #[trigger] call_requires(send, (svc, request)),
            (key matches Some(k) ==> (old(self)@.may_bind(k) ==> old(self).recognizer().bindable(&k))),
        ensures
            final(self).wf(),
            exists|outcome: Outcome<T::Key, T::Service, F, T::RouteError>|
                {
                    &&& #[trigger] old(self)@.allows(outcome)
                    &&& final(self)@ == outcome.after(old(self)@)
                    &&& r@ == outcome.answer(old(self)@)
                    &&& outcome.reordered(old(self).order(), final(self).order())
                    &&& outcome.key() == key
                    &&& match outcome.bound() {
                        Some(bound) => exists|rec: &mut T|
                            {
                                &&& #[trigger] call_ensures(
                                    T::bind_service,
                                    (rec, &outcome.key()->Some_0),
                                    bound,
                                )
                                &&& *rec == old(self).recognizer()
                                &&& *final(rec) == final(self).recognizer()
                            },
                        None => final(self).recognizer() == old(self).recognizer(),
                    }
                    &&& outcome.sent(old(self)@) matches Some((service, response, after)) ==> {
                        exists|svc: &mut T::Service|
                            {
                                &&& #[trigger] call_ensures(send, (svc, request), response)
                                &&& *svc == service
                                &&& *final(svc) == after
                            }
                    }
                },
    {
        let ghost before = self@;
        let ghost order = self.order();
        proof {
            self.lru_is_order();
        }
        let key: T::Key = match key {
            Some(key) => key,
            None => {
                assert(before.allows(Outcome::<T::Key, T::Service, F, T::RouteError>::Unrecognized));
                return ResponseFuture::not_recognized();
            },
        };

        // First, try to load a cached route for `key`.
        if let Some(svc) = self.inner.mark_route(&key) {
            let response: F = send(svc, request);
            proof {
                let outcome = Outcome::<T::Key, T::Service, F, T::RouteError>::Cached {
                    key,
                    response,
                    after: self@.routes[key],
                };
                assert(before.allows(outcome));
                assert(outcome.sent(before)->Some_0.1 == response);
            }
            return ResponseFuture::new(response);
        }

        // Since there wasn't a cached route, ensure that there is capacity for a
        // new one.
        if self.inner.current_capacity() == 0 {
            // If the cache is full, evict the oldest inactive route. Where no route is
            // active, none is evicted.
            self.inner.create_capacity();
        }
        let ghost room = self@;
        let ghost room_order = self.order();
        assert(before.room(room));
        assert(kept(order, room.lru, room_order));
        // If all routes are active, fail the request.
        if self.inner.current_capacity() == 0 {
            proof {
                before.made_room_or_unchanged(room);
            }
            assert(before.allows(
                Outcome::<T::Key, T::Service, F, T::RouteError>::Refused { key },
            ));
            return ResponseFuture::no_capacity(self.inner.capacity());
        }

        // Bind a new route, send the request on the route, and cache the route.
        let bound: Result<T::Service, T::RouteError> = self.inner.bind_service(&key);
        let ghost answer = bound;
        let r: ResponseFuture<F, T::RouteError> = self.serve(key, bound, request, send);
        proof {
            match answer {
                Ok(service) => {
                    let response = r@->Inner_0;
                    let after = self@.routes[key];
                    let outcome = Outcome::<T::Key, T::Service, F, T::RouteError>::Bound {
                        key,
                        room,
                        service,
                        response,
                        after,
                    };
                    assert(before.allows(outcome));
                    assert(outcome.bound() == Some(answer));
                    assert(outcome.sent(before)->Some_0.1 == response);
                    assert(outcome.reordered(order, self.order()));
                },
                Err(error) => {
                    let outcome = Outcome::<T::Key, T::Service, F, T::RouteError>::Unbound {
                        key,
                        room,
                        error,
                    };
                    assert(before.allows(outcome));
                    assert(outcome.bound() == Some(answer));
                    assert(outcome.reordered(order, self.order()));
                },
            }
        }
        r
    }

    /// Sends the request to a service that was bound for `key`, and caches the
    /// route.
    pub fn serve<F, C>(
        &mut self,
        key: T::Key,
        bound: Result<T::Service, T::RouteError>,
        request: T::Request,
        send: C,
    ) -> (r: ResponseFuture<F, T::RouteError>) where
        C: FnOnce(&mut T::Service, T::Request) -> F,

        requires
            old(self).wf(),
            old(self)@.routes.contains_key(key) || !old(self)@.is_full(),
            forall|svc: &mut T::Service| #[trigger] call_requires(send, (svc, request)),
        ensures
            final(self).wf(),
            final(self).recognizer() == old(self).recognizer(),
            match bound {
                Err(error) => {
                    &&& r@ == State::<F, T::RouteError>::RouteError(error)
                    &&& final(self)@ == old(self)@
                    &&& final(self).order() == old(self).order()
                },
                Ok(service) => exists|svc: &mut T::Service, response: F|
                    {
                        &&& #[trigger] call_ensures(send, (svc, request), response)
                        &&& *svc == service
                        &&& r@ == State::<F, T::RouteError>::Inner(response)
                        &&& final(self)@ == old(self)@.used(key, *final(svc))
                        &&& marked(old(self).order(), key, final(self).order())
                        &&& final(self)@.capacity == old(self)@.capacity
                        &&& final(self)@.routes == old(self)@.routes.insert(key, *final(svc))
                        &&& !old(self)@.lru.contains(key) ==> final(self)@.lru
                            == old(self)@.lru.push(key)
                        &&& forall|i: int|
                            0 <= i < old(self)@.lru.len() && #[trigger] old(self)@.lru[i] == key
                                ==> final(self)@.lru == old(self)@.lru.remove(i).push(key)
                    },
            },
    {
        let mut service: T::Service = match bound {
            Ok(service) => service,
            Err(e) => return ResponseFuture::route_err(e),
        };
        let response: F = send(&mut service, request);
        self.inner.add_route(key, service);
        ResponseFuture::new(response)
    }
}

} // verus!
