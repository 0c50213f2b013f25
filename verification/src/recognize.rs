//! How requests are told apart, and how a route is made.

use std::hash::Hash;
use std::marker::PhantomData;
use vstd::laws_eq::obeys_concrete_eq;
use vstd::prelude::*;
use vstd::std_specs::hash::obeys_key_model;

verus! {

/// Provides a strategy for routing a request to a service.
///
/// Implementors must provide a `Key` type that identifies each unique route. The
/// `recognize()` method is used to determine the key for a given request. This key is
/// used to look up a route in a cache (i.e. in `Router`), or can be passed to
/// `bind_service` to instantiate the identified route.
pub trait Recognize {
    /// Requests handled by the discovered services
    type Request;

    /// Identifies a Route. A router clones the keys of its routes: it asks
    /// for `Clone` too.
    type Key: Eq + Hash;

    /// Error produced by failed routing
    type RouteError;

    /// A route.
    type Service;

    /// Whether `bind_service` may be called for `key`: always, unless the
    /// implementor says otherwise.
    open spec fn bindable(&self, key: &Self::Key) -> bool {
        true
    }

    /// Determines the key for a route to handle the given request.
    fn recognize(&self, req: &Self::Request) -> Option<Self::Key>;

    /// Return a service to handle requests.
    ///
    /// The returned service must always be in the ready state: it may be sent
    /// a request at once.
    fn bind_service(&mut self, key: &Self::Key) -> Result<Self::Service, Self::RouteError>
        requires
            old(self).bindable(key),
    ;
}

/// What a router asks of its keys. It is more than `Eq`, `Hash` and `Clone`
/// promise: two keys that `==` calls equal are one and the same key, a key
/// always hashes alike, and a clone is the key that was cloned.
pub open spec fn key_model<K: Clone + Eq + Hash>() -> bool {
    &&& obeys_key_model::<K>()
    &&& obeys_concrete_eq::<K>()
    &&& forall|a: K, b: K| #[trigger] cloned(a, b) ==> a == b
}

/// Nothing else is asked of keys: whatever behaves so can be a key.
pub proof fn key_model_asks_no_more<K: Clone + Eq + Hash>()
    requires
        obeys_key_model::<K>(),
        obeys_concrete_eq::<K>(),
        forall|a: K, b: K| #[trigger] cloned(a, b) ==> a == b,
    ensures
        key_model::<K>(),
{
}

/// The unsigned integers, the signed integers and `bool` can be keys.
pub proof fn primitive_keys()
    ensures
        key_model::<u8>(),
        key_model::<u16>(),
        key_model::<u32>(),
        key_model::<u64>(),
        key_model::<u128>(),
        key_model::<usize>(),
        key_model::<i8>(),
        key_model::<i16>(),
        key_model::<i32>(),
        key_model::<i64>(),
        key_model::<i128>(),
        key_model::<isize>(),
        key_model::<bool>(),
{
    broadcast use vstd::std_specs::hash::group_hash_axioms;
    broadcast use vstd::laws_eq::group_laws_eq;

}

/// Recognizes every request as one and the same route, which can be bound once.
pub struct Single<S, R>(Option<S>, PhantomData<R>);

impl<S, R> Single<S, R> {
    /// The service, as long as it is not bound.
    pub closed spec fn unbound(&self) -> Option<S> {
        self.0
    }

    /// Routes every request to `svc`.
    pub fn new(svc: S) -> (single: Self)
        ensures
            single.unbound() == Some(svc),
    {
        Single(Some(svc), PhantomData)
    }

    /// Nothing tells two of them apart but the service they still have.
    pub proof fn same_service_same_single(self, other: Self)
        requires
            self.unbound() == other.unbound(),
        ensures
            self == other,
    {
    }

    /// The service can be bound exactly as long as it was not.
    pub proof fn bindable_once(self, key: ())
        ensures
            self.bindable(&key) <==> self.unbound() is Some,
    {
    }
}

impl<S, R> Recognize for Single<S, R> {
    type Request = R;

    type Key = ();

    type RouteError = ();

    type Service = S;

    open spec fn bindable(&self, key: &()) -> bool {
        self.unbound() is Some
    }

    fn recognize(&self, req: &R) -> (key: Option<()>)
        ensures
            key == Some(()),
    {
        Some(())
    }

    fn bind_service(&mut self, key: &()) -> (bound: Result<S, ()>)
        ensures
            old(self).unbound() matches Some(svc) && bound == Ok::<S, ()>(svc),
            final(self).unbound() is None,
    {
        Ok(self.0.take().expect("static route bound twice"))
    }
}

} // verus!
