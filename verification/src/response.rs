//! The response to a request, as it will be.

use crate::error::Error;
use vstd::prelude::*;

verus! {

/// What has become of a request: `F` is the response that a service will give,
/// and `E` the error of binding a service.
pub enum State<F, E> {
    /// A service was sent the request.
    Inner(F),
    /// No service could be bound.
    RouteError(E),
    /// There was no room for another route; the number of routes there may be.
    NoCapacity(usize),
    /// The request belongs to no route.
    NotRecognized,
    /// The error was handed out.
    Invalid,
}

/// The response to a request, as it will be.
pub struct ResponseFuture<F, E> {
    state: State<F, E>,
}

impl<F, E> View for ResponseFuture<F, E> {
    type V = State<F, E>;

    closed spec fn view(&self) -> State<F, E> {
        self.state
    }
}

/// The error with which a request fails that no service was sent.
pub open spec fn refusal<F, E, I>(state: State<F, E>) -> Option<Error<I, E>> {
    match state {
        State::RouteError(e) => Some(Error::Route(e)),
        State::NoCapacity(capacity) => Some(Error::NoCapacity(capacity)),
        State::NotRecognized => Some(Error::NotRecognized),
        _ => None,
    }
}

/// What is left of `state` once its error was handed out: the error of binding
/// a service is gone, and any other can be had again.
pub open spec fn spent<F, E>(state: State<F, E>) -> State<F, E> {
    match state {
        State::RouteError(_) => State::Invalid,
        _ => state,
    }
}

/// What polling makes of `before`: a response that a service will give stays
/// one, and an error is spent.
pub open spec fn after_poll<F, E>(before: State<F, E>, after: State<F, E>) -> bool {
    if before is Inner {
        after is Inner
    } else {
        after == spent(before)
    }
}

/// A service's error is the router's inner error.
pub open spec fn inner_error<R, I, E>(polled: Result<R, I>) -> Result<R, Error<I, E>> {
    match polled {
        Ok(r) => Ok(r),
        Err(why) => Err(Error::Inner(why)),
    }
}

/// A request that no service was sent fails with its own reason, and with the
/// error or the number that belongs to it. Only the error of binding a service
/// is gone once it was handed out.
pub proof fn each_state_has_its_reason<F, E, I>(f: F, e: E, capacity: usize)
    ensures
        refusal::<F, E, I>(State::Inner(f)) is None,
        refusal::<F, E, I>(State::RouteError(e)) == Some(Error::<I, E>::Route(e)),
        refusal::<F, E, I>(State::NoCapacity(capacity)) == Some(
            Error::<I, E>::NoCapacity(capacity),
        ),
        refusal::<F, E, I>(State::NotRecognized) == Some(Error::<I, E>::NotRecognized),
        refusal::<F, E, I>(State::Invalid) is None,
        spent(State::<F, E>::RouteError(e)) is Invalid,
        spent(State::<F, E>::NoCapacity(capacity)) == State::<F, E>::NoCapacity(capacity),
        spent(State::<F, E>::NotRecognized) is NotRecognized,
{
}

/// A service's response comes through as it is, and its error as the inner one.
pub proof fn service_answer_comes_through<R, I, E>(response: R, why: I)
    ensures
        inner_error::<R, I, E>(Ok(response)) == Ok::<R, Error<I, E>>(response),
        inner_error::<R, I, E>(Err(why)) == Err::<R, Error<I, E>>(Error::Inner(why)),
{
}

impl<F, E> ResponseFuture<F, E> {
    /// Responses in the same state are the same.
    pub proof fn same_state_same_response(self, other: Self)
        requires
            self@ == other@,
        ensures
            self == other,
    {
    }

    /// The response that the service will give.
    pub fn new(inner: F) -> (r: Self)
        ensures
            r@ == State::<F, E>::Inner(inner),
    {
        ResponseFuture { state: State::Inner(inner) }
    }

    /// The request belongs to no route.
    pub fn not_recognized() -> (r: Self)
        ensures
            r@ == State::<F, E>::NotRecognized,
    {
        ResponseFuture { state: State::NotRecognized }
    }

    /// There was no room for another route beside the `capacity` routes there
    /// may be.
    pub fn no_capacity(capacity: usize) -> (r: Self)
        ensures
            r@ == State::<F, E>::NoCapacity(capacity),
    {
        ResponseFuture { state: State::NoCapacity(capacity) }
    }

    /// No service could be bound.
    pub fn route_err(e: E) -> (r: Self)
        ensures
            r@ == State::<F, E>::RouteError(e),
    {
        ResponseFuture { state: State::RouteError(e) }
    }

    /// Whether the error was handed out: there is nothing left to poll.
    pub fn is_invalid(&self) -> (b: bool)
        ensures
            b == (self@ is Invalid),
    {
        matches!(self.state, State::Invalid)
    }

    /// Asks for the response. Where a service was sent the request, `poll` asks
    /// it, and its error becomes `Error::Inner`. Else the answer is the reason
    /// why none was; the error of binding a service can be had once.
    pub fn poll<R, I, P>(&mut self, poll: P) -> (r: Result<R, Error<I, E>>) where
        P: FnOnce(&mut F) -> Result<R, I>,

        requires
            old(self)@ !is Invalid,
            (old(self)@ matches State::Inner(before) ==> forall|f: &mut F|
                *f == before ==> #[trigger] call_requires(poll, (f,))),
        ensures
            match old(self)@ {
                State::Inner(before) => {
                    exists|f: &mut F, polled: Result<R, I>|
                        {
                            &&& #[trigger] call_ensures(poll, (f,), polled)
                            &&& *f == before
                            &&& final(self)@ == State::<F, E>::Inner(*final(f))
                            &&& r == inner_error::<R, I, E>(polled)
                        }
                },
                _ => {
                    &&& refusal::<F, E, I>(old(self)@) matches Some(why)
                    &&& r == Err::<R, Error<I, E>>(why)
                    &&& final(self)@ == spent(old(self)@)
                },
            },
            after_poll(old(self)@, final(self)@),
            match old(self)@ {
                State::Inner(before) => {
                    exists|f: &mut F, polled: Result<R, I>|
                        {
                            &&& #[trigger] call_ensures(poll, (f,), polled)
                            &&& *f == before
                            &&& final(self)@ == State::<F, E>::Inner(*final(f))
                            &&& match polled {
                                Ok(response) => r == Ok::<R, Error<I, E>>(response),
                                Err(why) => r == Err::<R, Error<I, E>>(Error::Inner(why)),
                            }
                        }
                },
                State::RouteError(e) => {
                    &&& r == Err::<R, Error<I, E>>(Error::Route(e))
                    &&& final(self)@ is Invalid
                },
                State::NoCapacity(capacity) => {
                    &&& r == Err::<R, Error<I, E>>(Error::NoCapacity(capacity))
                    &&& final(self)@ == State::<F, E>::NoCapacity(capacity)
                },
                State::NotRecognized => {
                    &&& r == Err::<R, Error<I, E>>(Error::NotRecognized)
                    &&& final(self)@ is NotRecognized
                },
                State::Invalid => false,
            },
    {
        if let State::Inner(fut) = &mut self.state {
            return match poll(fut) {
                Ok(response) => Ok(response),
                Err(why) => Err(Error::Inner(why)),
            };
        }
        match self.state {
            State::NotRecognized => Err(Error::NotRecognized),
            State::NoCapacity(capacity) => Err(Error::NoCapacity(capacity)),
            _ => {
                let mut state: State<F, E> = State::Invalid;
                std::mem::swap(&mut self.state, &mut state);
                match state {
                    State::RouteError(e) => Err(Error::Route(e)),
                    _ => vstd::pervasive::unreached(),
                }
            },
        }
    }
}

} // verus!
