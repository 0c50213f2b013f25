//! How busy a route is.

use vstd::prelude::*;

verus! {

/// A reading of the work that a service has under way.
#[derive(Clone, Copy, Debug, PartialEq, Eq, Structural)]
pub struct Activity {
    pending_requests: usize,
    active_responses: usize,
}

/// A service that can say how busy it is.
///
/// A reading is of the moment at which it is taken: requests and responses
/// come and go between two readings of one service, so nothing relates one
/// reading to the next.
pub trait HasActivity {
    /// Reads the current activity.
    fn activity(&self) -> Activity;
}

impl Activity {
    /// The number of requests that were sent and not yet answered.
    pub closed spec fn pending(self) -> nat {
        self.pending_requests as nat
    }

    /// The number of responses that are still being received.
    pub closed spec fn active(self) -> nat {
        self.active_responses as nat
    }

    /// Whether anything is under way.
    pub open spec fn in_use(self) -> bool {
        self.pending() + self.active() > 0
    }

    /// A reading of `pending_requests` requests and `active_responses` responses.
    pub fn new(pending_requests: usize, active_responses: usize) -> (a: Activity)
        ensures
            a.pending() == pending_requests,
            a.active() == active_responses,
    {
        Activity { pending_requests, active_responses }
    }

    /// The number of requests that were sent and not yet answered.
    pub fn pending_requests(&self) -> (n: usize)
        ensures
            n == self.pending(),
    {
        self.pending_requests
    }

    /// The number of responses that are still being received.
    pub fn active_responses(&self) -> (n: usize)
        ensures
            n == self.active(),
    {
        self.active_responses
    }

    /// Whether anything is under way.
    pub fn is_in_use(&self) -> (b: bool)
        ensures
            b == self.in_use(),
            b <==> self.pending() > 0 || self.active() > 0,
    {
        self.pending_requests() > 0 || self.active_responses() > 0
    }

    /// A service is in use exactly while a request is pending or a response is
    /// active, and a service that has at least as much under way is in use too.
    pub proof fn in_use_by_counts(self, busier: Activity)
        ensures
            self.in_use() <==> self.pending() > 0 || self.active() > 0,
            self.in_use() && busier.pending() >= self.pending() && busier.active()
                >= self.active() ==> busier.in_use(),
    {
    }

    /// A reading is its two counts: whatever they are, a reading of `pending`
    /// and `active` gives them back, and says that the service is in use unless
    /// both are zero.
    pub proof fn reading_gives_back_counts(
        pending: usize,
        active: usize,
        a: Activity,
        p: usize,
        r: usize,
        b: bool,
    )
        requires
            call_ensures(Activity::new, (pending, active), a),
            call_ensures(Activity::pending_requests, (&a,), p),
            call_ensures(Activity::active_responses, (&a,), r),
            call_ensures(Activity::is_in_use, (&a,), b),
        ensures
            p == pending,
            r == active,
            b <==> pending != 0 || active != 0,
    {
    }

    /// Readings that count the same are the same.
    pub proof fn same_counts_same_reading(self, other: Activity)
        requires
            self.pending() == other.pending(),
            self.active() == other.active(),
        ensures
            self == other,
    {
    }
}

} // verus!
