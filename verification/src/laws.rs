//! What holds of every request and of every run of requests.

use crate::activity::{Activity, HasActivity};
use crate::cache::{
    all_in_use, is_last_place, lemma_last_place, lemma_oldest_idle, lemma_touch_at, oldest_idle,
    some_in_use, touch, touch_puts_last, Cache,
};
use crate::error::Error;
use crate::inner::{keys, kept, kept_by_entries, marked, Used};
use crate::recognize::{Recognize, Single};
use crate::response::{after_poll, refusal, State};
use crate::routing::Outcome;
use std::time::Instant;
use vstd::prelude::*;

verus! {

/// A cache that holds no route is well formed.
pub proof fn empty_cache_is_wf<K, S>(capacity: usize)
    ensures
        Cache::<K, S>::new(capacity).wf(),
        Cache::<K, S>::new(capacity).capacity == capacity,
        Cache::<K, S>::new(capacity).routes == Map::<K, S>::empty(),
        Cache::<K, S>::new(capacity).lru == Seq::<K>::empty(),
{
}

/// Where there is room for a route, the cache in which there is room is well
/// formed and of the same capacity, and the route is not bound in it.
proof fn lemma_room<K, S: HasActivity>(before: Cache<K, S>, room: Cache<K, S>, key: K)
    requires
        before.wf(),
        before.room(room),
        !before.routes.contains_key(key),
    ensures
        room.wf(),
        room.capacity == before.capacity,
        !room.routes.contains_key(key),
{
    if before.is_full() {
        before.made_room_or_unchanged(room);
    }
}

/// Every request leaves the cache well formed: each bound route has one place
/// in the order of use, and there are never more routes than there may be.
/// What may be there does not change.
pub proof fn request_keeps_wf<K, S: HasActivity, F, E>(
    before: Cache<K, S>,
    outcome: Outcome<K, S, F, E>,
)
    requires
        before.wf(),
        before.allows(outcome),
    ensures
        outcome.after(before).wf(),
        outcome.after(before).capacity == before.capacity,
{
    match outcome {
        Outcome::Cached { key, after, .. } => {
            before.used_keeps_wf(key, after);
        },
        Outcome::Unbound { key, room, .. } => {
            lemma_room(before, room, key);
        },
        Outcome::Bound { key, room, after, .. } => {
            lemma_room(before, room, key);
            room.used_keeps_wf(key, after);
        },
        _ => {},
    }
}

/// Requests that find the cache `before` may come to `outcomes`, one after the
/// other.
pub open spec fn allows_run<K, S: HasActivity, F, E>(
    before: Cache<K, S>,
    outcomes: Seq<Outcome<K, S, F, E>>,
) -> bool
    decreases outcomes.len(),
{
    outcomes.len() == 0 || {
        &&& before.allows(outcomes[0])
        &&& allows_run(outcomes[0].after(before), outcomes.drop_first())
    }
}

/// The cache after requests that came to `outcomes`.
pub open spec fn after_run<K, S, F, E>(
    before: Cache<K, S>,
    outcomes: Seq<Outcome<K, S, F, E>>,
) -> Cache<K, S>
    decreases outcomes.len(),
{
    if outcomes.len() == 0 {
        before
    } else {
        after_run(outcomes[0].after(before), outcomes.drop_first())
    }
}

/// However many requests there were, and whatever became of them, no more
/// routes are bound than there may be, and each has one place in the order of
/// use.
pub proof fn every_run_keeps_wf<K, S: HasActivity, F, E>(
    before: Cache<K, S>,
    outcomes: Seq<Outcome<K, S, F, E>>,
)
    requires
        before.wf(),
        allows_run(before, outcomes),
    ensures
        after_run(before, outcomes).wf(),
        after_run(before, outcomes).capacity == before.capacity,
        after_run(before, outcomes).routes.len() <= before.capacity,
    decreases outcomes.len(),
{
    if outcomes.len() > 0 {
        request_keeps_wf(before, outcomes[0]);
        every_run_keeps_wf(outcomes[0].after(before), outcomes.drop_first());
    }
}

/// A request is answered by a service exactly where one was sent it. Else the
/// response fails: with `NotRecognized` where the request belongs to no route,
/// with `NoCapacity` and the number of routes there may be where there was no
/// room, and with the error of binding a service where none could be bound.
pub proof fn unroutable_requests_fail<K, S: HasActivity, F, E, I>(
    before: Cache<K, S>,
    outcome: Outcome<K, S, F, E>,
)
    ensures
        outcome.answer(before) is Inner <==> outcome.sent(before) is Some,
        refusal::<F, E, I>(outcome.answer(before)) == (match outcome {
            Outcome::Unrecognized => Some(Error::<I, E>::NotRecognized),
            Outcome::Refused { .. } => Some(Error::NoCapacity(before.capacity)),
            Outcome::Unbound { error, .. } => Some(Error::Route(error)),
            _ => None,
        }),
        outcome.answer(before) !is Invalid,
{
}

/// The service that was sent a request is cached, as the request left it, as
/// the most recently used one.
pub proof fn sent_is_cached<K, S: HasActivity, F, E>(
    before: Cache<K, S>,
    outcome: Outcome<K, S, F, E>,
)
    requires
        before.wf(),
        before.allows(outcome),
        outcome.sent(before) is Some,
    ensures
        outcome.key() matches Some(key) && {
            &&& outcome.after(before).routes.contains_key(key)
            &&& outcome.after(before).routes[key] == outcome.sent(before)->Some_0.2
            &&& outcome.after(before).lru.len() > 0
            &&& outcome.after(before).lru.last() == key
        },
{
    match outcome {
        Outcome::Cached { key, .. } => {
            touch_puts_last(before.lru, key);
        },
        Outcome::Bound { key, room, .. } => {
            touch_puts_last(room.lru, key);
        },
        _ => {},
    }
}

/// Of two requests on one route, one right after the other, the second is sent
/// to the service that the first was sent to, as the first left it, and no
/// service is bound for it.
pub proof fn next_request_is_served_from_cache<K, S: HasActivity, F, E>(
    before: Cache<K, S>,
    first: Outcome<K, S, F, E>,
    second: Outcome<K, S, F, E>,
)
    requires
        before.wf(),
        before.allows(first),
        first.sent(before) is Some,
        first.after(before).allows(second),
        second.key() == first.key(),
    ensures
        second is Cached,
        second.bound() is None,
        second.sent(first.after(before)) matches Some((service, _, _)) && service == first.sent(
            before,
        )->Some_0.2,
{
    sent_is_cached(before, first);
}

/// What a request leaves of the service of `key`, which was `service`.
pub open spec fn leaves<K, S, F, E>(outcome: Outcome<K, S, F, E>, key: K, service: S) -> S {
    match outcome {
        Outcome::Cached { key: k, after, .. } => if k == key {
            after
        } else {
            service
        },
        _ => service,
    }
}

/// What the last of the requests on the route of `key` left of its service,
/// which was `service` before the first.
pub open spec fn last_left<K, S, F, E>(
    outcomes: Seq<Outcome<K, S, F, E>>,
    key: K,
    service: S,
) -> S
    decreases outcomes.len(),
{
    if outcomes.len() == 0 {
        service
    } else {
        last_left(outcomes.drop_first(), key, leaves(outcomes[0], key, service))
    }
}

/// The route of `key` is bound before and after each request that comes to
/// `outcomes`.
pub open spec fn stays_bound<K, S, F, E>(
    before: Cache<K, S>,
    outcomes: Seq<Outcome<K, S, F, E>>,
    key: K,
) -> bool
    decreases outcomes.len(),
{
    &&& before.routes.contains_key(key)
    &&& outcomes.len() == 0 || stays_bound(
        outcomes[0].after(before),
        outcomes.drop_first(),
        key,
    )
}

/// A request that does not give up a route leaves its service as it was, unless
/// the request was sent to it.
proof fn lemma_leaves<K, S: HasActivity, F, E>(
    before: Cache<K, S>,
    outcome: Outcome<K, S, F, E>,
    key: K,
)
    requires
        before.wf(),
        before.allows(outcome),
        before.routes.contains_key(key),
        outcome.after(before).routes.contains_key(key),
    ensures
        outcome.after(before).routes[key] == leaves(outcome, key, before.routes[key]),
{
    if let Some(room) = room_of(outcome) {
        if before.is_full() {
            let readings = lemma_readings(before, room);
            if some_in_use(readings) && !all_in_use(readings) {
                let i = choose|i: int| #[trigger] oldest_idle(readings, i);
                before.evict_makes_room(i);
            }
        }
    }
}

/// As long as a route is not given up, it keeps its service: after any run of
/// requests the service is as the last request on the route left it, and the
/// next request on the route is sent to it. No service is bound for that
/// request.
pub proof fn bound_route_keeps_its_service<K, S: HasActivity, F, E>(
    before: Cache<K, S>,
    outcomes: Seq<Outcome<K, S, F, E>>,
    key: K,
)
    requires
        before.wf(),
        allows_run(before, outcomes),
        stays_bound(before, outcomes, key),
    ensures
        after_run(before, outcomes).routes.contains_key(key),
        after_run(before, outcomes).routes[key] == last_left(outcomes, key, before.routes[key]),
        forall|next: Outcome<K, S, F, E>| #[trigger]
            after_run(before, outcomes).allows(next) && next.key() == Some(key) ==> {
                &&& next is Cached
                &&& next.bound() is None
                &&& next.sent(after_run(before, outcomes)) matches Some((service, _, _)) && service
                    == last_left(outcomes, key, before.routes[key])
            },
    decreases outcomes.len(),
{
    if outcomes.len() > 0 {
        let after = outcomes[0].after(before);
        request_keeps_wf(before, outcomes[0]);
        assert(stays_bound(after, outcomes.drop_first(), key));
        lemma_leaves(before, outcomes[0], key);
        bound_route_keeps_its_service(after, outcomes.drop_first(), key);
    }
}

/// A request that is not recognized, or for which there is no room, changes
/// nothing, and no service is bound for it.
pub proof fn refusal_changes_nothing<K, S: HasActivity, F, E>(
    before: Cache<K, S>,
    outcome: Outcome<K, S, F, E>,
)
    requires
        outcome.answer(before) is NotRecognized || outcome.answer(before) is NoCapacity,
    ensures
        outcome.after(before) == before,
        outcome.bound() is None,
{
}

/// A request that belongs to no route is answered so, and changes nothing.
pub proof fn unrecognized_request<K, S: HasActivity, F, E>(
    before: Cache<K, S>,
    outcome: Outcome<K, S, F, E>,
)
    requires
        before.allows(outcome),
    ensures
        outcome.key() is None <==> outcome.answer(before) is NotRecognized,
        outcome.key() is None ==> {
            &&& outcome.sent(before) is None
            &&& outcome.bound() is None
            &&& outcome.after(before) == before
        },
{
}

/// A request on a bound route is sent to the service of that route, and what
/// the service answers is the answer. No service is bound. The route keeps its
/// service, as the request left it, and is now the one used last; all other
/// routes keep their services and their order.
pub proof fn request_on_bound_route<K, S: HasActivity, F, E>(
    before: Cache<K, S>,
    outcome: Outcome<K, S, F, E>,
    key: K,
)
    requires
        before.wf(),
        before.allows(outcome),
        outcome.key() == Some(key),
        before.routes.contains_key(key),
    ensures
        outcome.bound() is None,
        outcome.sent(before) matches Some((service, response, left)) && {
            &&& service == before.routes[key]
            &&& outcome.answer(before) == State::<F, E>::Inner(response)
            &&& outcome.after(before).routes == before.routes.insert(key, left)
        },
        exists|i: int|
            {
                &&& 0 <= i < before.lru.len()
                &&& #[trigger] before.lru[i] == key
                &&& outcome.after(before).lru == before.lru.remove(i).push(key)
            },
        outcome.after(before).capacity == before.capacity,
{
    assert(before.lru.contains(key));
    let i = lemma_last_place(before.lru, key);
    lemma_touch_at(before.lru, key, i);
    assert(before.lru[i] == key);
}

/// A request on a route that is not bound, where fewer are bound than may be:
/// nothing is given up, and a service is bound. If none could be, the request
/// fails with that error and nothing changes. Else it is sent to the service,
/// what the service answers is the answer, and the route is added as the one
/// used last.
pub proof fn request_with_a_free_place<K, S: HasActivity, F, E>(
    before: Cache<K, S>,
    outcome: Outcome<K, S, F, E>,
    key: K,
)
    requires
        before.wf(),
        before.allows(outcome),
        outcome.key() == Some(key),
        !before.routes.contains_key(key),
        before.routes.len() < before.capacity,
    ensures
        outcome.bound() matches Some(bound) && match bound {
            Err(error) => {
                &&& outcome.sent(before) is None
                &&& outcome.answer(before) == State::<F, E>::RouteError(error)
                &&& outcome.after(before).routes == before.routes
                &&& outcome.after(before).lru == before.lru
            },
            Ok(fresh) => {
                &&& outcome.sent(before) matches Some((service, response, left))
                &&& service == fresh
                &&& outcome.answer(before) == State::<F, E>::Inner(response)
                &&& outcome.after(before).routes == before.routes.insert(key, left)
                &&& outcome.after(before).lru == before.lru.push(key)
            },
        },
        outcome.after(before).capacity == before.capacity,
{
    assert(!before.lru.contains(key));
}

/// A free place is taken before any route is given up: where fewer routes are
/// bound than may be, every route that was bound still is, and each but the
/// request's own has the service it had.
pub proof fn free_place_gives_up_nothing<K, S: HasActivity, F, E>(
    before: Cache<K, S>,
    outcome: Outcome<K, S, F, E>,
)
    requires
        before.wf(),
        before.allows(outcome),
        before.routes.len() < before.capacity,
    ensures
        forall|k: K| #[trigger]
            before.routes.contains_key(k) ==> outcome.after(before).routes.contains_key(k),
        forall|k: K| #[trigger]
            before.routes.contains_key(k) && outcome.key() != Some(k) ==> outcome.after(
                before,
            ).routes[k] == before.routes[k],
        outcome.after(before).routes.len() >= before.routes.len(),
{
}

/// No request leaves a route bound that was not bound, except its own.
pub proof fn only_its_own_route_is_added<K, S: HasActivity, F, E>(
    before: Cache<K, S>,
    outcome: Outcome<K, S, F, E>,
    k: K,
)
    requires
        before.wf(),
        before.allows(outcome),
        !before.routes.contains_key(k),
        outcome.after(before).routes.contains_key(k),
    ensures
        outcome.key() == Some(k),
        outcome.bound() matches Some(Ok(_)),
{
    if let Some(room) = room_of(outcome) {
        if before.is_full() {
            before.made_room_or_unchanged(room);
        }
    }
}

/// What a search for a route to give up comes to: with `readings` of all
/// services, the least recently used one first, the route at the first idle
/// place is given up, where some other is in use. Else nothing changes.
pub proof fn search_gives_up_first_idle<K, S: HasActivity>(
    before: Cache<K, S>,
    after: Cache<K, S>,
) -> (readings: Seq<Activity>)
    requires
        before.made_room(after),
    ensures
        readings.len() == before.lru.len(),
        forall|i: int|
            0 <= i < readings.len() ==> call_ensures(
                S::activity,
                (&before.routes[before.lru[i]],),
                #[trigger] readings[i],
            ),
        ({
            ||| {
                &&& {
                    ||| forall|i: int|
                        0 <= i < readings.len() ==> (#[trigger] readings[i]).pending()
                            + readings[i].active() > 0
                    ||| forall|i: int|
                        0 <= i < readings.len() ==> (#[trigger] readings[i]).pending()
                            + readings[i].active() == 0
                }
                &&& after.routes == before.routes
                &&& after.lru == before.lru
                &&& after.capacity == before.capacity
            }
            ||| exists|i: int, k: int|
                {
                    &&& 0 <= i < readings.len()
                    &&& 0 <= k < readings.len()
                    &&& (#[trigger] readings[i]).pending() + readings[i].active() == 0
                    &&& (#[trigger] readings[k]).pending() + readings[k].active() > 0
                    &&& forall|j: int|
                        0 <= j < i ==> (#[trigger] readings[j]).pending() + readings[j].active() > 0
                    &&& after.routes == before.routes.remove(before.lru[i])
                    &&& after.lru == before.lru.remove(i)
                    &&& after.capacity == before.capacity
                }
        }),
{
    let readings = lemma_readings(before, after);
    if some_in_use(readings) && !all_in_use(readings) {
        let i = choose|i: int| #[trigger] oldest_idle(readings, i);
        let k = choose|k: int| 0 <= k < readings.len() && (#[trigger] readings[k]).in_use();
        assert(readings[i].pending() + readings[i].active() == 0);
        assert(readings[k].pending() + readings[k].active() > 0);
    }
    readings
}

/// A request on a route that is not bound, where as many are bound as may be:
/// every service is asked for its activity. If all are in use, or none is, the
/// request fails with `NoCapacity` and the number of routes there may be, and
/// nothing changes. Else the least recently used idle route goes, and a service
/// is bound as where there was a free place.
pub proof fn request_on_full_cache<K, S: HasActivity, F, E>(
    before: Cache<K, S>,
    outcome: Outcome<K, S, F, E>,
    key: K,
) -> (readings: Seq<Activity>)
    requires
        before.wf(),
        before.allows(outcome),
        outcome.key() == Some(key),
        !before.routes.contains_key(key),
        before.routes.len() == before.capacity,
    ensures
        readings.len() == before.lru.len(),
        forall|i: int|
            0 <= i < readings.len() ==> call_ensures(
                S::activity,
                (&before.routes[before.lru[i]],),
                #[trigger] readings[i],
            ),
        outcome.after(before).capacity == before.capacity,
        ({
            ||| {
                &&& {
                    ||| forall|i: int|
                        0 <= i < readings.len() ==> (#[trigger] readings[i]).pending()
                            + readings[i].active() > 0
                    ||| forall|i: int|
                        0 <= i < readings.len() ==> (#[trigger] readings[i]).pending()
                            + readings[i].active() == 0
                }
                &&& outcome.answer(before) == State::<F, E>::NoCapacity(before.capacity)
                &&& outcome.sent(before) is None
                &&& outcome.bound() is None
                &&& outcome.after(before) == before
            }
            ||| exists|i: int, k: int|
                {
                    &&& 0 <= i < readings.len()
                    &&& 0 <= k < readings.len()
                    &&& (#[trigger] readings[i]).pending() + readings[i].active() == 0
                    &&& (#[trigger] readings[k]).pending() + readings[k].active() > 0
                    &&& forall|j: int|
                        0 <= j < i ==> (#[trigger] readings[j]).pending() + readings[j].active() > 0
                    &&& outcome.bound() matches Some(bound) && match bound {
                        Err(error) => {
                            &&& outcome.sent(before) is None
                            &&& outcome.answer(before) == State::<F, E>::RouteError(error)
                            &&& outcome.after(before).routes == before.routes.remove(before.lru[i])
                            &&& outcome.after(before).lru == before.lru.remove(i)
                        },
                        Ok(fresh) => {
                            &&& outcome.sent(before) matches Some((service, response, left))
                            &&& service == fresh
                            &&& outcome.answer(before) == State::<F, E>::Inner(response)
                            &&& outcome.after(before).routes == before.routes.remove(
                                before.lru[i],
                            ).insert(key, left)
                            &&& outcome.after(before).lru == before.lru.remove(i).push(key)
                        },
                    }
                }
        }),
{
    let room = match room_of(outcome) {
        Some(room) => room,
        None => before,
    };
    let readings = search_gives_up_first_idle(before, room);
    lemma_room(before, room, key);
    assert(!room.lru.contains(key));
    if room != before {
        let (i, k) = choose|i: int, k: int|
            {
                &&& 0 <= i < readings.len()
                &&& 0 <= k < readings.len()
                &&& (#[trigger] readings[i]).pending() + readings[i].active() == 0
                &&& (#[trigger] readings[k]).pending() + readings[k].active() > 0
                &&& forall|j: int|
                    0 <= j < i ==> (#[trigger] readings[j]).pending() + readings[j].active() > 0
                &&& room.routes == before.routes.remove(before.lru[i])
                &&& room.lru == before.lru.remove(i)
                &&& room.capacity == before.capacity
            };
        assert(readings[i].pending() + readings[i].active() == 0);
        assert(readings[k].pending() + readings[k].active() > 0);
    }
    readings
}

/// Of a full cache, the least recently used of the idle routes makes room, and
/// no other: the service at place `i` has nothing under way, all that were used
/// less recently have, and so has some service. Whatever else is idle stays.
pub proof fn least_recently_used_idle_goes<K, S: HasActivity, F, E>(
    before: Cache<K, S>,
    outcome: Outcome<K, S, F, E>,
    key: K,
    i: int,
    k: int,
)
    requires
        before.wf(),
        before.allows(outcome),
        outcome.key() == Some(key),
        !before.routes.contains_key(key),
        before.routes.len() == before.capacity,
        0 <= i < before.lru.len(),
        0 <= k < before.lru.len(),
        forall|reading: Activity| #[trigger]
            call_ensures(S::activity, (&before.routes[before.lru[i]],), reading)
                ==> reading.pending() == 0 && reading.active() == 0,
        forall|reading: Activity| #[trigger]
            call_ensures(S::activity, (&before.routes[before.lru[k]],), reading)
                ==> reading.pending() > 0 || reading.active() > 0,
        forall|j: int, reading: Activity|
            0 <= j < i && #[trigger] call_ensures(
                S::activity,
                (&before.routes[before.lru[j]],),
                reading,
            ) ==> reading.pending() > 0 || reading.active() > 0,
    ensures
        outcome.bound() is Some,
        !outcome.after(before).routes.contains_key(before.lru[i]),
        forall|j: int|
            0 <= j < before.lru.len() && j != i ==> {
                &&& outcome.after(before).routes.contains_key(#[trigger] before.lru[j])
                &&& outcome.after(before).routes[before.lru[j]] == before.routes[before.lru[j]]
            },
{
    let readings = request_on_full_cache(before, outcome, key);
    before.wf_by_places();
    assert(call_ensures(S::activity, (&before.routes[before.lru[i]],), readings[i]));
    assert(call_ensures(S::activity, (&before.routes[before.lru[k]],), readings[k]));
    assert forall|j: int| 0 <= j < i implies (#[trigger] readings[j]).pending()
        + readings[j].active() > 0 by {
        assert(call_ensures(S::activity, (&before.routes[before.lru[j]],), readings[j]));
    }
    assert(outcome.bound() is Some);
}

/// A full cache refuses a new route where every service has something under
/// way, and where none has.
pub proof fn full_cache_refuses<K, S: HasActivity, F, E>(
    before: Cache<K, S>,
    outcome: Outcome<K, S, F, E>,
    key: K,
)
    requires
        before.wf(),
        before.allows(outcome),
        outcome.key() == Some(key),
        !before.routes.contains_key(key),
        before.routes.len() == before.capacity,
        ({
            ||| forall|i: int, reading: Activity|
                0 <= i < before.lru.len() && #[trigger] call_ensures(
                    S::activity,
                    (&before.routes[before.lru[i]],),
                    reading,
                ) ==> reading.pending() > 0 || reading.active() > 0
            ||| forall|i: int, reading: Activity|
                0 <= i < before.lru.len() && #[trigger] call_ensures(
                    S::activity,
                    (&before.routes[before.lru[i]],),
                    reading,
                ) ==> reading.pending() == 0 && reading.active() == 0
        }),
    ensures
        outcome.answer(before) == State::<F, E>::NoCapacity(before.capacity),
        outcome.after(before) == before,
{
    let readings = request_on_full_cache(before, outcome, key);
    assert(forall|i: int|
        0 <= i < readings.len() ==> call_ensures(
            S::activity,
            (&before.routes[before.lru[i]],),
            #[trigger] readings[i],
        ));
}

/// The entries of the order of use, with their times, follow the cache. A
/// request that finds its route bound puts its entry last, with the time that
/// the clock read, and keeps all others. A refused one changes none. One for
/// which a service was to be bound keeps all, or all but the given up route's,
/// and adds its own where a service was bound.
pub proof fn entries_follow_the_cache<K, S: HasActivity, F, E>(
    before: Cache<K, S>,
    outcome: Outcome<K, S, F, E>,
    entries: Seq<Used<K>>,
    entries_after: Seq<Used<K>>,
)
    requires
        before.wf(),
        before.allows(outcome),
        entries.len() == before.lru.len(),
        forall|i: int|
            0 <= i < entries.len() ==> (#[trigger] entries[i]).spec_key() == before.lru[i],
        outcome.reordered(entries, entries_after),
    ensures
        outcome.sent(before) is None && outcome.bound() is None ==> entries_after == entries,
        outcome.sent(before) is None && outcome.bound() is Some ==> entries_after == entries
            || exists|i: int| 0 <= i < entries.len() && entries_after == #[trigger] entries.remove(i),
        outcome.sent(before) is Some ==> {
            &&& entries_after.len() > 0
            &&& Some(entries_after.last().spec_key()) == outcome.key()
            &&& call_ensures(Instant::now, (), entries_after.last().spec_time())
            &&& entries_after.drop_last() == entries || exists|i: int|
                0 <= i < entries.len() && entries_after.drop_last() == #[trigger] entries.remove(i)
        },
        entries_after.len() == outcome.after(before).lru.len(),
        forall|i: int|
            0 <= i < entries_after.len() ==> (#[trigger] entries_after[i]).spec_key()
                == outcome.after(before).lru[i],
{
    assert(keys(entries) =~= before.lru);
    match outcome {
        Outcome::Cached { key, .. } => {
            assert(before.lru.contains(key));
            let i = lemma_last_place(before.lru, key);
            assert(entries_after.drop_last() == entries.remove(i));
            assert(keys(entries_after) == outcome.after(before).lru);
        },
        Outcome::Unbound { room, .. } => {
            kept_by_entries(entries, room.lru, entries_after);
        },
        Outcome::Bound { key, room, .. } => {
            let left = choose|left: Seq<Used<K>>| #[trigger]
                kept(entries, room.lru, left) && marked(left, key, entries_after);
            lemma_room(before, room, key);
            assert(!room.lru.contains(key));
            assert(entries_after.drop_last() == left);
            assert(keys(entries_after) == outcome.after(before).lru);
        },
        _ => {},
    }
    assert(keys(entries_after) =~= outcome.after(before).lru);
    assert forall|i: int| 0 <= i < entries_after.len() implies (
    #[trigger] entries_after[i]).spec_key() == outcome.after(before).lru[i] by {
        assert(keys(entries_after)[i] == outcome.after(before).lru[i]);
    }
}

/// A service may have to be bound for a key only where its route is not bound
/// and there may be room: a free place, or a service that may answer that it is
/// idle.
pub proof fn binding_needs_room<K, S: HasActivity>(before: Cache<K, S>, key: K)
    requires
        before.wf(),
        before.may_bind(key),
    ensures
        !before.routes.contains_key(key),
        before.routes.len() < before.capacity || exists|i: int, reading: Activity|
            {
                &&& 0 <= i < before.lru.len()
                &&& #[trigger] call_ensures(
                    S::activity,
                    (&before.routes[before.lru[i]],),
                    reading,
                )
                &&& reading.pending() == 0
                &&& reading.active() == 0
            },
{
    let room = choose|room: Cache<K, S>| #[trigger] before.room(room) && !room.is_full();
    if before.is_full() {
        let readings = lemma_readings(before, room);
        let i = choose|i: int| #[trigger] oldest_idle(readings, i);
        assert(call_ensures(S::activity, (&before.routes[before.lru[i]],), readings[i]));
    }
}

/// The readings behind a search for a route to give up.
proof fn lemma_readings<K, S: HasActivity>(before: Cache<K, S>, after: Cache<K, S>) -> (readings:
    Seq<Activity>)
    requires
        before.made_room(after),
    ensures
        before.observed(readings),
        readings.len() == before.lru.len(),
        before.gave_up(readings, after),
        all_in_use(readings) || exists|i: int| #[trigger] oldest_idle(readings, i),
{
    let readings = choose|readings: Seq<Activity>|
        {
            &&& #[trigger] before.observed(readings)
            &&& readings.len() == before.lru.len()
            &&& before.gave_up(readings, after)
        };
    lemma_oldest_idle(readings, readings.len() as int);
    readings
}

/// A request is refused for want of room only where its route is not bound, as
/// many routes are bound as may be, and when each service was asked, all were
/// in use, or none was.
pub proof fn refused_only_when_full<K, S: HasActivity, F, E>(
    before: Cache<K, S>,
    outcome: Outcome<K, S, F, E>,
)
    requires
        before.wf(),
        before.allows(outcome),
        outcome.answer(before) is NoCapacity,
    ensures
        outcome.answer(before)->NoCapacity_0 == before.capacity == before.routes.len(),
        outcome.key() matches Some(key) && !before.routes.contains_key(key),
        exists|readings: Seq<Activity>|
            {
                &&& #[trigger] before.observed(readings)
                &&& readings.len() == before.lru.len()
                &&& all_in_use(readings) || !some_in_use(readings)
            },
{
    let readings = lemma_readings(before, before);
    if some_in_use(readings) && !all_in_use(readings) {
        let i = choose|i: int| #[trigger] oldest_idle(readings, i);
        before.evict_makes_room(i);
    }
}

/// A request gives up a route only where as many are bound as may be and its
/// own is not: the least recently used one of those found idle, and no other.
/// Some other route was then found in use.
pub proof fn oldest_idle_is_given_up<K, S: HasActivity>(before: Cache<K, S>, room: Cache<K, S>)
    requires
        before.wf(),
        before.room(room),
        room != before,
    ensures
        before.is_full(),
        exists|readings: Seq<Activity>, i: int|
            {
                &&& #[trigger] before.observed(readings)
                &&& readings.len() == before.lru.len()
                &&& some_in_use(readings)
                &&& #[trigger] oldest_idle(readings, i)
                &&& room == before.evict(i)
                &&& 0 <= i < readings.len()
                &&& readings[i].pending() + readings[i].active() == 0
                &&& forall|j: int|
                    0 <= j < i ==> (#[trigger] readings[j]).pending() + readings[j].active() > 0
                &&& exists|k: int|
                    0 <= k < readings.len() && (#[trigger] readings[k]).pending()
                        + readings[k].active() > 0
            },
{
    let readings = lemma_readings(before, room);
    let i = choose|i: int| #[trigger] oldest_idle(readings, i);
    assert(before.observed(readings) && oldest_idle(readings, i));
    let k = choose|k: int| 0 <= k < readings.len() && (#[trigger] readings[k]).in_use();
    assert(readings[k].pending() + readings[k].active() > 0);
}

/// `readings` tells which services are in use, and each keeps answering so.
pub open spec fn steady<K, S: HasActivity>(cache: Cache<K, S>, readings: Seq<Activity>) -> bool {
    &&& readings.len() == cache.lru.len()
    &&& forall|i: int, reading: Activity|
        #![trigger call_ensures(S::activity, (&cache.routes[cache.lru[i]],), reading)]
        0 <= i < readings.len() && call_ensures(
            S::activity,
            (&cache.routes[cache.lru[i]],),
            reading,
        ) ==> reading.in_use() == readings[i].in_use()
}

/// A request for a route that is not bound, where as many are bound as may be:
/// if some of them are in use and some are idle, the least recently used idle
/// one makes room for it, and a service is bound; if all are in use, the
/// request is refused and nothing is given up. It is also refused where none is
/// in use.
pub proof fn full_cache_gives_up_oldest_idle<K, S: HasActivity, F, E>(
    before: Cache<K, S>,
    outcome: Outcome<K, S, F, E>,
    readings: Seq<Activity>,
)
    requires
        before.wf(),
        before.allows(outcome),
        before.is_full(),
        outcome.key() matches Some(key) && !before.routes.contains_key(key),
        steady(before, readings),
    ensures
        forall|i: int| #[trigger]
            oldest_idle(readings, i) && some_in_use(readings) ==> {
                &&& outcome.bound() is Some
                &&& room_of(outcome) == Some(before.evict(i))
            },
        all_in_use(readings) || !some_in_use(readings) ==> {
            &&& outcome.answer(before) is NoCapacity
            &&& outcome.after(before) == before
        },
{
    let room = match room_of(outcome) {
        Some(room) => room,
        None => before,
    };
    let answers = lemma_readings(before, room);
    assert forall|i: int| 0 <= i < readings.len() implies (#[trigger] answers[i]).in_use()
        == readings[i].in_use() by {
        assert(call_ensures(S::activity, (&before.routes[before.lru[i]],), answers[i]));
    }
    if some_in_use(readings) {
        let i = choose|i: int| 0 <= i < readings.len() && (#[trigger] readings[i]).in_use();
        assert(answers[i].in_use());
    }
    if some_in_use(answers) {
        let i = choose|i: int| 0 <= i < answers.len() && (#[trigger] answers[i]).in_use();
        assert(readings[i].in_use());
    }
    if all_in_use(readings) {
        assert(all_in_use(answers)) by {
            assert forall|i: int| 0 <= i < answers.len() implies (#[trigger] answers[i]).in_use() by {
                assert(readings[i].in_use());
            }
        }
    }
    assert forall|i: int| #[trigger] oldest_idle(readings, i) && some_in_use(readings) implies {
        &&& outcome.bound() is Some
        &&& room_of(outcome) == Some(before.evict(i))
    } by {
        assert forall|j: int| 0 <= j < i implies (#[trigger] answers[j]).in_use() by {
            assert(readings[j].in_use());
        }
        assert(oldest_idle(answers, i));
        before.evict_makes_room(i);
    }
}

/// A route that is found in use is never given up: a route other than the
/// request's own is bound as before, with its service as it was, unless its
/// service was asked for its activity and was idle.
pub proof fn routes_in_use_are_kept<K, S: HasActivity, F, E>(
    before: Cache<K, S>,
    outcome: Outcome<K, S, F, E>,
    k: K,
)
    requires
        before.wf(),
        before.allows(outcome),
        before.routes.contains_key(k),
        outcome.key() != Some(k),
        forall|reading: Activity| #[trigger]
            call_ensures(S::activity, (&before.routes[k],), reading) ==> reading.in_use(),
    ensures
        outcome.after(before).routes.contains_key(k),
        outcome.after(before).routes[k] == before.routes[k],
{
    if let Some(room) = room_of(outcome) {
        if before.is_full() {
            let readings = lemma_readings(before, room);
            if some_in_use(readings) && !all_in_use(readings) {
                let i = choose|i: int| #[trigger] oldest_idle(readings, i);
                before.evict_makes_room(i);
                assert(call_ensures(S::activity, (&before.routes[before.lru[i]],), readings[i]));
            }
        }
    }
}

/// A request drops at most one route.
pub proof fn at_most_one_is_given_up<K, S: HasActivity, F, E>(
    before: Cache<K, S>,
    outcome: Outcome<K, S, F, E>,
    k1: K,
    k2: K,
)
    requires
        before.wf(),
        before.allows(outcome),
        before.routes.contains_key(k1),
        before.routes.contains_key(k2),
        !outcome.after(before).routes.contains_key(k1),
        !outcome.after(before).routes.contains_key(k2),
    ensures
        k1 == k2,
{
    if let Some(room) = room_of(outcome) {
        if before.is_full() {
            let readings = lemma_readings(before, room);
            if some_in_use(readings) && !all_in_use(readings) {
                let i = choose|i: int| #[trigger] oldest_idle(readings, i);
                before.evict_makes_room(i);
            }
        }
    }
}

/// The cache in which a service was to be bound.
pub open spec fn room_of<K, S, F, E>(outcome: Outcome<K, S, F, E>) -> Option<Cache<K, S>> {
    match outcome {
        Outcome::Unbound { room, .. } => Some(room),
        Outcome::Bound { room, .. } => Some(room),
        _ => None,
    }
}

/// Where no route may be bound, none is: every request that is recognized is
/// refused.
pub proof fn no_capacity_serves_nothing<K, S: HasActivity, F, E>(
    before: Cache<K, S>,
    outcome: Outcome<K, S, F, E>,
)
    requires
        before.wf(),
        before.capacity == 0,
        before.allows(outcome),
        outcome.key() is Some,
    ensures
        outcome.answer(before) is NoCapacity,
{
    before.one_place_each();
    if let Some(key) = outcome.key() {
        assert(before.routes.dom() =~= Set::empty());
        if let Some(room) = room_of(outcome) {
            lemma_room(before, room, key);
        }
    }
}

/// Using a key keeps the order of all others.
pub proof fn others_keep_their_order<K>(keys: Seq<K>, key: K)
    requires
        keys.no_duplicates(),
    ensures
        touch(keys, key).drop_last() == keys.filter(|k: K| k != key),
    decreases keys.len(),
{
    reveal_with_fuel(Seq::filter, 2);
    if keys.len() > 0 {
        let shorter = keys.drop_last();
        others_keep_their_order(shorter, key);
        if keys.last() == key {
            let n = keys.len() - 1;
            assert(is_last_place(keys, key, n));
            lemma_touch_at(keys, key, n);
            assert(!shorter.contains(key));
            assert(keys.remove(n) =~= shorter);
            assert(touch(keys, key).drop_last() =~= shorter);
            assert(touch(shorter, key).drop_last() =~= shorter);
        } else if keys.contains(key) {
            let i = lemma_last_place(keys, key);
            lemma_touch_at(keys, key, i);
            assert(shorter[i] == key);
            assert(is_last_place(shorter, key, i));
            lemma_touch_at(shorter, key, i);
            assert(touch(keys, key).drop_last() =~= touch(shorter, key).drop_last().push(
                keys.last(),
            ));
        } else {
            assert(!shorter.contains(key)) by {
                if shorter.contains(key) {
                    assert(keys[shorter.index_of(key)] == key);
                }
            }
            assert(touch(keys, key).drop_last() =~= keys);
            assert(touch(shorter, key).drop_last() =~= shorter);
            assert(keys =~= shorter.push(keys.last()));
        }
    } else {
        assert(touch(keys, key).drop_last() =~= keys);
    }
}

/// Using a key twice is using it once.
pub proof fn touch_is_idempotent<K>(keys: Seq<K>, key: K)
    ensures
        touch(touch(keys, key), key) == touch(keys, key),
{
    touch_puts_last(keys, key);
    let after = touch(keys, key);
    let n = after.len() - 1;
    assert(is_last_place(after, key, n));
    lemma_touch_at(after, key, n);
    assert(after.remove(n).push(key) =~= after);
}

/// The order of use after the keys `uses` have been used, one after the other.
pub open spec fn touch_all<K>(uses: Seq<K>) -> Seq<K>
    decreases uses.len(),
{
    if uses.len() == 0 {
        Seq::empty()
    } else {
        touch(touch_all(uses.drop_last()), uses.last())
    }
}

/// After any sequence of uses, each used key stands once in the order of use,
/// nothing else does, and of two keys the one that was last used earlier stands
/// first.
pub proof fn keys_stand_by_last_use<K>(uses: Seq<K>)
    ensures
        touch_all(uses).no_duplicates(),
        forall|k: K| #[trigger] touch_all(uses).contains(k) <==> uses.contains(k),
        forall|i: int, j: int, p: int, q: int|
            0 <= i < j < touch_all(uses).len() && #[trigger] is_last_place(
                uses,
                touch_all(uses)[i],
                p,
            ) && #[trigger] is_last_place(uses, touch_all(uses)[j], q) ==> p < q,
    decreases uses.len(),
{
    let order = touch_all(uses);
    if uses.len() > 0 {
        let n = uses.len() - 1;
        let earlier = uses.drop_last();
        let key = uses.last();
        let before = touch_all(earlier);
        keys_stand_by_last_use(earlier);
        touch_puts_last(before, key);
        assert forall|k: K| #[trigger] order.contains(k) <==> uses.contains(k) by {
            if earlier.contains(k) {
                assert(uses[earlier.index_of(k)] == k);
            }
            if uses.contains(k) && k != key {
                assert(earlier[uses.index_of(k)] == k);
            }
            if k == key {
                assert(uses[n] == k);
            }
        }
        assert forall|i: int, j: int, p: int, q: int|
            0 <= i < j < order.len() && #[trigger] is_last_place(uses, order[i], p)
                && #[trigger] is_last_place(uses, order[j], q) implies p < q by {
            assert(order[i] != key);
            assert(is_last_place(earlier, order[i], p)) by {
                assert(p < n);
                assert forall|l: int| p < l < earlier.len() implies earlier[l] != order[i] by {
                    assert(uses[l] == earlier[l]);
                }
            }
            if j < order.len() - 1 {
                assert(order[j] != key);
                assert(is_last_place(earlier, order[j], q)) by {
                    assert(q < n);
                    assert forall|l: int| q < l < earlier.len() implies earlier[l] != order[j] by {
                        assert(uses[l] == earlier[l]);
                    }
                }
                let (a, b) = if before.contains(key) {
                    let m = lemma_last_place(before, key);
                    lemma_touch_at(before, key, m);
                    (if i < m { i } else { i + 1 }, if j < m { j } else { j + 1 })
                } else {
                    (i, j)
                };
                assert(before[a] == order[i]);
                assert(before[b] == order[j]);
            } else {
                assert(uses[n] == order[j]);
                assert(q == n);
            }
        }
    }
}

/// The states of a response that is polled again and again: each but the last
/// can be polled, and polling it makes the next of it.
pub open spec fn polls<F, E>(states: Seq<State<F, E>>) -> bool {
    &&& states.len() > 0
    &&& forall|i: int|
        0 <= i < states.len() - 1 ==> (#[trigger] states[i]) !is Invalid && after_poll(
            states[i],
            states[i + 1],
        )
}

/// A response that can be polled can be polled again and again, with one
/// exception: the error of binding a service is handed out once. A response
/// becomes invalid exactly by a poll of such an error, so one that a service
/// will give, or that was refused for another reason, never does.
pub proof fn only_a_spent_route_error_is_invalid<F, E>(states: Seq<State<F, E>>)
    requires
        polls(states),
        states[0] !is Invalid,
    ensures
        states.last() is Invalid <==> states[0] is RouteError && states.len() > 1,
        states[0] is RouteError ==> states.len() <= 2,
        states[0] is Inner ==> states.last() is Inner,
        states[0] is NoCapacity || states[0] is NotRecognized ==> states.last() == states[0],
    decreases states.len(),
{
    if states.len() > 1 {
        let shorter = states.drop_last();
        assert(polls(shorter)) by {
            assert forall|i: int| 0 <= i < shorter.len() - 1 implies (#[trigger] shorter[i])
                !is Invalid && after_poll(shorter[i], shorter[i + 1]) by {
                assert(states[i] == shorter[i]);
            }
        }
        only_a_spent_route_error_is_invalid(shorter);
        assert(states[states.len() - 2] == shorter.last());
    }
}

/// The entries stand in the order of their times, where `le` orders times.
pub open spec fn sorted_by_time<K>(
    entries: Seq<Used<K>>,
    le: spec_fn(Instant, Instant) -> bool,
) -> bool {
    forall|i: int, j: int|
        #![trigger entries[i], entries[j]]
        0 <= i < j < entries.len() ==> le(entries[i].spec_time(), entries[j].spec_time())
}

/// The order of use stays in the order of the times: using a route keeps it
/// sorted, with the clock's reading last, as long as the clock does not run
/// backwards.
pub proof fn marking_keeps_times_sorted<K>(
    before: Seq<Used<K>>,
    key: K,
    after: Seq<Used<K>>,
    le: spec_fn(Instant, Instant) -> bool,
)
    requires
        marked(before, key, after),
        sorted_by_time(before, le),
        forall|i: int|
            0 <= i < before.len() ==> le(
                (#[trigger] before[i]).spec_time(),
                after.last().spec_time(),
            ),
    ensures
        sorted_by_time(after, le),
        call_ensures(Instant::now, (), after.last().spec_time()),
{
    let rest = after.drop_last();
    if keys(before).contains(key) {
        let p = lemma_last_place(keys(before), key);
        assert(rest == before.remove(p));
        assert forall|i: int, j: int|
            #![trigger after[i], after[j]]
            0 <= i < j < after.len() implies le(after[i].spec_time(), after[j].spec_time()) by {
            let a = if i < p { i } else { i + 1 };
            let b = if j < p { j } else { j + 1 };
            assert(after[i] == rest[i] && rest[i] == before[a]);
            if j < rest.len() {
                assert(after[j] == rest[j] && rest[j] == before[b]);
            }
        }
    } else {
        assert forall|i: int, j: int|
            #![trigger after[i], after[j]]
            0 <= i < j < after.len() implies le(after[i].spec_time(), after[j].spec_time()) by {
            assert(after[i] == rest[i] && rest[i] == before[i]);
            if j < rest.len() {
                assert(after[j] == rest[j] && rest[j] == before[j]);
            }
        }
    }
}

/// Giving up a route keeps the order of use in the order of the times.
pub proof fn giving_up_keeps_times_sorted<K>(
    before: Seq<Used<K>>,
    lru: Seq<K>,
    after: Seq<Used<K>>,
    le: spec_fn(Instant, Instant) -> bool,
)
    requires
        kept(before, lru, after),
        sorted_by_time(before, le),
    ensures
        sorted_by_time(after, le),
{
}

/// The one route of `single` is bound in `cache`, or can be.
pub open spec fn single_can_serve<S, R>(cache: Cache<(), S>, single: Single<S, R>) -> bool {
    cache.routes.contains_key(()) || single.unbound() is Some
}

/// A router of a `Single` never binds its service twice: whenever a service is
/// to be bound, it is still there, and every request leaves it bound or still
/// there. `single` becomes `single_after` as `bind_service` makes it.
pub proof fn single_is_bound_once<S: HasActivity, R, F>(
    before: Cache<(), S>,
    single: Single<S, R>,
    outcome: Outcome<(), S, F, ()>,
    single_after: Single<S, R>,
)
    requires
        before.wf(),
        before.allows(outcome),
        outcome.key() == Some(()),
        single_can_serve(before, single),
        match outcome.bound() {
            Some(bound) => {
                &&& single.unbound() matches Some(svc) && bound == Ok::<S, ()>(svc)
                &&& single_after.unbound() is None
            },
            None => single_after == single,
        },
    ensures
        before.may_bind(()) ==> single.bindable(&()),
        single_can_serve(outcome.after(before), single_after),
{
}

} // verus!
