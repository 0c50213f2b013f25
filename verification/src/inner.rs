//! The router's state: the bound routes and the order in which they were used.

use crate::activity::{Activity, HasActivity};
use crate::cache::{all_in_use, is_last_place, oldest_idle, some_in_use, touch, Cache};
use crate::recognize::{key_model, Recognize};
use crate::route_map::RouteMap;
use std::collections::VecDeque;
use std::time::Instant;
use vstd::laws_eq::obeys_concrete_eq;
use vstd::prelude::*;

verus! {

/// `std::time::Instant`, as an opaque type.
#[verifier::external_type_specification]
#[verifier::external_body]
pub struct ExInstant(std::time::Instant);

/// `Instant::now`: the current time, of which nothing is claimed.
pub assume_specification[ std::time::Instant::now ]() -> std::time::Instant;

/// `VecDeque::swap`: the elements at `i` and `j` change places. It panics
/// where there is no such element, which `requires` leaves out.
#[verifier::external_body]
fn swap<T>(deque: &mut VecDeque<T>, i: usize, j: usize)
    requires
        i < old(deque)@.len(),
        j < old(deque)@.len(),
    ensures
        final(deque)@ == old(deque)@.update(i as int, old(deque)@[j as int]).update(
            j as int,
            old(deque)@[i as int],
        ),
{
    deque.swap(i, j)
}

/// `VecDeque::index_mut`: the place of the element at `i`. What is written
/// through it then stands at `i`; nothing else changes. It panics where there
/// is no such element, which `requires` leaves out.
#[verifier::external_body]
fn at_mut<T>(deque: &mut VecDeque<T>, i: usize) -> (place: &mut T)
    requires
        i < old(deque)@.len(),
    ensures
        *place == old(deque)@[i as int],
        final(deque)@ == old(deque)@.update(i as int, *final(place)),
{
    &mut deque[i]
}

/// A route's key and the time at which the route was last used.
pub struct Used<K> {
    key: K,
    time: Instant,
}

/// Routes in the order in which they were last used.
pub type LastUsed<K> = VecDeque<Used<K>>;

impl<K> Used<K> {
    /// The key of the route.
    pub closed spec fn spec_key(self) -> K {
        self.key
    }

    /// When the route was last used.
    pub closed spec fn spec_time(self) -> Instant {
        self.time
    }

    /// An entry is its key and its time.
    pub proof fn same_parts_same_entry(self, other: Self)
        requires
            self.spec_key() == other.spec_key(),
            self.spec_time() == other.spec_time(),
        ensures
            self == other,
    {
    }
}

impl<K> vstd::std_specs::convert::FromSpecImpl<K> for Used<K> {
    open spec fn obeys_from_spec() -> bool {
        false
    }

    open spec fn from_spec(key: K) -> Self {
        arbitrary()
    }
}

impl<K> From<K> for Used<K> {
    /// A route that is used now.
    fn from(key: K) -> (used: Self)
        ensures
            used.spec_key() == key,
            call_ensures(Instant::now, (), used.spec_time()),
    {
        Used { key, time: Instant::now() }
    }
}

/// The keys of `last_used`, in order.
pub open spec fn keys<K>(last_used: Seq<Used<K>>) -> Seq<K> {
    last_used.map_values(|used: Used<K>| used.spec_key())
}

/// `after` is `before` once the route of `key` has been used: its last
/// occurrence, if there is one, has moved to the end, and else it has been
/// added there. Its time is what the clock read, and every other entry is as it
/// was.
pub open spec fn marked<K>(before: Seq<Used<K>>, key: K, after: Seq<Used<K>>) -> bool {
    &&& keys(after) == touch(keys(before), key)
    &&& after.len() > 0
    &&& after.last().spec_key() == key
    &&& call_ensures(Instant::now, (), after.last().spec_time())
    &&& !keys(before).contains(key) ==> after.drop_last() == before
    &&& forall|i: int| #[trigger]
        is_last_place(keys(before), key, i) ==> after.drop_last() == before.remove(i)
}

/// `after` is `before`, or `before` without one entry; its keys are `lru`.
pub open spec fn kept<K>(before: Seq<Used<K>>, lru: Seq<K>, after: Seq<Used<K>>) -> bool {
    &&& keys(after) == lru
    &&& after == before || exists|i: int|
        0 <= i < before.len() && after == #[trigger] before.remove(i)
}

/// The keys of the entries stand where the entries stand.
pub proof fn keys_by_entries<K>(last_used: Seq<Used<K>>)
    ensures
        keys(last_used).len() == last_used.len(),
        forall|i: int|
            0 <= i < last_used.len() ==> #[trigger] keys(last_used)[i] == last_used[i].spec_key(),
{
}

/// Using a route puts its entry last, with the time that the clock read. The
/// entry comes from the last place of its key, or is new where there was none,
/// and all other entries are as they were.
pub proof fn marked_by_entries<K>(before: Seq<Used<K>>, key: K, after: Seq<Used<K>>)
    requires
        marked(before, key, after),
    ensures
        after.len() > 0,
        after.last().spec_key() == key,
        call_ensures(Instant::now, (), after.last().spec_time()),
        (forall|i: int| 0 <= i < before.len() ==> (#[trigger] before[i]).spec_key() != key)
            ==> after.drop_last() == before,
        forall|i: int|
            0 <= i < before.len() && (#[trigger] before[i]).spec_key() == key && (forall|j: int|
                i < j < before.len() ==> (#[trigger] before[j]).spec_key() != key)
                ==> after.drop_last() == before.remove(i),
{
    if forall|i: int| 0 <= i < before.len() ==> (#[trigger] before[i]).spec_key() != key {
        assert(!keys(before).contains(key)) by {
            if keys(before).contains(key) {
                let i = keys(before).index_of(key);
                assert(before[i].spec_key() == key);
            }
        }
    }
    assert forall|i: int|
        0 <= i < before.len() && (#[trigger] before[i]).spec_key() == key && (forall|j: int|
            i < j < before.len() ==> (#[trigger] before[j]).spec_key() != key) implies after.drop_last()
        == before.remove(i) by {
        assert forall|j: int| i < j < keys(before).len() implies keys(before)[j] != key by {
            assert(before[j].spec_key() != key);
        }
        assert(is_last_place(keys(before), key, i));
    }
}

/// Making room keeps every entry but at most one, as it was.
pub proof fn kept_by_entries<K>(before: Seq<Used<K>>, lru: Seq<K>, after: Seq<Used<K>>)
    requires
        kept(before, lru, after),
    ensures
        lru.len() == after.len(),
        forall|i: int| 0 <= i < after.len() ==> (#[trigger] after[i]).spec_key() == lru[i],
        after == before || exists|i: int|
            0 <= i < before.len() && after == #[trigger] before.remove(i),
{
    assert forall|i: int| 0 <= i < after.len() implies (#[trigger] after[i]).spec_key() == lru[i] by {
        assert(keys(after)[i] == lru[i]);
    }
}

/// The bound routes, the order of their use, and what binds new ones.
#[verifier::reject_recursive_types(T)]
pub struct Inner<T: Recognize> {
    routes: RouteMap<T::Key, T::Service>,
    last_used: LastUsed<T::Key>,
    recognize: T,
    capacity: usize,
}

impl<T: Recognize> View for Inner<T> {
    type V = Cache<T::Key, T::Service>;

    closed spec fn view(&self) -> Cache<T::Key, T::Service> {
        Cache { routes: self.routes@, lru: keys(self.last_used@), capacity: self.capacity }
    }
}

impl<T: Recognize> Inner<T> where T::Key: Clone {
    /// What tells requests apart and binds routes.
    pub closed spec fn recognizer(self) -> T {
        self.recognize
    }

    /// The routes with the times at which they were last used, the least
    /// recently used one first.
    pub closed spec fn order(self) -> Seq<Used<T::Key>> {
        self.last_used@
    }

    /// The order of use is that of the entries.
    pub proof fn lru_is_order(self)
        ensures
            self@.lru == keys(self.order()),
            self@.lru.len() == self.order().len(),
            forall|i: int|
                0 <= i < self.order().len() ==> #[trigger] self@.lru[i] == self.order()[i].spec_key(),
    {
    }

    /// The cache is well formed and its keys behave as keys.
    pub open spec fn wf(self) -> bool {
        &&& key_model::<T::Key>()
        &&& self@.wf()
    }

    /// Nothing else is asked of a well-formed one.
    pub proof fn wf_by_cache(self)
        ensures
            self.wf() <==> key_model::<T::Key>() && self@.wf(),
    {
    }

    /// A cache for `capacity` routes that has none.
    pub fn new(recognize: T, capacity: usize) -> (inner: Self)
        requires
            key_model::<T::Key>(),
        ensures
            inner.wf(),
            inner@ == Cache::<T::Key, T::Service>::new(capacity),
            inner@.capacity == capacity,
            inner@.routes == Map::<T::Key, T::Service>::empty(),
            inner@.lru == Seq::<T::Key>::empty(),
            inner.order() == Seq::<Used<T::Key>>::empty(),
            inner.recognizer() == recognize,
    {
        let inner = Inner {
            routes: RouteMap::new(),
            last_used: VecDeque::new(),
            recognize,
            capacity,
        };
        assert(inner@ =~= Cache::<T::Key, T::Service>::new(capacity));
        inner
    }

    /// How many more routes may be bound.
    pub fn current_capacity(&self) -> (n: usize)
        requires
            self.wf(),
        ensures
            n == self@.capacity - self@.routes.len(),
    {
        self.capacity - self.routes.len()
    }

    /// How many routes may be bound at a time.
    pub fn capacity(&self) -> (n: usize)
        ensures
            n == self@.capacity,
    {
        self.capacity
    }

    /// Asks the recognizer for the key of `req`.
    pub fn recognize(&self, req: &T::Request) -> (key: Option<T::Key>)
        ensures
            call_ensures(T::recognize, (&self.recognizer(), req), key),
    {
        self.recognize.recognize(req)
    }

    /// Asks the recognizer for a service for `key`.
    pub fn bind_service(&mut self, key: &T::Key) -> (bound: Result<T::Service, T::RouteError>)
        requires
            old(self).wf(),
            old(self).recognizer().bindable(key),
        ensures
            final(self).wf(),
            final(self)@ == old(self)@,
            final(self).order() == old(self).order(),
            exists|rec: &mut T|
                {
                    &&& #[trigger] call_ensures(T::bind_service, (rec, key), bound)
                    &&& *rec == old(self).recognizer()
                    &&& *final(rec) == final(self).recognizer()
                },
    {
        self.recognize.bind_service(key)
    }

    /// Moves the element at `idx` to the end; the others keep their order.
    /// Nothing changes where there is no such element.
    pub fn move_to_end(last_used: &mut LastUsed<T::Key>, idx: usize)
        requires
            old(last_used)@.len() > 0,
        ensures
            final(last_used)@ == (if idx < old(last_used)@.len() {
                old(last_used)@.remove(idx as int).push(old(last_used)@[idx as int])
            } else {
                old(last_used)@
            }),
    {
        let last: usize = last_used.len() - 1;
        let ghost before = last_used@;
        let mut i: usize = idx;
        while i < last
            invariant
                last_used@.len() == before.len() == last + 1,
                idx <= i,
                idx <= last ==> i <= last,
                idx > last ==> last_used@ == before,
                idx <= last ==> last_used@ == before.remove(idx as int).insert(
                    i as int,
                    before[idx as int],
                ),
            decreases last - i,
        {
            swap(last_used, i, i + 1);
            assert(last_used@ =~= before.remove(idx as int).insert(i + 1, before[idx as int]));
            i = i + 1;
        }
        assert(idx <= last ==> last_used@ =~= before.remove(idx as int).push(before[idx as int]));
    }

    /// Puts the route of `key` at the end, as used now: its last occurrence
    /// moves there, or it is added where there was none. The others keep their
    /// order and their times.
    pub fn mark_used(last_used: &mut LastUsed<T::Key>, key: &T::Key)
        requires
            key_model::<T::Key>(),
        ensures
            marked(old(last_used)@, *key, final(last_used)@),
            final(last_used)@.len() > 0,
            final(last_used)@.last().spec_key() == *key,
            call_ensures(Instant::now, (), final(last_used)@.last().spec_time()),
            (forall|i: int|
                0 <= i < old(last_used)@.len() ==> (#[trigger] old(last_used)@[i]).spec_key() != *key)
                ==> final(last_used)@.drop_last() == old(last_used)@,
            forall|i: int|
                0 <= i < old(last_used)@.len() && (#[trigger] old(last_used)@[i]).spec_key() == *key
                    && (forall|j: int|
                    i < j < old(last_used)@.len() ==> (#[trigger] old(last_used)@[j]).spec_key()
                        != *key) ==> final(last_used)@.drop_last() == old(last_used)@.remove(i),
    {
        let ghost before = last_used@;
        match Self::last_place(last_used, key) {
            Some(idx) => {
                at_mut(last_used, idx).time = Instant::now();
                Self::move_to_end(last_used, idx);
                proof {
                    assert(last_used@.drop_last() =~= before.remove(idx as int));
                    assert(keys(before).contains(*key)) by {
                        assert(keys(before)[idx as int] == *key);
                    }
                    let i = choose|i: int| is_last_place(keys(before), *key, i);
                    assert(is_last_place(keys(before), *key, idx as int));
                    assert(i == idx);
                    assert(keys(last_used@) =~= keys(before).remove(idx as int).push(*key));
                }
            },
            None => {
                let used: Used<T::Key> = Used::from(key.clone());
                last_used.push_back(used);
                proof {
                    assert(cloned(*key, used.spec_key()));
                    assert(last_used@.drop_last() =~= before);
                    assert(keys(last_used@) =~= keys(before).push(*key));
                }
            },
        }
        proof {
            marked_by_entries(before, *key, last_used@);
        }
    }

    /// The last place at which `key` stands, if there is one.
    fn last_place(last_used: &LastUsed<T::Key>, key: &T::Key) -> (place: Option<usize>)
        requires
            key_model::<T::Key>(),
        ensures
            match place {
                Some(i) => is_last_place(keys(last_used@), *key, i as int),
                None => !keys(last_used@).contains(*key),
            },
    {
        let mut i: usize = last_used.len();
        while i > 0
            invariant
                key_model::<T::Key>(),
                i <= last_used@.len(),
                forall|j: int| i <= j < last_used@.len() ==> keys(last_used@)[j] != *key,
            decreases i,
        {
            i = i - 1;
            proof {
                reveal(obeys_concrete_eq);
            }
            if last_used[i].key == *key {
                return Some(i);
            }
        }
        None
    }

    /// The service of `key`, if its route is bound; the route counts as used.
    /// What is written through the result is then the service of `key`.
    pub fn mark_route(&mut self, key: &T::Key) -> (service: Option<&mut T::Service>)
        requires
            old(self).wf(),
        ensures
            final(self).wf(),
            final(self).recognizer() == old(self).recognizer(),
            match service {
                Some(svc) => {
                    &&& old(self)@.routes.contains_key(*key)
                    &&& *svc == old(self)@.routes[*key]
                    &&& final(self)@ == old(self)@.used(*key, *final(svc))
                    &&& marked(old(self).order(), *key, final(self).order())
                    &&& final(self)@.capacity == old(self)@.capacity
                    &&& final(self)@.routes == old(self)@.routes.insert(*key, *final(svc))
                    &&& forall|i: int|
                        0 <= i < old(self)@.lru.len() && #[trigger] old(self)@.lru[i] == *key
                            ==> final(self)@.lru == old(self)@.lru.remove(i).push(*key)
                },
                None => {
                    &&& !old(self)@.routes.contains_key(*key)
                    &&& final(self)@ == old(self)@
                    &&& final(self).order() == old(self).order()
                },
            },
    {
        let ghost before = self@;
        match self.routes.get_mut(key) {
            None => None,
            Some(svc) => {
                Self::mark_used(&mut self.last_used, key);
                proof {
                    before.used_keeps_wf(*key, *final(svc));
                    before.used_changes_one_route(*key, *final(svc));
                }
                Some(svc)
            },
        }
    }

    /// Binds the route of `key` to `service`; the route counts as used.
    pub fn add_route(&mut self, key: T::Key, service: T::Service)
        requires
            old(self).wf(),
            old(self)@.routes.contains_key(key) || !old(self)@.is_full(),
        ensures
            final(self).wf(),
            final(self).recognizer() == old(self).recognizer(),
            final(self)@ == old(self)@.used(key, service),
            marked(old(self).order(), key, final(self).order()),
            final(self)@.capacity == old(self)@.capacity,
            final(self)@.routes == old(self)@.routes.insert(key, service),
            !old(self)@.lru.contains(key) ==> final(self)@.lru == old(self)@.lru.push(key),
            forall|i: int|
                0 <= i < old(self)@.lru.len() && #[trigger] old(self)@.lru[i] == key
                    ==> final(self)@.lru == old(self)@.lru.remove(i).push(key),
    {
        let ghost before = self@;
        Self::mark_used(&mut self.last_used, &key);
        self.routes.insert(key, service);
        proof {
            before.used_keeps_wf(key, service);
            before.used_changes_one_route(key, service);
            assert(forall|i: int| 0 <= i < before.lru.len() ==> before.lru.contains(before.lru[i]));
        }
    }

    /// Gives up the route at `idx` in the order of use.
    pub fn evict(&mut self, idx: usize)
        requires
            old(self).wf(),
            idx < old(self)@.lru.len(),
        ensures
            final(self).wf(),
            final(self).recognizer() == old(self).recognizer(),
            final(self)@ == old(self)@.evict(idx as int),
            final(self)@.capacity == old(self)@.capacity,
            final(self)@.routes == old(self)@.routes.remove(old(self)@.lru[idx as int]),
            final(self)@.lru == old(self)@.lru.remove(idx as int),
            final(self).order() == old(self).order().remove(idx as int),
    {
        let ghost before = self@;
        Self::move_to_end(&mut self.last_used, idx);
        if let Some(Used { key, .. }) = self.last_used.pop_back() {
            self.routes.remove(&key);
        }
        proof {
            assert(self@.lru =~= before.lru.remove(idx as int));
            before.evict_makes_room(idx as int);
        }
    }
}

impl<T: Recognize> Inner<T> where T::Key: Clone, T::Service: HasActivity {
    /// Asks every service for its activity. Where some service is in use (it
    /// has pending requests or active responses), the least recently used route
    /// whose service is not is given up. Nothing changes where all services are
    /// in use, or none is.
    pub fn create_capacity(&mut self)
        requires
            old(self).wf(),
        ensures
            final(self).wf(),
            final(self).recognizer() == old(self).recognizer(),
            old(self)@.made_room(final(self)@),
            kept(old(self).order(), final(self)@.lru, final(self).order()),
            exists|readings: Seq<Activity>|
                {
                    // what the services answered
                    &&& #[trigger] old(self)@.observed(readings)
                    &&& readings.len() == old(self)@.lru.len()
                    &&& forall|i: int|
                        0 <= i < readings.len() ==> call_ensures(
                            <T::Service as HasActivity>::activity,
                            (&old(self)@.routes[old(self)@.lru[i]],),
                            #[trigger] readings[i],
                        )
                    // the first of those that are idle goes, where some other is in use
                    &&& {
                        ||| {
                            &&& {
                                ||| forall|i: int|
                                    0 <= i < readings.len() ==> (#[trigger] readings[i]).pending()
                                        + readings[i].active() > 0
                                ||| forall|i: int|
                                    0 <= i < readings.len() ==> (#[trigger] readings[i]).pending()
                                        + readings[i].active() == 0
                            }
                            &&& final(self)@ == old(self)@
                            &&& final(self).order() == old(self).order()
                        }
                        ||| exists|i: int, k: int|
                            {
                                &&& 0 <= i < readings.len()
                                &&& 0 <= k < readings.len()
                                &&& (#[trigger] readings[i]).pending() + readings[i].active() == 0
                                &&& (#[trigger] readings[k]).pending() + readings[k].active() > 0
                                &&& forall|j: int|
                                    0 <= j < i ==> (#[trigger] readings[j]).pending()
                                        + readings[j].active() > 0
                                &&& final(self)@.capacity == old(self)@.capacity
                                &&& final(self)@.routes == old(self)@.routes.remove(
                                    old(self)@.lru[i],
                                )
                                &&& final(self)@.lru == old(self)@.lru.remove(i)
                                &&& final(self).order() == old(self).order().remove(i)
                            }
                    }
                },
    {
        let ghost mut readings: Seq<Activity> = Seq::empty();
        let mut oldest: Option<usize> = None;
        let mut any_in_use: bool = false;
        let mut idx: usize = 0;
        while idx < self.last_used.len()
            invariant
                *self == *old(self),
                self.wf(),
                readings.len() == idx <= self@.lru.len(),
                self@.observed(readings),
                any_in_use == some_in_use(readings),
                match oldest {
                    Some(i) => oldest_idle(readings, i as int),
                    None => all_in_use(readings),
                },
            decreases self.last_used@.len() - idx,
        {
            let ghost so_far = readings;
            let in_use: bool = match self.routes.get(&self.last_used[idx].key) {
                Some(route) => {
                    let reading: Activity = route.activity();
                    proof {
                        readings = readings.push(reading);
                    }
                    reading.is_in_use()
                },
                None => {
                    assert(self@.lru.contains(self@.lru[idx as int]));
                    false
                },
            };
            proof {
                assert(forall|i: int| 0 <= i < idx ==> so_far[i] == #[trigger] readings[i]);
                assert(in_use == readings[idx as int].in_use());
                if some_in_use(so_far) {
                    let i = choose|i: int| 0 <= i < so_far.len() && (#[trigger] so_far[i]).in_use();
                    assert(readings[i].in_use());
                }
            }
            if in_use {
                any_in_use = true;
            } else if oldest.is_none() {
                oldest = Some(idx);
            }
            idx = idx + 1;
        }
        let ghost before = self@;
        if any_in_use {
            if let Some(i) = oldest {
                self.evict(i);
            }
        }
        proof {
            assert(before.gave_up(readings, self@));
            assert(before.observed(readings));
            if any_in_use && oldest is Some {
                let i = oldest->Some_0 as int;
                let k = choose|k: int| 0 <= k < readings.len() && (#[trigger] readings[k]).in_use();
                assert(readings[i].pending() + readings[i].active() == 0);
                assert(readings[k].pending() + readings[k].active() > 0);
            }
        }
    }
}

} // verus!
