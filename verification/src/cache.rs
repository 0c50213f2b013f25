//! What the router's cache holds, as a mathematical value.

use crate::activity::{Activity, HasActivity};
use vstd::prelude::*;

verus! {

/// The bound routes, the order in which they were last used, and how many
/// there may be.
#[verifier::ext_equal]
#[verifier::reject_recursive_types(K)]
pub struct Cache<K, S> {
    /// The service of each bound route.
    pub routes: Map<K, S>,
    /// The keys of the bound routes, the least recently used one first.
    pub lru: Seq<K>,
    /// The number of routes that may be bound at a time.
    pub capacity: usize,
}

/// `i` is the last place at which `key` stands in `keys`.
pub open spec fn is_last_place<K>(keys: Seq<K>, key: K, i: int) -> bool {
    &&& 0 <= i < keys.len()
    &&& keys[i] == key
    &&& forall|j: int| i < j < keys.len() ==> keys[j] != key
}

/// `keys` once `key` has been used: its last occurrence, if there is one, has
/// moved to the end, and else it has been added there.
pub open spec fn touch<K>(keys: Seq<K>, key: K) -> Seq<K> {
    if keys.contains(key) {
        keys.remove(choose|i: int| is_last_place(keys, key, i)).push(key)
    } else {
        keys.push(key)
    }
}

impl<K, S> Cache<K, S> {
    /// A cache for `capacity` routes that has none.
    pub open spec fn new(capacity: usize) -> Self {
        Cache { routes: Map::empty(), lru: Seq::empty(), capacity }
    }

    /// Each bound route stands once in the order of use, and nothing else does;
    /// there are no more routes than there may be.
    pub open spec fn wf(self) -> bool {
        &&& self.lru.no_duplicates()
        &&& forall|k: K| #[trigger] self.lru.contains(k) <==> self.routes.contains_key(k)
        &&& self.routes.dom().finite()
        &&& self.routes.len() <= self.capacity
    }

    /// No further route may be bound.
    pub open spec fn is_full(self) -> bool {
        self.routes.len() == self.capacity
    }

    /// The cache once the route of `key` has been used, and `service` is what
    /// that use made of it.
    pub open spec fn used(self, key: K, service: S) -> Self {
        Cache { routes: self.routes.insert(key, service), lru: touch(self.lru, key), ..self }
    }

    /// The cache without its `i`-th least recently used route.
    pub open spec fn evict(self, i: int) -> Self {
        Cache { routes: self.routes.remove(self.lru[i]), lru: self.lru.remove(i), ..self }
    }
}

impl<K, S: HasActivity> Cache<K, S> {
    /// `readings` may be what the services answered when each was asked for its
    /// activity, the least recently used route first.
    pub open spec fn observed(self, readings: Seq<Activity>) -> bool {
        &&& readings.len() <= self.lru.len()
        &&& forall|i: int|
            #![trigger readings[i]]
            #![trigger self.lru[i]]
            0 <= i < readings.len() ==> call_ensures(
                S::activity,
                (&self.routes[self.lru[i]],),
                readings[i],
            )
    }

    /// `after` may be what a search for a route to give up leaves of the cache.
    /// Where some service answered that it is in use, the least recently used
    /// route whose service did not is given up. Nothing changes where all are
    /// in use, or none is.
    pub open spec fn made_room(self, after: Self) -> bool {
        exists|readings: Seq<Activity>|
            {
                &&& #[trigger] self.observed(readings)
                &&& readings.len() == self.lru.len()
                &&& self.gave_up(readings, after)
            }
    }

    /// `after` is what is left of the cache once all services answered
    /// `readings`.
    pub open spec fn gave_up(self, readings: Seq<Activity>, after: Self) -> bool {
        &&& forall|i: int|
            #![trigger readings[i]]
            #![trigger oldest_idle(readings, i)]
            oldest_idle(readings, i) && some_in_use(readings) ==> after == self.evict(i)
        &&& !some_in_use(readings) || all_in_use(readings) ==> after == self
    }
}

/// Some reading is of a service in use.
pub open spec fn some_in_use(readings: Seq<Activity>) -> bool {
    exists|i: int| 0 <= i < readings.len() && (#[trigger] readings[i]).in_use()
}

/// Every reading is of a service in use.
pub open spec fn all_in_use(readings: Seq<Activity>) -> bool {
    forall|i: int| 0 <= i < readings.len() ==> (#[trigger] readings[i]).in_use()
}

/// Reading `i` is the first of a service that is not in use.
pub open spec fn oldest_idle(readings: Seq<Activity>, i: int) -> bool {
    &&& 0 <= i < readings.len()
    &&& !readings[i].in_use()
    &&& forall|j: int| 0 <= j < i ==> (#[trigger] readings[j]).in_use()
}

/// Either all services are in use, or there is a first that is not.
pub(crate) proof fn lemma_oldest_idle(readings: Seq<Activity>, n: int)
    requires
        0 <= n <= readings.len(),
    ensures
        (forall|i: int| 0 <= i < n ==> (#[trigger] readings[i]).in_use()) || exists|i: int|
            #[trigger] oldest_idle(readings, i),
    decreases n,
{
    if n > 0 {
        lemma_oldest_idle(readings, n - 1);
        if !readings[n - 1].in_use() && forall|i: int|
            0 <= i < n - 1 ==> (#[trigger] readings[i]).in_use() {
            assert(oldest_idle(readings, n - 1));
        }
    }
}

/// `touch` moves a key from the one place at which it stands.
pub(crate) proof fn lemma_touch_at<K>(keys: Seq<K>, key: K, i: int)
    requires
        is_last_place(keys, key, i),
    ensures
        touch(keys, key) == keys.remove(i).push(key),
{
    assert(keys.contains(key));
    let j = choose|j: int| is_last_place(keys, key, j);
    assert(is_last_place(keys, key, j));
    assert(i == j);
}

/// A key that stands in a sequence has a last place there.
pub(crate) proof fn lemma_last_place<K>(keys: Seq<K>, key: K) -> (i: int)
    requires
        keys.contains(key),
    ensures
        is_last_place(keys, key, i),
    decreases keys.len(),
{
    let n = keys.len() - 1;
    if keys[n] == key {
        n
    } else {
        let shorter = keys.drop_last();
        let j = keys.index_of(key);
        assert(shorter[j] == key);
        let i = lemma_last_place(shorter, key);
        assert forall|j: int| i < j < keys.len() implies keys[j] != key by {
            if j < n {
                assert(shorter[j] == keys[j]);
            }
        }
        i
    }
}

/// The most recently used key is the last one, and using a key neither adds
/// nor drops any other.
pub proof fn touch_puts_last<K>(keys: Seq<K>, key: K)
    ensures
        touch(keys, key).len() > 0,
        touch(keys, key).last() == key,
        forall|k: K| #[trigger] touch(keys, key).contains(k) <==> k == key || keys.contains(k),
        keys.no_duplicates() ==> touch(keys, key).no_duplicates(),
{
    let after = touch(keys, key);
    if keys.contains(key) {
        let i = lemma_last_place(keys, key);
        lemma_touch_at(keys, key, i);
        assert forall|k: K| #[trigger] after.contains(k) <==> k == key || keys.contains(k) by {
            if after.contains(k) && k != key {
                let j = after.index_of(k);
                assert(keys[if j < i { j } else { j + 1 }] == k);
            }
            if keys.contains(k) && k != key {
                let j = keys.index_of(k);
                assert(after[if j < i { j } else { j - 1 }] == k);
            }
            if k == key {
                assert(after[after.len() - 1] == k);
            }
        }
    } else {
        assert forall|k: K| #[trigger] after.contains(k) <==> k == key || keys.contains(k) by {
            if keys.contains(k) {
                assert(after[keys.index_of(k)] == k);
            }
            if k == key {
                assert(after[after.len() - 1] == k);
            }
        }
    }
}

/// Using a key that stands in `keys` takes it from the last of its places to
/// the end, and using another one adds it there; no other key moves past
/// another.
pub proof fn touch_moves_to_end<K>(keys: Seq<K>, key: K)
    ensures
        forall|i: int|
            0 <= i < keys.len() && #[trigger] keys[i] == key && (forall|j: int|
                i < j < keys.len() ==> keys[j] != key) ==> touch(keys, key) == keys.remove(i).push(
                key,
            ),
        (forall|i: int| 0 <= i < keys.len() ==> #[trigger] keys[i] != key) ==> touch(keys, key)
            == keys.push(key),
{
    assert forall|i: int|
        0 <= i < keys.len() && #[trigger] keys[i] == key && (forall|j: int|
            i < j < keys.len() ==> keys[j] != key) implies touch(keys, key) == keys.remove(i).push(
        key,
    ) by {
        assert(is_last_place(keys, key, i));
        lemma_touch_at(keys, key, i);
    }
}

/// The last place of a key holds it, and no later one does.
pub proof fn last_place_is_last<K>(keys: Seq<K>, key: K, i: int)
    ensures
        is_last_place(keys, key, i) <==> 0 <= i < keys.len() && keys[i] == key && forall|j: int|
            i < j < keys.len() ==> keys[j] != key,
{
}

impl<K, S> Cache<K, S> {
    /// A new cache has the capacity that it was given, and nothing else.
    pub proof fn new_is_empty(capacity: usize)
        ensures
            Self::new(capacity).capacity == capacity,
            Self::new(capacity).routes == Map::<K, S>::empty(),
            Self::new(capacity).lru == Seq::<K>::empty(),
    {
    }

    /// A cache is well formed exactly where each bound route has one place in
    /// the order of use, nothing else has one, and no more routes are bound
    /// than may be.
    pub proof fn wf_by_places(self)
        ensures
            self.wf() <==> {
                &&& forall|i: int, j: int|
                    #![trigger self.lru[i], self.lru[j]]
                    0 <= i < j < self.lru.len() ==> self.lru[i] != self.lru[j]
                &&& forall|i: int|
                    0 <= i < self.lru.len() ==> self.routes.contains_key(#[trigger] self.lru[i])
                &&& forall|k: K| #[trigger]
                    self.routes.contains_key(k) ==> exists|i: int|
                        0 <= i < self.lru.len() && #[trigger] self.lru[i] == k
                &&& self.routes.dom().finite()
                &&& self.routes.len() <= self.capacity
            },
    {
        if self.wf() {
            assert forall|i: int| 0 <= i < self.lru.len() implies self.routes.contains_key(
                #[trigger] self.lru[i],
            ) by {
                assert(self.lru.contains(self.lru[i]));
            }
            assert forall|k: K| #[trigger] self.routes.contains_key(k) implies exists|i: int|
                0 <= i < self.lru.len() && #[trigger] self.lru[i] == k by {
                assert(self.lru.contains(k));
            }
        }
    }

    /// The cache is full exactly where as many routes are bound as may be.
    pub proof fn full_by_count(self)
        ensures
            self.is_full() <==> self.routes.len() == self.capacity,
    {
    }

    /// Using a route stores what the use made of its service, and puts the
    /// route last in the order of use. No other route and no other place
    /// changes, nor does the capacity.
    pub proof fn used_changes_one_route(self, key: K, service: S)
        ensures
            self.used(key, service).capacity == self.capacity,
            self.used(key, service).routes == self.routes.insert(key, service),
            (forall|i: int| 0 <= i < self.lru.len() ==> #[trigger] self.lru[i] != key)
                ==> self.used(key, service).lru == self.lru.push(key),
            forall|i: int|
                0 <= i < self.lru.len() && #[trigger] self.lru[i] == key && (forall|j: int|
                    i < j < self.lru.len() ==> self.lru[j] != key) ==> self.used(key, service).lru
                    == self.lru.remove(i).push(key),
    {
        touch_moves_to_end(self.lru, key);
    }

    /// Giving up a route takes out that route and its place. No other route and
    /// no other place changes, nor does the capacity.
    pub proof fn evict_takes_one_route(self, i: int)
        ensures
            self.evict(i).capacity == self.capacity,
            self.evict(i).routes == self.routes.remove(self.lru[i]),
            self.evict(i).lru == self.lru.remove(i),
    {
    }

    /// Every bound route has its one place in the order of use.
    pub proof fn one_place_each(self)
        requires
            self.wf(),
        ensures
            self.lru.len() == self.routes.len(),
    {
        self.lru.unique_seq_to_set();
        assert(self.lru.to_set() =~= self.routes.dom());
    }

    /// Using a bound route, or binding one where there is room, keeps the cache
    /// well formed: never are there more routes than there may be.
    pub proof fn used_keeps_wf(self, key: K, service: S)
        requires
            self.wf(),
            self.routes.contains_key(key) || !self.is_full(),
        ensures
            self.used(key, service).wf(),
    {
        touch_puts_last(self.lru, key);
        assert(self.routes.contains_key(key) ==> self.routes.dom().insert(key)
            =~= self.routes.dom());
    }

    /// Giving up a route keeps the cache well formed and makes room for one
    /// more. The given up route is gone, and every other is as it was.
    pub proof fn evict_makes_room(self, i: int)
        requires
            self.wf(),
            0 <= i < self.lru.len(),
        ensures
            self.evict(i).wf(),
            !self.evict(i).is_full(),
            self.evict(i).routes.len() == self.routes.len() - 1,
            !self.evict(i).routes.contains_key(self.lru[i]),
            forall|k: K|
                k != self.lru[i] ==> (#[trigger] self.evict(i).routes.contains_key(k)
                    <==> self.routes.contains_key(k)),
            forall|k: K|
                k != self.lru[i] ==> #[trigger] self.evict(i).routes[k] == self.routes[k],
    {
        let after = self.evict(i);
        assert(self.lru.contains(self.lru[i]));
        assert forall|k: K| #[trigger] after.lru.contains(k) <==> after.routes.contains_key(k) by {
            if after.lru.contains(k) {
                let j = after.lru.index_of(k);
                assert(self.lru[if j < i { j } else { j + 1 }] == k);
                assert(self.lru.contains(k));
            }
            if self.lru.contains(k) && k != self.lru[i] {
                let j = self.lru.index_of(k);
                assert(after.lru[if j < i { j } else { j - 1 }] == k);
            }
        }
    }
}

impl<K, S: HasActivity> Cache<K, S> {
    /// A search for a route to give up keeps a cache well formed, and leaves a
    /// full cache full only where it changed nothing.
    pub proof fn made_room_or_unchanged(self, after: Self)
        requires
            self.wf(),
            self.made_room(after),
        ensures
            after.wf(),
            after.capacity == self.capacity,
            self.is_full() && after.is_full() ==> after == self,
            forall|k: K| #[trigger] after.routes.contains_key(k) ==> self.routes.contains_key(k),
    {
        let readings = choose|readings: Seq<Activity>|
            {
                &&& #[trigger] self.observed(readings)
                &&& readings.len() == self.lru.len()
                &&& self.gave_up(readings, after)
            };
        lemma_oldest_idle(readings, readings.len() as int);
        if some_in_use(readings) && !all_in_use(readings) {
            let i = choose|i: int| #[trigger] oldest_idle(readings, i);
            self.evict_makes_room(i);
        }
    }
}

} // verus!
