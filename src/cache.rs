use std::collections::HashMap;
use std::hash::Hash;
use vstd::prelude::*;
use vstd::pervasive::strictly_cloned;
use vstd::std_specs::hash::obeys_key_model;

verus! {

/// Keys behave as the hash-table model assumes: hashing is deterministic,
/// `==` is identity, and a clone is identical to its source.
pub open spec fn key_type_valid<K: Clone>() -> bool {
    &&& obeys_key_model::<K>()
    &&& forall|a: K, b: K| #[trigger] strictly_cloned(a, b) ==> a == b
}

/// `rec` with `k` taken out of the place where it stands and put first.
pub open spec fn promoted<K>(rec: Seq<K>, k: K) -> Seq<K> {
    seq![k] + rec.remove(rec.index_of(k))
}

/// The recency order that `put` of `k` leaves behind, on a cache of
/// capacity `cap` whose recency order was `rec`.
pub open spec fn put_recency<K>(rec: Seq<K>, k: K, cap: nat) -> Seq<K> {
    if rec.contains(k) {
        promoted(rec, k)
    } else if rec.len() >= cap {
        seq![k] + rec.drop_last()
    } else {
        seq![k] + rec
    }
}

/// The reason a cache could not be built.
#[derive(Debug, Clone, Copy, PartialEq, Eq, Structural)]
pub enum ConfigError {
    /// A cache must be able to hold at least one entry.
    ZeroCapacity,
}

/// Neighbours of an arena slot in the recency list.
#[derive(Clone, Copy)]
struct Link {
    prev: Option<usize>,
    next: Option<usize>,
}

/// What an occupied arena slot holds.
struct Entry<K, V> {
    key: K,
    value: V,
}

/// A bounded key-value store that evicts its least recently used entry.
///
/// Entries live in an arena of slots; `links` threads the occupied slots
/// into a list from most recently used (`head`) to least recently used
/// (`tail`), `free` lists the vacant slots, and `index` maps each key to
/// its slot, so that lookup, promotion and eviction take constant time.
pub struct LruCache<K, V> {
    capacity: usize,
    len: usize,
    entries: Vec<Option<Entry<K, V>>>,
    links: Vec<Link>,
    free: Vec<usize>,
    index: HashMap<K, usize>,
    head: Option<usize>,
    tail: Option<usize>,
    /// The occupied slots, most recently used first.
    order: Ghost<Seq<usize>>,
}

/// `get` of `key` took the cache from `pre` to `post` and returned `r`: on a
/// hit the key became the most recently used and `r` is a clone of its value;
/// on a miss nothing changed and `r` is `None`. The store stays as it was.
pub open spec fn get_step<K: Clone + Eq + Hash, V: Clone>(
    pre: LruCache<K, V>,
    post: LruCache<K, V>,
    key: K,
    r: Option<V>,
) -> bool {
    &&& post.cap() == pre.cap()
    &&& post.store() == pre.store()
    &&& pre.store().contains_key(key) ==> {
        &&& (r matches Some(v) && cloned(pre.store()[key], v))
        &&& post.recency() == promoted(pre.recency(), key)
    }
    &&& !pre.store().contains_key(key) ==> {
        &&& r is None
        &&& post.recency() == pre.recency()
    }
}

/// `put` of `key` and `value` took the cache from `pre` to `post` and
/// returned `r`. A held key gets the new value and becomes the most recently
/// used, and `r` is the value it had. A new key is stored as the most
/// recently used with `r` being `None`; on a full cache the least recently
/// used entry is evicted first.
pub open spec fn put_step<K: Clone + Eq + Hash, V: Clone>(
    pre: LruCache<K, V>,
    post: LruCache<K, V>,
    key: K,
    value: V,
    r: Option<V>,
) -> bool {
    &&& post.cap() == pre.cap()
    &&& post.recency() == put_recency(pre.recency(), key, pre.cap())
    &&& pre.store().contains_key(key) ==> {
        &&& r == Some(pre.store()[key])
        &&& post.store() == pre.store().insert(key, value)
        &&& post.recency().len() == pre.recency().len()
    }
    &&& !pre.store().contains_key(key) ==> r is None
    &&& !pre.store().contains_key(key) && pre.recency().len() < pre.cap() ==> post.store()
        == pre.store().insert(key, value)
    &&& !pre.store().contains_key(key) && pre.recency().len() == pre.cap() ==> post.store()
        == pre.store().remove(pre.recency().last()).insert(key, value)
}

/// `pop_mru` took the cache from `pre` to `post` and returned `r`: the most
/// recently used entry was removed and `r` is its value, or the cache was
/// empty, stayed so, and `r` is `None`.
pub open spec fn pop_mru_step<K: Clone + Eq + Hash, V: Clone>(
    pre: LruCache<K, V>,
    post: LruCache<K, V>,
    r: Option<V>,
) -> bool {
    &&& post.cap() == pre.cap()
    &&& pre.recency().len() == 0 ==> {
        &&& r is None
        &&& post.recency() == pre.recency()
        &&& post.store() == pre.store()
    }
    &&& pre.recency().len() > 0 ==> {
        &&& r == Some(pre.store()[pre.recency()[0]])
        &&& post.recency() == pre.recency().drop_first()
        &&& post.store() == pre.store().remove(pre.recency()[0])
    }
}

/// `pop_lru` took the cache from `pre` to `post` and returned `r`: the least
/// recently used entry was removed and `r` is its value, or the cache was
/// empty, stayed so, and `r` is `None`.
pub open spec fn pop_lru_step<K: Clone + Eq + Hash, V: Clone>(
    pre: LruCache<K, V>,
    post: LruCache<K, V>,
    r: Option<V>,
) -> bool {
    &&& post.cap() == pre.cap()
    &&& pre.recency().len() == 0 ==> {
        &&& r is None
        &&& post.recency() == pre.recency()
        &&& post.store() == pre.store()
    }
    &&& pre.recency().len() > 0 ==> {
        &&& r == Some(pre.store()[pre.recency().last()])
        &&& post.recency() == pre.recency().drop_last()
        &&& post.store() == pre.store().remove(pre.recency().last())
    }
}

/// `r` is a clone of the most recently used value of `c`, or `None` when `c`
/// is empty.
pub open spec fn is_mru_value<K: Clone + Eq + Hash, V: Clone>(c: LruCache<K, V>, r: Option<V>) -> bool {
    &&& c.recency().len() == 0 ==> r is None
    &&& c.recency().len() > 0 ==> (r matches Some(v) && cloned(c.store()[c.recency()[0]], v))
}

/// `r` is a clone of the least recently used value of `c`, or `None` when
/// `c` is empty.
pub open spec fn is_lru_value<K: Clone + Eq + Hash, V: Clone>(c: LruCache<K, V>, r: Option<V>) -> bool {
    &&& c.recency().len() == 0 ==> r is None
    &&& c.recency().len() > 0 ==> (r matches Some(v) && cloned(c.store()[c.recency().last()], v))
}

impl<K: Clone + Eq + Hash, V: Clone> LruCache<K, V> {
    spec fn key_at(&self, s: usize) -> K {
        self.entries@[s as int].unwrap().key
    }

    spec fn value_at(&self, s: usize) -> V {
        self.entries@[s as int].unwrap().value
    }

    /// The keys held, from most recently used to least recently used.
    pub closed spec fn recency(&self) -> Seq<K> {
        self.order@.map_values(|s: usize| self.key_at(s))
    }

    /// The value held for each key.
    pub closed spec fn store(&self) -> Map<K, V> {
        self.index@.map_values(|s: usize| self.value_at(s))
    }

    /// The most entries the cache holds at once.
    pub closed spec fn cap(&self) -> nat {
        self.capacity as nat
    }

    /// The arena slots in `order` are occupied, distinct, and linked in that order.
    spec fn list_wf(&self) -> bool {
        let o = self.order@;
        &&& self.links@.len() == self.entries@.len()
        &&& o.no_duplicates()
        &&& forall|k: int|
            #![trigger o[k]]
            0 <= k < o.len() ==> o[k] < self.entries@.len() && self.entries@[o[k] as int] is Some
        &&& linked(o, self.links@)
        &&& self.head == (if o.len() == 0 {
            None
        } else {
            Some(o[0])
        })
        &&& self.tail == (if o.len() == 0 {
            None
        } else {
            Some(o[o.len() - 1])
        })
    }

    /// The internal invariant: the list is sound, the vacant slots are
    /// listed once each, every listed key is indexed at its slot, and the
    /// cache holds at most `capacity` entries.
    pub closed spec fn wf(&self) -> bool {
        let o = self.order@;
        &&& key_type_valid::<K>()
        &&& self.list_wf()
        &&& 0 < self.capacity
        &&& self.len == o.len()
        &&& self.len <= self.capacity
        &&& self.entries@.len() == o.len() + self.free@.len()
        &&& self.free@.no_duplicates()
        &&& forall|j: int|
            #![trigger self.free@[j]]
            0 <= j < self.free@.len() ==> self.free@[j] < self.entries@.len()
                && self.entries@[self.free@[j] as int] is None
        &&& forall|k: int|
            #![trigger o[k]]
            0 <= k < o.len() ==> self.index@.contains_key(self.key_at(o[k])) && self.index@[self.key_at(
                o[k],
            )] == o[k]
        &&& forall|key: K|
            #![trigger self.index@.contains_key(key)]
            self.index@.contains_key(key) ==> o.contains(self.index@[key]) && self.key_at(
                self.index@[key],
            ) == key
    }

    /// Any well-formed cache holds distinct keys, no more than its
    /// capacity, and exactly the keys of its store.
    pub proof fn lemma_consistent(&self)
        requires
            self.wf(),
        ensures
            self.recency().no_duplicates(),
            self.recency().len() <= self.cap(),
            self.store().dom() == self.recency().to_set(),
            self.store().len() == self.recency().len(),
    {
        let o = self.order@;
        let r = self.recency();
        assert forall|a: int, b: int| 0 <= a < r.len() && 0 <= b < r.len() && a != b implies r[a]
            != r[b] by {
            assert(o[a] != o[b]);
            assert(r[a] == self.key_at(o[a]));
            assert(r[b] == self.key_at(o[b]));
            assert(self.index@[self.key_at(o[a])] == o[a]);
        }
        assert forall|key: K| self.store().dom().contains(key) <==> r.to_set().contains(key) by {
            if self.index@.contains_key(key) {
                let k = choose|k: int| 0 <= k < o.len() && o[k] == self.index@[key];
                assert(r[k] == key);
            }
            if r.to_set().contains(key) {
                let k = choose|k: int| 0 <= k < r.len() && r[k] == key;
                assert(o[k] == o[k]);
            }
        }
        assert(self.store().dom() =~= r.to_set());
        r.unique_seq_to_set();
    }

    /// Builds an empty cache that holds at most `capacity` entries; a zero
    /// capacity is refused.
    pub fn new(capacity: usize) -> (r: Result<Self, ConfigError>)
        requires
            key_type_valid::<K>(),
        ensures
            r is Err <==> capacity == 0,
            r is Err ==> r == Err::<Self, ConfigError>(ConfigError::ZeroCapacity),
            r matches Ok(c) ==> {
                &&& c.wf()
                &&& c.cap() == capacity
                &&& c.recency() == Seq::<K>::empty()
                &&& c.store() == Map::<K, V>::empty()
            },
    {
        if capacity == 0 {
            return Err(ConfigError::ZeroCapacity);
        }
        let c = LruCache {
            capacity,
            len: 0,
            entries: Vec::new(),
            links: Vec::new(),
            free: Vec::new(),
            index: HashMap::new(),
            head: None,
            tail: None,
            order: Ghost(Seq::empty()),
        };
        assert(c.recency() =~= Seq::<K>::empty());
        assert(c.store() =~= Map::<K, V>::empty());
        Ok(c)
    }

    /// Looks `key` up; on a hit the key becomes the most recently used and a
    /// clone of its value is returned, on a miss nothing changes.
    pub fn get(&mut self, key: &K) -> (r: Option<V>)
        requires
            old(self).wf(),
        ensures
            final(self).wf(),
            get_step(*old(self), *final(self), *key, r),
    {
        let s = match self.index.get(key) {
            Some(s) => *s,
            None => {
                return None;
            },
        };
        let ghost i = self.lemma_slot_position(*key);
        self.promote(s, Ghost(i));
        let value = self.entries[s].as_ref().unwrap().value.clone();
        Some(value)
    }

    /// Stores `value` under `key` as the most recently used entry and returns
    /// the value it replaces. A new key on a full cache first evicts the
    /// least recently used entry.
    pub fn put(&mut self, key: K, value: V) -> (r: Option<V>)
        requires
            old(self).wf(),
        ensures
            final(self).wf(),
            put_step(*old(self), *final(self), key, value, r),
    {
        let ghost a = *self;
        let found = match self.index.get(&key) {
            Some(s) => Some(*s),
            None => None,
        };
        match found {
            Some(s) => {
                let ghost i = self.lemma_slot_position(key);
                let prev = self.replace_value(s, value, Ghost(i));
                self.promote(s, Ghost(i));
                proof {
                    a.lemma_promoted(i);
                }
                Some(prev)
            },
            None => {
                if self.len == self.capacity {
                    let t = self.tail.unwrap();
                    let ghost last = self.order@.len() - 1;
                    let _evicted = self.remove_slot(t, Ghost(last));
                    proof {
                        assert(a.recency().remove(last) =~= a.recency().drop_last());
                    }
                }
                self.push_new(key, value);
                None
            },
        }
    }

    /// Removes the most recently used entry and returns its value.
    pub fn pop_mru(&mut self) -> (r: Option<V>)
        requires
            old(self).wf(),
        ensures
            final(self).wf(),
            pop_mru_step(*old(self), *final(self), r),
    {
        match self.head {
            Some(h) => {
                let ghost a = *self;
                let e = self.remove_slot(h, Ghost(0));
                assert(a.recency().remove(0) =~= a.recency().drop_first());
                Some(e.value)
            },
            None => None,
        }
    }

    /// Removes the least recently used entry and returns its value.
    pub fn pop_lru(&mut self) -> (r: Option<V>)
        requires
            old(self).wf(),
        ensures
            final(self).wf(),
            pop_lru_step(*old(self), *final(self), r),
    {
        match self.tail {
            Some(t) => {
                let ghost a = *self;
                let ghost last = self.order@.len() - 1;
                let e = self.remove_slot(t, Ghost(last));
                assert(a.recency().remove(last) =~= a.recency().drop_last());
                Some(e.value)
            },
            None => None,
        }
    }

    /// A clone of the most recently used value, leaving the cache as it is.
    pub fn get_mru(&self) -> (r: Option<V>)
        requires
            self.wf(),
        ensures
            is_mru_value(*self, r),
    {
        match self.head {
            Some(h) => {
                proof {
                    self.lemma_listed_value(0);
                }
                Some(self.entries[h].as_ref().unwrap().value.clone())
            },
            None => None,
        }
    }

    /// A clone of the least recently used value, leaving the cache as it is.
    pub fn get_lru(&self) -> (r: Option<V>)
        requires
            self.wf(),
        ensures
            is_lru_value(*self, r),
    {
        match self.tail {
            Some(t) => {
                proof {
                    self.lemma_listed_value(self.order@.len() - 1);
                }
                Some(self.entries[t].as_ref().unwrap().value.clone())
            },
            None => None,
        }
    }

    /// The number of entries held.
    pub fn len(&self) -> (r: usize)
        requires
            self.wf(),
        ensures
            r == self.recency().len(),
    {
        self.len
    }

    /// The most entries the cache holds at once.
    pub fn capacity(&self) -> (r: usize)
        ensures
            r == self.cap(),
    {
        self.capacity
    }
}

// Steps that the operations above are built from.
impl<K: Clone + Eq + Hash, V: Clone> LruCache<K, V> {
    /// Puts a new entry for an absent key in a vacant slot, as the most
    /// recently used.
    fn push_new(&mut self, key: K, value: V)
        requires
            old(self).wf(),
            !old(self).store().contains_key(key),
            old(self).recency().len() < old(self).cap(),
        ensures
            final(self).wf(),
            final(self).cap() == old(self).cap(),
            final(self).recency() == seq![key] + old(self).recency(),
            final(self).store() == old(self).store().insert(key, value),
    {
        let ghost a = *self;
        let stored = key.clone();
        assert(strictly_cloned(key, stored));
        let s: usize = match self.free.pop() {
            Some(f) => {
                assert(a.free@[a.free@.len() - 1] == f);
                self.entries.set(f, Some(Entry { key: stored, value }));
                f
            },
            None => {
                self.entries.push(Some(Entry { key: stored, value }));
                self.links.push(Link { prev: None, next: None });
                self.entries.len() - 1
            },
        };
        proof {
            let o = a.order@;
            assert forall|k: int| #![trigger o[k]] 0 <= k < o.len() implies o[k] != s
                && self.entries@[o[k] as int] == a.entries@[o[k] as int] && self.links@[o[k] as int]
                == a.links@[o[k] as int] by {}
            assert(linked(o, self.links@));
        }
        self.attach_front(s);
        self.index.insert(key, s);
        self.len = self.len + 1;
        proof {
            Self::lemma_inserted(a, *self, s, key, value);
        }
    }

    /// Takes the entry at position `i` of the recency list out of the cache.
    fn remove_slot(&mut self, s: usize, Ghost(i): Ghost<int>) -> (e: Entry<K, V>)
        requires
            old(self).wf(),
            0 <= i < old(self).order@.len(),
            old(self).order@[i] == s,
        ensures
            final(self).wf(),
            final(self).cap() == old(self).cap(),
            e.key == old(self).recency()[i],
            e.value == old(self).store()[e.key],
            final(self).recency() == old(self).recency().remove(i),
            final(self).store() == old(self).store().remove(e.key),
    {
        let ghost a = *self;
        self.detach(s, Ghost(i));
        let ghost mid = *self;
        let mut slot: Option<Entry<K, V>> = None;
        self.entries.set_and_swap(s, &mut slot);
        let e = slot.unwrap();
        self.index.remove(&e.key);
        self.free.push(s);
        self.len = self.len - 1;
        proof {
            Self::lemma_removed(a, *self, s, i);
        }
        e
    }

    /// Moves the entry at position `i` of the recency list to the front.
    fn promote(&mut self, s: usize, Ghost(i): Ghost<int>)
        requires
            old(self).wf(),
            0 <= i < old(self).order@.len(),
            old(self).order@[i] == s,
        ensures
            final(self).wf(),
            final(self).cap() == old(self).cap(),
            final(self).recency() == seq![old(self).recency()[i]] + old(self).recency().remove(i),
            final(self).store() == old(self).store(),
            final(self).entries == old(self).entries,
    {
        let ghost a = *self;
        self.detach(s, Ghost(i));
        proof {
            let o = a.order@;
            assert forall|k: int| #![trigger self.order@[k]] 0 <= k < self.order@.len() implies
                self.order@[k] != s by {
                if k >= i {
                    assert(self.order@[k] == o[k + 1]);
                }
            }
        }
        self.attach_front(s);
        proof {
            Self::lemma_moved_front(a, *self, s, i);
        }
    }

    /// Gives the entry in the listed slot `s` a new value, keeping its key.
    fn replace_value(&mut self, s: usize, value: V, Ghost(i): Ghost<int>) -> (prev: V)
        requires
            old(self).wf(),
            0 <= i < old(self).order@.len(),
            old(self).order@[i] == s,
        ensures
            final(self).wf(),
            final(self).cap() == old(self).cap(),
            final(self).recency() == old(self).recency(),
            final(self).order == old(self).order,
            prev == old(self).store()[old(self).recency()[i]],
            final(self).store() == old(self).store().insert(old(self).recency()[i], value),
    {
        let ghost a = *self;
        let mut slot: Option<Entry<K, V>> = None;
        self.entries.set_and_swap(s, &mut slot);
        let Entry { key, value: prev } = slot.unwrap();
        self.entries.set(s, Some(Entry { key, value }));
        proof {
            assert(self.entries@ =~= a.entries@.update(
                s as int,
                Some(Entry { key: a.key_at(s), value }),
            ));
            Self::lemma_replaced(a, *self, s, i, value);
        }
        prev
    }

    /// Removes the slot at position `i` of the recency list from the list.
    fn detach(&mut self, s: usize, Ghost(i): Ghost<int>)
        requires
            old(self).list_wf(),
            0 <= i < old(self).order@.len(),
            old(self).order@[i] == s,
        ensures
            final(self).list_wf(),
            final(self).order@ == old(self).order@.remove(i),
            final(self).entries == old(self).entries,
            final(self).free == old(self).free,
            final(self).index == old(self).index,
            final(self).capacity == old(self).capacity,
            final(self).len == old(self).len,
    {
        let ghost o = self.order@;
        let ghost l0 = self.links@;
        proof {
            if i > 0 {
                assert(o[i - 1] < self.entries@.len());
            }
            if i < o.len() - 1 {
                assert(o[i + 1] < self.entries@.len());
            }
        }
        let link = self.links[s];
        match link.prev {
            Some(p) => {
                let mut lp = self.links[p];
                lp.next = link.next;
                self.links.set(p, lp);
            },
            None => {
                self.head = link.next;
            },
        }
        match link.next {
            Some(n) => {
                let mut ln = self.links[n];
                ln.prev = link.prev;
                self.links.set(n, ln);
            },
            None => {
                self.tail = link.prev;
            },
        }
        self.order = Ghost(o.remove(i));
        proof {
            lemma_linked_remove(o, l0, self.links@, i);
            assert forall|k: int|
                #![trigger self.order@[k]]
                0 <= k < self.order@.len() implies self.order@[k] < self.entries@.len()
                && self.entries@[self.order@[k] as int] is Some by {
                if k >= i {
                    assert(self.order@[k] == o[k + 1]);
                }
            }
        }
    }

    /// Links the unlisted, occupied slot `s` in as the most recently used.
    fn attach_front(&mut self, s: usize)
        requires
            old(self).list_wf(),
            s < old(self).entries@.len(),
            old(self).entries@[s as int] is Some,
            !old(self).order@.contains(s),
        ensures
            final(self).list_wf(),
            final(self).order@ == seq![s] + old(self).order@,
            final(self).entries == old(self).entries,
            final(self).free == old(self).free,
            final(self).index == old(self).index,
            final(self).capacity == old(self).capacity,
            final(self).len == old(self).len,
    {
        let ghost o = self.order@;
        let ghost l0 = self.links@;
        self.links.set(s, Link { prev: None, next: self.head });
        match self.head {
            Some(h) => {
                assert(o[0] == h);
                let mut lh = self.links[h];
                lh.prev = Some(s);
                self.links.set(h, lh);
            },
            None => {
                self.tail = Some(s);
            },
        }
        self.head = Some(s);
        self.order = Ghost(seq![s] + o);
        proof {
            lemma_linked_push_front(o, l0, self.links@, s);
            let o2 = self.order@;
            assert forall|k: int|
                #![trigger o2[k]]
                0 <= k < o2.len() implies o2[k] < self.entries@.len()
                && self.entries@[o2[k] as int] is Some by {
                if k > 0 {
                    assert(o2[k] == o[k - 1]);
                }
            }
        }
    }

    /// The position in the recency list of the slot that `key` is indexed at.
    proof fn lemma_slot_position(&self, key: K) -> (i: int)
        requires
            self.wf(),
            self.index@.contains_key(key),
        ensures
            0 <= i < self.order@.len(),
            self.order@[i] == self.index@[key],
            self.recency()[i] == key,
            self.store()[key] == self.value_at(self.order@[i]),
    {
        choose|i: int| 0 <= i < self.order@.len() && self.order@[i] == self.index@[key]
    }

    /// The entry at position `i` holds the stored value of its key.
    proof fn lemma_listed_value(&self, i: int)
        requires
            self.wf(),
            0 <= i < self.order@.len(),
        ensures
            self.store().contains_key(self.recency()[i]),
            self.store()[self.recency()[i]] == self.value_at(self.order@[i]),
    {
        assert(self.index@[self.key_at(self.order@[i])] == self.order@[i]);
    }

    /// Promoting the key at position `i` is `promoted` of that key.
    proof fn lemma_promoted(&self, i: int)
        requires
            self.wf(),
            0 <= i < self.order@.len(),
        ensures
            seq![self.recency()[i]] + self.recency().remove(i) == promoted(
                self.recency(),
                self.recency()[i],
            ),
    {
        self.lemma_consistent();
        let r = self.recency();
        assert(r.contains(r[i]));
        assert(r.index_of(r[i]) == i);
    }
}

// How each step changes the cache, in terms of the model.
impl<K: Clone + Eq + Hash, V: Clone> LruCache<K, V> {
    /// `b` is `a` with a new entry for `key` in the vacant slot `s`, listed first.
    spec fn inserted(a: Self, b: Self, s: usize, key: K, value: V) -> bool {
        &&& a.wf()
        &&& !a.index@.contains_key(key)
        &&& a.len < a.capacity
        &&& b.list_wf()
        &&& b.order@ == seq![s] + a.order@
        &&& b.capacity == a.capacity
        &&& b.len == a.len + 1
        &&& b.index@ == a.index@.insert(key, s)
        &&& b.entries@[s as int] == Some(Entry { key, value })
        &&& forall|t: int|
            0 <= t < a.entries@.len() && t != s ==> #[trigger] b.entries@[t] == a.entries@[t]
        &&& {
            ||| (a.free@.len() > 0 && s == a.free@.last() && b.free@ == a.free@.drop_last()
                && b.entries@.len() == a.entries@.len())
            ||| (a.free@.len() == 0 && s == a.entries@.len() && b.free@ == a.free@
                && b.entries@.len() == a.entries@.len() + 1)
        }
    }

    proof fn lemma_inserted_order(a: Self, b: Self, s: usize, key: K, value: V)
        requires
            Self::inserted(a, b, s, key, value),
        ensures
            forall|k: int|
                #![trigger a.order@[k]]
                0 <= k < a.order@.len() ==> {
                    &&& a.order@[k] != s
                    &&& b.order@[k + 1] == a.order@[k]
                    &&& b.key_at(a.order@[k]) == a.key_at(a.order@[k])
                    &&& b.value_at(a.order@[k]) == a.value_at(a.order@[k])
                },
    {
        let o = a.order@;
        assert forall|k: int| #![trigger o[k]] 0 <= k < o.len() implies o[k] != s by {
            if a.free@.len() > 0 {
                assert(a.free@[a.free@.len() - 1] == s);
            }
        }
        assert forall|k: int| #![trigger o[k]] 0 <= k < o.len() implies b.order@[k + 1] == o[k]
            && b.entries@[o[k] as int] == a.entries@[o[k] as int] by {}
    }

    proof fn lemma_inserted_free(a: Self, b: Self, s: usize, key: K, value: V)
        requires
            Self::inserted(a, b, s, key, value),
        ensures
            b.free@.no_duplicates(),
            forall|j: int|
                #![trigger b.free@[j]]
                0 <= j < b.free@.len() ==> b.free@[j] < b.entries@.len() && b.entries@[b.free@[j] as int] is None,
    {
        assert forall|j: int| #![trigger b.free@[j]] 0 <= j < b.free@.len() implies b.free@[j]
            < b.entries@.len() && b.entries@[b.free@[j] as int] is None by {
            assert(b.free@[j] == a.free@[j]);
            if a.free@.len() > 0 {
                assert(a.free@[a.free@.len() - 1] == s);
            }
        }
        assert forall|x: int, y: int|
            0 <= x < b.free@.len() && 0 <= y < b.free@.len() && x != y implies b.free@[x]
            != b.free@[y] by {
            assert(b.free@[x] == a.free@[x]);
            assert(b.free@[y] == a.free@[y]);
        }
    }

    proof fn lemma_inserted_index(a: Self, b: Self, s: usize, key: K, value: V)
        requires
            Self::inserted(a, b, s, key, value),
        ensures
            forall|k: int|
                #![trigger b.order@[k]]
                0 <= k < b.order@.len() ==> b.index@.contains_key(b.key_at(b.order@[k]))
                    && b.index@[b.key_at(b.order@[k])] == b.order@[k],
    {
        Self::lemma_inserted_order(a, b, s, key, value);
        let o = a.order@;
        let o2 = b.order@;
        assert forall|k: int| #![trigger o2[k]] 0 <= k < o2.len() implies b.index@.contains_key(
            b.key_at(o2[k])) && b.index@[b.key_at(o2[k])] == o2[k] by {
            if k > 0 {
                assert(o2[k] == o[k - 1]);
                assert(a.index@.contains_key(a.key_at(o[k - 1])));
            }
        }
    }

    proof fn lemma_inserted_index_dom(a: Self, b: Self, s: usize, key: K, value: V)
        requires
            Self::inserted(a, b, s, key, value),
        ensures
            forall|key2: K|
                #![trigger b.index@.contains_key(key2)]
                b.index@.contains_key(key2) ==> b.order@.contains(b.index@[key2]) && b.key_at(
                    b.index@[key2],
                ) == key2,
    {
        Self::lemma_inserted_order(a, b, s, key, value);
        let o = a.order@;
        let o2 = b.order@;
        assert forall|key2: K| #![trigger b.index@.contains_key(key2)]
            b.index@.contains_key(key2) implies o2.contains(b.index@[key2]) && b.key_at(
            b.index@[key2]) == key2 by {
            if key2 == key {
                assert(o2[0] == s);
            } else {
                let t = a.index@[key2];
                assert(a.index@.contains_key(key2));
                assert(b.index@[key2] == t);
                assert(o.contains(t));
                let j = choose|j: int| 0 <= j < o.len() && o[j] == t;
                assert(o2[j + 1] == o[j]);
            }
        }
    }

    proof fn lemma_inserted_recency(a: Self, b: Self, key: K)
        requires
            b.order@.len() == a.order@.len() + 1,
            b.key_at(b.order@[0]) == key,
            forall|k: int|
                #![trigger a.order@[k]]
                0 <= k < a.order@.len() ==> b.order@[k + 1] == a.order@[k] && b.key_at(a.order@[k])
                    == a.key_at(a.order@[k]),
        ensures
            b.recency() == seq![key] + a.recency(),
    {
        assert forall|k: int| 0 <= k < b.order@.len() implies b.recency()[k] == (seq![key]
            + a.recency())[k] by {
            if k > 0 {
                assert(b.order@[k] == a.order@[k - 1]);
            }
        }
        assert(b.recency() =~= seq![key] + a.recency());
    }

    proof fn lemma_inserted_store(a: Self, b: Self, s: usize, key: K, value: V)
        requires
            Self::inserted(a, b, s, key, value),
        ensures
            b.store() == a.store().insert(key, value),
    {
        Self::lemma_inserted_order(a, b, s, key, value);
        assert forall|key2: K| #[trigger] b.index@.contains_key(key2) && key2 != key implies b.value_at(
            b.index@[key2]) == a.value_at(a.index@[key2]) by {
            let t = a.index@[key2];
            assert(a.index@.contains_key(key2));
            assert(a.order@.contains(t));
        }
        assert(b.store() =~= a.store().insert(key, value));
    }

    proof fn lemma_inserted(a: Self, b: Self, s: usize, key: K, value: V)
        requires
            Self::inserted(a, b, s, key, value),
        ensures
            b.wf(),
            b.recency() == seq![key] + a.recency(),
            b.store() == a.store().insert(key, value),
    {
        Self::lemma_inserted_free(a, b, s, key, value);
        Self::lemma_inserted_index(a, b, s, key, value);
        Self::lemma_inserted_index_dom(a, b, s, key, value);
        Self::lemma_inserted_order(a, b, s, key, value);
        Self::lemma_inserted_recency(a, b, key);
        Self::lemma_inserted_store(a, b, s, key, value);
    }

    /// `b` is `a` with the slot at position `i` moved to the front of the list.
    spec fn moved_front(a: Self, b: Self, s: usize, i: int) -> bool {
        &&& a.wf()
        &&& 0 <= i < a.order@.len()
        &&& a.order@[i] == s
        &&& b.list_wf()
        &&& b.order@ == seq![s] + a.order@.remove(i)
        &&& b.entries == a.entries
        &&& b.free == a.free
        &&& b.index == a.index
        &&& b.len == a.len
        &&& b.capacity == a.capacity
    }

    /// Where each listed slot of `b` stood in `a`.
    spec fn moved_from(i: int, k: int) -> int {
        if k == 0 {
            i
        } else if k <= i {
            k - 1
        } else {
            k
        }
    }

    proof fn lemma_moved_front_order(a: Self, b: Self, s: usize, i: int)
        requires
            Self::moved_front(a, b, s, i),
        ensures
            forall|k: int|
                #![trigger b.order@[k]]
                0 <= k < b.order@.len() ==> b.order@[k] == a.order@[Self::moved_from(i, k)],
            b.order@.len() == a.order@.len(),
    {
        let o = a.order@;
        let o2 = b.order@;
        assert forall|k: int| #![trigger o2[k]] 0 <= k < o2.len() implies o2[k] == o[Self::moved_from(
            i,
            k,
        )] by {}
    }

    proof fn lemma_moved_front_index(a: Self, b: Self, s: usize, i: int)
        requires
            Self::moved_front(a, b, s, i),
        ensures
            forall|k: int|
                #![trigger b.order@[k]]
                0 <= k < b.order@.len() ==> b.index@.contains_key(b.key_at(b.order@[k]))
                    && b.index@[b.key_at(b.order@[k])] == b.order@[k],
    {
        Self::lemma_moved_front_order(a, b, s, i);
        let o = a.order@;
        let o2 = b.order@;
        assert forall|k: int| #![trigger o2[k]] 0 <= k < o2.len() implies b.index@.contains_key(
            b.key_at(o2[k])) && b.index@[b.key_at(o2[k])] == o2[k] by {
            assert(o2[k] == o[Self::moved_from(i, k)]);
        }
    }

    proof fn lemma_moved_front_index_dom(a: Self, b: Self, s: usize, i: int)
        requires
            Self::moved_front(a, b, s, i),
        ensures
            forall|key2: K|
                #![trigger b.index@.contains_key(key2)]
                b.index@.contains_key(key2) ==> b.order@.contains(b.index@[key2]),
    {
        let o = a.order@;
        let o2 = b.order@;
        assert forall|key2: K| #![trigger b.index@.contains_key(key2)]
            b.index@.contains_key(key2) implies o2.contains(b.index@[key2]) by {
            let t = a.index@[key2];
            assert(o.contains(t));
            let j = choose|j: int| 0 <= j < o.len() && o[j] == t;
            let k = if j == i {
                0
            } else if j < i {
                j + 1
            } else {
                j
            };
            assert(o2[k] == t);
        }
    }

    proof fn lemma_moved_front_recency(a: Self, b: Self, i: int)
        requires
            0 <= i < a.order@.len(),
            b.entries == a.entries,
            b.order@.len() == a.order@.len(),
            forall|k: int|
                #![trigger b.order@[k]]
                0 <= k < b.order@.len() ==> b.order@[k] == a.order@[Self::moved_from(i, k)],
        ensures
            b.recency() == seq![a.recency()[i]] + a.recency().remove(i),
    {
        let r = seq![a.recency()[i]] + a.recency().remove(i);
        assert forall|k: int| 0 <= k < b.order@.len() implies b.recency()[k] == r[k] by {
            assert(b.order@[k] == a.order@[Self::moved_from(i, k)]);
        }
        assert(b.recency() =~= r);
    }

    proof fn lemma_moved_front(a: Self, b: Self, s: usize, i: int)
        requires
            Self::moved_front(a, b, s, i),
        ensures
            b.wf(),
            b.recency() == seq![a.recency()[i]] + a.recency().remove(i),
            b.store() == a.store(),
    {
        Self::lemma_moved_front_order(a, b, s, i);
        Self::lemma_moved_front_index(a, b, s, i);
        Self::lemma_moved_front_index_dom(a, b, s, i);
        Self::lemma_moved_front_recency(a, b, i);
    }

    /// `b` is `a` with a new value in the listed slot `s`.
    proof fn lemma_replaced(a: Self, b: Self, s: usize, i: int, value: V)
        requires
            a.wf(),
            0 <= i < a.order@.len(),
            a.order@[i] == s,
            b.entries@ == a.entries@.update(s as int, Some(Entry { key: a.key_at(s), value })),
            b.links == a.links,
            b.head == a.head,
            b.tail == a.tail,
            b.order == a.order,
            b.free == a.free,
            b.index == a.index,
            b.len == a.len,
            b.capacity == a.capacity,
        ensures
            b.wf(),
            b.recency() == a.recency(),
            b.store() == a.store().insert(a.recency()[i], value),
    {
        let key = a.key_at(s);
        assert(a.index@[key] == s);
        assert forall|t: usize| t < b.entries@.len() implies #[trigger] b.key_at(t) == a.key_at(t)
            && (b.entries@[t as int] is Some <==> a.entries@[t as int] is Some) by {}
        assert(b.recency() =~= a.recency());
        assert forall|key2: K| #[trigger] b.index@.contains_key(key2) && key2 != key implies b.value_at(
            b.index@[key2]) == a.value_at(a.index@[key2]) by {
            assert(a.index@.contains_key(key2));
            assert(a.index@[key2] != s);
        }
        assert(b.store() =~= a.store().insert(key, value));
    }

    /// `b` is `a` with the slot at position `i` unlinked, emptied and freed.
    spec fn removed(a: Self, b: Self, s: usize, i: int) -> bool {
        &&& a.wf()
        &&& 0 <= i < a.order@.len()
        &&& a.order@[i] == s
        &&& linked(b.order@, b.links@)
        &&& b.links@.len() == b.entries@.len()
        &&& b.head == (if b.order@.len() == 0 {
            None
        } else {
            Some(b.order@[0])
        })
        &&& b.tail == (if b.order@.len() == 0 {
            None
        } else {
            Some(b.order@[b.order@.len() - 1])
        })
        &&& b.order@ == a.order@.remove(i)
        &&& b.capacity == a.capacity
        &&& b.entries@ == a.entries@.update(s as int, None)
        &&& b.index@ == a.index@.remove(a.key_at(s))
        &&& b.free@ == a.free@.push(s)
        &&& b.len == a.len - 1
    }

    proof fn lemma_removed_order(a: Self, b: Self, s: usize, i: int)
        requires
            Self::removed(a, b, s, i),
        ensures
            forall|k: int|
                #![trigger b.order@[k]]
                0 <= k < b.order@.len() ==> {
                    &&& b.order@[k] != s
                    &&& b.order@[k] == a.order@[if k < i {
                        k
                    } else {
                        k + 1
                    }]
                    &&& b.order@[k] < b.entries@.len()
                    &&& b.entries@[b.order@[k] as int] is Some
                    &&& b.key_at(b.order@[k]) == a.key_at(b.order@[k])
                    &&& b.value_at(b.order@[k]) == a.value_at(b.order@[k])
                },
            b.order@.no_duplicates(),
            b.list_wf(),
    {
        let o = a.order@;
        let o2 = b.order@;
        assert forall|k: int|
            #![trigger o2[k]]
            0 <= k < o2.len() implies {
            &&& o2[k] != s
            &&& o2[k] == o[if k < i {
                k
            } else {
                k + 1
            }]
        } by {
            if k >= i {
                assert(o[k + 1] != o[i]);
            }
        }
        assert forall|x: int, y: int|
            0 <= x < o2.len() && 0 <= y < o2.len() && x != y implies o2[x] != o2[y] by {
            assert(o2[x] == o[if x < i {
                x
            } else {
                x + 1
            }]);
            assert(o2[y] == o[if y < i {
                y
            } else {
                y + 1
            }]);
        }
    }

    proof fn lemma_removed_free(a: Self, b: Self, s: usize, i: int)
        requires
            Self::removed(a, b, s, i),
        ensures
            b.free@.no_duplicates(),
            forall|j: int|
                #![trigger b.free@[j]]
                0 <= j < b.free@.len() ==> b.free@[j] < b.entries@.len() && b.entries@[b.free@[j] as int] is None,
    {
        assert(a.entries@[s as int] is Some);
        assert forall|j: int| #![trigger b.free@[j]] 0 <= j < b.free@.len() implies b.free@[j]
            < b.entries@.len() && b.entries@[b.free@[j] as int] is None by {
            if j < b.free@.len() - 1 {
                assert(b.free@[j] == a.free@[j]);
            }
        }
        assert forall|x: int, y: int|
            0 <= x < b.free@.len() && 0 <= y < b.free@.len() && x != y implies b.free@[x]
            != b.free@[y] by {
            if x < b.free@.len() - 1 {
                assert(b.free@[x] == a.free@[x]);
            }
            if y < b.free@.len() - 1 {
                assert(b.free@[y] == a.free@[y]);
            }
        }
    }

    proof fn lemma_removed_index(a: Self, b: Self, s: usize, i: int)
        requires
            Self::removed(a, b, s, i),
        ensures
            forall|k: int|
                #![trigger b.order@[k]]
                0 <= k < b.order@.len() ==> b.index@.contains_key(b.key_at(b.order@[k]))
                    && b.index@[b.key_at(b.order@[k])] == b.order@[k],
    {
        Self::lemma_removed_order(a, b, s, i);
        let o = a.order@;
        let o2 = b.order@;
        let key = a.key_at(s);
        assert(a.index@[key] == s);
        assert forall|k: int| #![trigger o2[k]] 0 <= k < o2.len() implies b.index@.contains_key(
            b.key_at(o2[k])) && b.index@[b.key_at(o2[k])] == o2[k] by {
            let j = if k < i {
                k
            } else {
                k + 1
            };
            assert(o[j] == o2[k]);
        }
    }

    proof fn lemma_removed_index_dom(a: Self, b: Self, s: usize, i: int)
        requires
            Self::removed(a, b, s, i),
        ensures
            forall|key2: K|
                #![trigger b.index@.contains_key(key2)]
                b.index@.contains_key(key2) ==> b.order@.contains(b.index@[key2]) && b.key_at(
                    b.index@[key2],
                ) == key2,
    {
        let o = a.order@;
        let o2 = b.order@;
        let key = a.key_at(s);
        assert(a.index@[key] == s);
        assert forall|key2: K| #![trigger b.index@.contains_key(key2)]
            b.index@.contains_key(key2) implies o2.contains(b.index@[key2]) && b.key_at(
            b.index@[key2]) == key2 by {
            let t = a.index@[key2];
            assert(a.index@.contains_key(key2));
            assert(key2 != key);
            assert(b.index@[key2] == t);
            assert(o.contains(t));
            let j = choose|j: int| 0 <= j < o.len() && o[j] == t;
            assert(j != i);
            let k = if j < i {
                j
            } else {
                j - 1
            };
            assert(o2[k] == o[j]);
            assert(b.entries@[t as int] == a.entries@[t as int]);
        }
    }

    proof fn lemma_removed_recency(a: Self, b: Self, i: int)
        requires
            0 <= i < a.order@.len(),
            b.order@ == a.order@.remove(i),
            forall|k: int|
                #![trigger b.order@[k]]
                0 <= k < b.order@.len() ==> b.key_at(b.order@[k]) == a.key_at(b.order@[k]),
        ensures
            b.recency() == a.recency().remove(i),
    {
        assert(b.recency() =~= a.recency().remove(i));
    }

    proof fn lemma_removed_store(a: Self, b: Self, s: usize, i: int)
        requires
            Self::removed(a, b, s, i),
        ensures
            b.store() == a.store().remove(a.key_at(s)),
    {
        let key = a.key_at(s);
        assert(a.index@[key] == s);
        assert forall|key2: K| #[trigger] b.index@.contains_key(key2) implies b.value_at(
            b.index@[key2]) == a.value_at(a.index@[key2]) by {
            let t = a.index@[key2];
            assert(a.index@.contains_key(key2));
            assert(key2 != key);
            assert(b.index@[key2] == t);
            assert(t != s);
            assert(b.entries@[t as int] == a.entries@[t as int]);
        }
        assert(b.store() =~= a.store().remove(key));
    }

    proof fn lemma_removed(a: Self, b: Self, s: usize, i: int)
        requires
            Self::removed(a, b, s, i),
        ensures
            b.wf(),
            b.recency() == a.recency().remove(i),
            b.store() == a.store().remove(a.key_at(s)),
    {
        Self::lemma_removed_order(a, b, s, i);
        Self::lemma_removed_free(a, b, s, i);
        Self::lemma_removed_index(a, b, s, i);
        Self::lemma_removed_index_dom(a, b, s, i);
        Self::lemma_removed_recency(a, b, i);
        Self::lemma_removed_store(a, b, s, i);
    }
}

/// The neighbour before position `k` of `o`, if any.
spec fn prev_of(o: Seq<usize>, k: int) -> Option<usize> {
    if k == 0 {
        None
    } else {
        Some(o[k - 1])
    }
}

/// The neighbour after position `k` of `o`, if any.
spec fn next_of(o: Seq<usize>, k: int) -> Option<usize> {
    if k == o.len() - 1 {
        None
    } else {
        Some(o[k + 1])
    }
}

/// Each slot of `o` records its neighbours in `o` as its links.
spec fn linked(o: Seq<usize>, l: Seq<Link>) -> bool {
    forall|k: int|
        #![trigger o[k]]
        0 <= k < o.len() ==> l[o[k] as int].prev == prev_of(o, k) && l[o[k] as int].next
            == next_of(o, k)
}

proof fn lemma_linked_remove(o: Seq<usize>, l0: Seq<Link>, l1: Seq<Link>, i: int)
    requires
        linked(o, l0),
        o.no_duplicates(),
        0 <= i < o.len(),
        l1.len() == l0.len(),
        forall|k: int| #![trigger o[k]] 0 <= k < o.len() ==> o[k] < l0.len(),
        forall|t: int|
            0 <= t < l0.len() && (i == 0 || t != o[i - 1]) && (i == o.len() - 1 || t != o[i + 1])
                ==> #[trigger] l1[t] == l0[t],
        i > 0 ==> l1[o[i - 1] as int] == (Link {
            prev: l0[o[i - 1] as int].prev,
            next: l0[o[i] as int].next,
        }),
        i < o.len() - 1 ==> l1[o[i + 1] as int] == (Link {
            prev: l0[o[i] as int].prev,
            next: l0[o[i + 1] as int].next,
        }),
    ensures
        linked(o.remove(i), l1),
        o.remove(i).no_duplicates(),
{
    let o2 = o.remove(i);
    assert forall|k: int|
        #![trigger o2[k]]
        0 <= k < o2.len() implies l1[o2[k] as int].prev == prev_of(o2, k) && l1[o2[k] as int].next
        == next_of(o2, k) by {
        let j = if k < i {
            k
        } else {
            k + 1
        };
        assert(o2[k] == o[j]);
        assert(o[j] < l0.len());
        if k > 0 {
            if k - 1 < i {
                assert(o2[k - 1] == o[k - 1]);
            } else {
                assert(o2[k - 1] == o[k]);
            }
        }
        if k + 1 < o2.len() {
            if k + 1 < i {
                assert(o2[k + 1] == o[k + 1]);
            } else {
                assert(o2[k + 1] == o[k + 2]);
            }
        }
        if i > 0 && j == i - 1 {
        } else if i < o.len() - 1 && j == i + 1 {
        } else {
            if i > 0 {
                assert(o[j] != o[i - 1]);
            }
            if i < o.len() - 1 {
                assert(o[j] != o[i + 1]);
            }
            assert(l1[o[j] as int] == l0[o[j] as int]);
        }
    }
    assert forall|a: int, b: int|
        0 <= a < o2.len() && 0 <= b < o2.len() && a != b implies o2[a] != o2[b] by {
        let ja = if a < i {
            a
        } else {
            a + 1
        };
        let jb = if b < i {
            b
        } else {
            b + 1
        };
        assert(o2[a] == o[ja]);
        assert(o2[b] == o[jb]);
    }
}

proof fn lemma_linked_push_front(o: Seq<usize>, l0: Seq<Link>, l1: Seq<Link>, s: usize)
    requires
        linked(o, l0),
        !o.contains(s),
        s < l0.len(),
        l1.len() == l0.len(),
        forall|k: int| #![trigger o[k]] 0 <= k < o.len() ==> o[k] < l0.len(),
        forall|t: int|
            0 <= t < l0.len() && t != s && (o.len() == 0 || t != o[0]) ==> #[trigger] l1[t]
                == l0[t],
        l1[s as int] == (Link { prev: None, next: if o.len() == 0 {
            None
        } else {
            Some(o[0])
        } }),
        o.len() > 0 ==> l1[o[0] as int] == (Link { prev: Some(s), next: l0[o[0] as int].next }),
    ensures
        linked(seq![s] + o, l1),
{
    let o2 = seq![s] + o;
    assert forall|k: int|
        #![trigger o2[k]]
        0 <= k < o2.len() implies l1[o2[k] as int].prev == prev_of(o2, k) && l1[o2[k] as int].next
        == next_of(o2, k) by {
        if k > 0 {
            assert(o2[k] == o[k - 1]);
            assert(o[k - 1] != s);
            if k > 1 {
                assert(o2[k - 1] == o[k - 2]);
            }
            if k + 1 < o2.len() {
                assert(o2[k + 1] == o[k]);
            }
        } else if o.len() > 0 {
            assert(o2[1] == o[0]);
        }
    }
}

} // verus!
