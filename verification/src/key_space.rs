//! The key space: objects by key, in a table that grows by moving its
//! entries to a larger table a few at a time, so that no single operation
//! pays for the whole move.

use hashbrown::HashMap;
use rand::{thread_rng, Rng};
use vstd::prelude::*;
use vstd::slice::slice_to_vec;

verus! {

/// The capacity of the first table.
pub const MIN_NUM_BUCKETS: usize = 16;

/// How many entries one step moves beyond the first.
pub const ADVANCE_STEP: usize = 64;

/// The largest capacity that a table is made with.
pub const MAX_CAPACITY: usize = usize::MAX / 512;

/// At least 86 of 100 places are taken.
pub open spec fn crowded(len: nat, capacity: nat) -> bool {
    len * 100 >= 86 * capacity
}

/// Whether a table with `len` entries and room for `capacity` is so
/// crowded that its entries are to move to a larger one.
pub fn is_crowded(len: usize, capacity: usize) -> (full: bool)
    ensures
        full == crowded(len as nat, capacity as nat),
{
    proof {
        assert(len * 100 <= u128::MAX && 86 * capacity <= u128::MAX) by (nonlinear_arith)
            requires
                len <= u64::MAX,
                capacity <= u64::MAX,
        ;
    }
    (len as u128) * 100 >= 86 * (capacity as u128)
}

/// The capacity of the table that takes over from one of `capacity`:
/// twice as much. `None` where that is more than a table can have.
pub fn grown_capacity(capacity: usize) -> (grown: Option<usize>)
    ensures
        match grown {
            Some(grown) => grown == 2 * capacity && grown <= MAX_CAPACITY,
            None => 2 * capacity > MAX_CAPACITY,
        },
{
    if capacity <= MAX_CAPACITY / 2 {
        Some(capacity * 2)
    } else {
        None
    }
}

/// Whether a step that has moved `advanced` entries is over.
pub fn step_is_over(advanced: usize) -> (over: bool)
    ensures
        over == (advanced > ADVANCE_STEP),
{
    advanced > ADVANCE_STEP
}

/// A table of objects by key: a `hashbrown::HashMap` from the key's bytes to
/// a number that stands for the object. The map's allocator parameter is
/// bound by a trait that hashbrown keeps to itself, so that the map cannot be
/// described to the verifier as a type of its own; it is held here where the
/// verifier does not look, and everything known of it is what the methods
/// below say of `objects_of`.
#[verifier::external_body]
pub struct Space {
    map: HashMap<Vec<u8>, u64>,
}

/// The objects that a table holds, by key.
pub uninterp spec fn objects_of(space: Space) -> Map<Seq<u8>, u64>;

/// A table without objects.
pub open spec fn no_objects() -> Map<Seq<u8>, u64> {
    Map::empty()
}

/// The number of objects, where there are finitely many.
pub open spec fn count_of(objects: Map<Seq<u8>, u64>, len: nat) -> bool {
    objects.dom().finite() && objects.len() == len
}

/// The object that `objects` holds under `key`, if it holds one.
pub open spec fn object_at(objects: Map<Seq<u8>, u64>, key: Seq<u8>) -> Option<u64> {
    if objects.contains_key(key) {
        Some(objects[key])
    } else {
        None
    }
}

/// `object` is stored under some key.
pub open spec fn holds_object(objects: Map<Seq<u8>, u64>, object: u64) -> bool {
    exists|key: Seq<u8>| #[trigger] objects.contains_key(key) && objects[key] == object
}

/// Each of `found` is an object of `objects`.
pub open spec fn all_among(found: Seq<u64>, objects: Map<Seq<u8>, u64>) -> bool {
    forall|i: int| 0 <= i < found.len() ==> holds_object(objects, #[trigger] found[i])
}

/// `limit` of `available`, or all that are available if they are fewer.
pub open spec fn up_to(limit: nat, available: nat) -> nat {
    if limit <= available {
        limit
    } else {
        available
    }
}

/// How many objects a walk yields that skips `skip` of `len` and then takes
/// at most `limit`.
pub open spec fn walk_len(len: nat, skip: nat, limit: nat) -> nat {
    if skip >= len {
        0
    } else if limit <= len - skip {
        limit
    } else {
        (len - skip) as nat
    }
}

/// Objects found in two walks over a table are objects of the table.
pub proof fn lemma_all_among_both(first: Seq<u64>, second: Seq<u64>, objects: Map<Seq<u8>, u64>)
    requires
        all_among(first, objects),
        all_among(second, objects),
    ensures
        all_among(first + second, objects),
{
    let both = first + second;
    assert forall|i: int| 0 <= i < both.len() implies holds_object(objects, #[trigger] both[i]) by {
        if i < first.len() {
            assert(holds_object(objects, first[i]));
        } else {
            assert(holds_object(objects, second[i - first.len()]));
        }
    }
}

/// Objects of a table are objects of every table that holds all it holds.
pub proof fn lemma_all_among_more(
    found: Seq<u64>,
    objects: Map<Seq<u8>, u64>,
    more: Map<Seq<u8>, u64>,
)
    requires
        all_among(found, objects),
        forall|key: Seq<u8>| #[trigger]
            objects.contains_key(key) ==> more.contains_key(key) && more[key] == objects[key],
    ensures
        all_among(found, more),
{
    assert forall|i: int| 0 <= i < found.len() implies holds_object(more, #[trigger] found[i]) by {
        assert(holds_object(objects, found[i]));
        let key = choose|key: Seq<u8>|
            #[trigger] objects.contains_key(key) && objects[key] == found[i];
        assert(more.contains_key(key) && more[key] == found[i]);
    }
}

/// The items of `items` after the first `skip`, up to `limit` of them.
pub open spec fn window(items: Seq<u64>, skip: nat, limit: nat) -> Seq<u64> {
    if skip >= items.len() {
        Seq::empty()
    } else {
        items.subrange(skip as int, (skip + walk_len(items.len(), skip, limit)) as int)
    }
}

/// Up to `limit` of `items`, taken from item `start` on, where `start` is
/// counted round and round the items, and on from the first item where the
/// last is reached.
pub open spec fn wrapped(items: Seq<u64>, start: nat, limit: nat) -> Seq<u64> {
    let wanted = up_to(limit, items.len());
    if wanted == 0 {
        Seq::empty()
    } else {
        let first = window(items, start % items.len(), wanted);
        first + window(items, 0, (wanted - first.len()) as nat)
    }
}

/// Items out of a run of objects of a table are objects of the table.
pub proof fn lemma_all_among_window(
    items: Seq<u64>,
    skip: nat,
    limit: nat,
    objects: Map<Seq<u8>, u64>,
)
    requires
        all_among(items, objects),
    ensures
        all_among(window(items, skip, limit), objects),
        window(items, skip, limit).len() == walk_len(items.len(), skip, limit),
{
    let found = window(items, skip, limit);
    assert forall|i: int| 0 <= i < found.len() implies holds_object(objects, #[trigger] found[i]) by {
        assert(found[i] == items[skip + i]);
        assert(holds_object(objects, items[skip + i]));
    }
}

/// What is picked round a run of objects of a table are objects of the
/// table, as many as are wanted or as there are.
pub proof fn lemma_wrapped(items: Seq<u64>, start: nat, limit: nat, objects: Map<Seq<u8>, u64>)
    requires
        all_among(items, objects),
    ensures
        all_among(wrapped(items, start, limit), objects),
        wrapped(items, start, limit).len() == up_to(limit, items.len()),
{
    let wanted = up_to(limit, items.len());
    if wanted > 0 {
        let hint = start % items.len();
        let first = window(items, hint, wanted);
        lemma_all_among_window(items, hint, wanted, objects);
        lemma_all_among_window(items, 0, (wanted - first.len()) as nat, objects);
        lemma_all_among_both(
            first,
            window(items, 0, (wanted - first.len()) as nat),
            objects,
        );
    }
}

impl Space {
    /// Calls `HashMap::with_capacity`, which makes an empty map. It panics
    /// where the capacity is more than a table can be laid out for; for a
    /// capacity of at most `MAX_CAPACITY` the layout fits.
    #[verifier::external_body]
    fn with_capacity(capacity: usize) -> (made: Space)
        requires
            capacity <= MAX_CAPACITY,
        ensures
            objects_of(made) == no_objects(),
    {
        Space { map: HashMap::with_capacity(capacity) }
    }

    /// Calls `HashMap::get`, which finds the value stored under the key.
    #[verifier::external_body]
    fn lookup(&self, key: &[u8]) -> (found: Option<u64>)
        ensures
            found == object_at(objects_of(*self), key@),
    {
        self.map.get(key).copied()
    }

    /// Calls `HashMap::insert`, which stores the value under the key and
    /// returns the value that was stored there before.
    #[verifier::external_body]
    fn put(&mut self, key: Vec<u8>, object: u64) -> (before: Option<u64>)
        ensures
            objects_of(*final(self)) == objects_of(*old(self)).insert(key@, object),
            before == object_at(objects_of(*old(self)), key@),
    {
        self.map.insert(key, object)
    }

    /// Calls `HashMap::remove`, which takes out the value stored under the
    /// key and returns it.
    #[verifier::external_body]
    fn take(&mut self, key: &[u8]) -> (before: Option<u64>)
        ensures
            objects_of(*final(self)) == objects_of(*old(self)).remove(key@),
            before == object_at(objects_of(*old(self)), key@),
    {
        self.map.remove(key)
    }

    /// Calls `HashMap::len`, the number of entries. A map holds finitely
    /// many.
    #[verifier::external_body]
    fn count(&self) -> (len: usize)
        ensures
            count_of(objects_of(*self), len as nat),
    {
        self.map.len()
    }

    /// Calls `HashMap::capacity`, the number of entries that the map has
    /// room for. How much room a map has made is its own business, and
    /// nothing is claimed of it.
    #[verifier::external_body]
    fn room(&self) -> (capacity: usize) {
        self.map.capacity()
    }

    /// Calls `HashMap::keys` and takes a copy of the first key that the walk
    /// yields: some key of the map, no matter which, or none if the map is
    /// empty.
    #[verifier::external_body]
    fn some_key(&self) -> (key: Option<Vec<u8>>)
        ensures
            match key {
                Some(key) => objects_of(*self).contains_key(key@),
                None => objects_of(*self) == no_objects(),
            },
    {
        self.map.keys().next().cloned()
    }

    /// Calls `HashMap::drain`, which empties the map and yields what it
    /// held, and collects the values: as many as there were entries, each
    /// one a value of the map.
    #[verifier::external_body]
    fn drain(&mut self) -> (found: Vec<u64>)
        ensures
            objects_of(*final(self)) == no_objects(),
            count_of(objects_of(*old(self)), found@.len()),
            all_among(found@, objects_of(*old(self))),
    {
        self.map.drain().map(|entry| entry.1).collect()
    }

    /// Calls `HashMap::values` and copies what the walk yields: the value of
    /// every entry, in the order of the walk, which is the map's own
    /// business.
    #[verifier::external_body]
    fn values(&self) -> (found: Vec<u64>)
        ensures
            count_of(objects_of(*self), found@.len()),
            all_among(found@, objects_of(*self)),
    {
        self.map.values().copied().collect()
    }
}

/// Calls `Rng::gen` on the thread's generator: a number drawn at random,
/// of which nothing is known beforehand.
#[verifier::external_body]
fn random_index() -> usize {
    thread_rng().gen::<usize>()
}

/// The items of `items` after the first `skip`, up to `limit` of them.
pub fn take_window(items: &Vec<u64>, skip: usize, limit: usize) -> (found: Vec<u64>)
    ensures
        found@ == window(items@, skip as nat, limit as nat),
{
    let mut found: Vec<u64> = Vec::new();
    if skip >= items.len() {
        return found;
    }
    let left = items.len() - skip;
    let count = if limit <= left {
        limit
    } else {
        left
    };
    let mut i: usize = 0;
    while i < count
        invariant
            i <= count,
            skip + count <= items.len(),
            found@ == items@.subrange(skip as int, skip + i),
        decreases count - i,
    {
        found.push(items[skip + i]);
        proof {
            assert(found@ =~= items@.subrange(skip as int, skip + i + 1));
        }
        i += 1;
    }
    found
}

/// Picks up to `limit` of `items`: from item `start` on, counted round and
/// round the items, and on from the first item where the last is reached.
pub fn pick_around(items: &Vec<u64>, start: usize, limit: usize) -> (found: Vec<u64>)
    ensures
        found@ == wrapped(items@, start as nat, limit as nat),
{
    let len = items.len();
    let limit = if len < limit {
        len
    } else {
        limit
    };
    if limit == 0 {
        return Vec::new();
    }
    let mut objects = take_window(items, start % len, limit);
    if objects.len() < limit {
        let mut more = take_window(items, 0, limit - objects.len());
        objects.append(&mut more);
    } else {
        proof {
            assert(objects@ + window(items@, 0, 0) =~= objects@);
        }
    }
    objects
}

/// The key space: every object under its key.
///
/// While entries move from the table in use to a larger one, both tables
/// hold objects, and no key is in both.
pub struct KeySpace {
    current_space: Space,
    next_space: Option<Space>,
}

impl KeySpace {
    /// The objects of the table in use.
    pub closed spec fn current(&self) -> Map<Seq<u8>, u64> {
        objects_of(self.current_space)
    }

    /// The objects of the table that takes over, while entries move.
    pub closed spec fn next(&self) -> Option<Map<Seq<u8>, u64>> {
        match self.next_space {
            Some(space) => Some(objects_of(space)),
            None => None,
        }
    }

    /// Entries are on the move to a larger table.
    pub open spec fn rehashing(&self) -> bool {
        self.next() is Some
    }

    /// Every object of the key space, by key.
    pub open spec fn objects(&self) -> Map<Seq<u8>, u64> {
        match self.next() {
            Some(next) => self.current().union_prefer_right(next),
            None => self.current(),
        }
    }

    /// Both tables hold finitely many objects, and no key is in both.
    pub open spec fn valid(&self) -> bool {
        &&& self.current().dom().finite()
        &&& self.next() matches Some(next) ==> next.dom().finite() && self.current().dom().disjoint(
            next.dom(),
        )
    }

    /// The table in use.
    pub fn current_space(&self) -> (space: &Space)
        ensures
            objects_of(*space) == self.current(),
    {
        &self.current_space
    }

    /// Picks up to `limit` objects of a table: all its objects are laid out
    /// in the table's own order, and picked from a place drawn at random
    /// on, going round to the first where the last is reached.
    pub fn random_objects_from_space(space: &Space, limit: usize) -> (found: Vec<u64>)
        ensures
            objects_of(*space).dom().finite(),
            found@.len() == up_to(limit as nat, objects_of(*space).len()),
            all_among(found@, objects_of(*space)),
    {
        let values = space.values();
        let index = random_index();
        proof {
            lemma_wrapped(values@, index as nat, limit as nat, objects_of(*space));
        }
        pick_around(&values, index, limit)
    }

    /// An empty key space.
    pub fn new() -> (space: KeySpace)
        ensures
            space.valid(),
            !space.rehashing(),
            space.objects() == no_objects(),
    {
        KeySpace { current_space: Space::with_capacity(MIN_NUM_BUCKETS), next_space: None }
    }

    /// Stores `object` under `key`. Returns the object that it replaces:
    /// the one stored under `key` before, unless entries are on the move
    /// and that one has not moved yet, in which case it is dropped from the
    /// key space and `None` is returned.
    pub fn insert(&mut self, key: &[u8], object: u64) -> (replaced: Option<u64>)
        requires
            old(self).valid(),
        ensures
            final(self).valid(),
            final(self).objects() == old(self).objects().insert(key@, object),
            replaced matches Some(before) ==> object_at(old(self).objects(), key@) == Some(before),
            replaced is None ==> !old(self).objects().contains_key(key@) || old(self).rehashing(),
    {
        self.advance_rehash();
        let ghost current = self.current();
        match self.next_space.take() {
            Some(next) => {
                let mut next = next;
                let ghost before = objects_of(next);
                let replaced = next.put(slice_to_vec(key), object);
                let replaced = if replaced.is_some() {
                    replaced
                } else {
                    self.current_space.take(key);
                    None
                };
                self.next_space = Some(next);
                proof {
                    assert(self.objects() =~= current.union_prefer_right(before).insert(
                        key@,
                        object,
                    ));
                }
                replaced
            },
            None => {
                let replaced = self.current_space.put(slice_to_vec(key), object);
                if replaced.is_none() {
                    self.ensure_enough_space();
                }
                replaced
            },
        }
    }

    /// Takes out the object stored under `key` and returns it.
    pub fn remove(&mut self, key: &[u8]) -> (removed: Option<u64>)
        requires
            old(self).valid(),
        ensures
            final(self).valid(),
            final(self).objects() == old(self).objects().remove(key@),
            removed == object_at(old(self).objects(), key@),
    {
        self.advance_rehash();
        let ghost current = self.current();
        match self.next_space.take() {
            Some(next) => {
                let mut next = next;
                let ghost before = objects_of(next);
                let removed = next.take(key);
                self.next_space = Some(next);
                if removed.is_some() {
                    proof {
                        assert(self.objects() =~= current.union_prefer_right(before).remove(key@));
                    }
                    return removed;
                }
                let removed = self.current_space.take(key);
                proof {
                    assert(self.objects() =~= current.union_prefer_right(before).remove(key@));
                }
                removed
            },
            None => self.current_space.take(key),
        }
    }

    /// The object stored under `key`.
    pub fn get(&mut self, key: &[u8]) -> (found: Option<u64>)
        requires
            old(self).valid(),
        ensures
            final(self).valid(),
            final(self).objects() == old(self).objects(),
            found == object_at(old(self).objects(), key@),
    {
        self.advance_rehash();
        match &self.next_space {
            Some(next) => {
                let found = next.lookup(key);
                if found.is_some() {
                    return found;
                }
            },
            None => {},
        }
        self.current_space.lookup(key)
    }

    /// Moves some entries on to the larger table, if entries are on the
    /// move: one more than `ADVANCE_STEP` if the table in use holds as many,
    /// and else all that it holds, upon which the larger table becomes the
    /// table in use.
    pub fn advance_rehash(&mut self)
        requires
            old(self).valid(),
        ensures
            final(self).valid(),
            final(self).objects() == old(self).objects(),
            !old(self).rehashing() ==> {
                &&& !final(self).rehashing()
                &&& final(self).current() == old(self).current()
            },
            old(self).next() matches Some(next) ==> if old(self).current().len() > ADVANCE_STEP {
                &&& final(self).next() matches Some(grown) && grown.len() == next.len()
                    + ADVANCE_STEP + 1
                &&& final(self).current().len() + ADVANCE_STEP + 1 == old(self).current().len()
            } else {
                !final(self).rehashing()
            },
    {
        let mut next = match self.next_space.take() {
            Some(next) => next,
            None => {
                return ;
            },
        };
        let mut advanced: usize = 0;
        loop
            invariant
                old(self).valid(),
                old(self).rehashing(),
                self.next_space is None,
                advanced <= ADVANCE_STEP,
                self.current().dom().finite(),
                objects_of(next).dom().finite(),
                self.current().dom().disjoint(objects_of(next).dom()),
                self.current().union_prefer_right(objects_of(next)) == old(self).objects(),
                self.current().len() + advanced == old(self).current().len(),
                objects_of(next).len() == old(self).next()->0.len() + advanced,
            decreases ADVANCE_STEP + 1 - advanced,
        {
            let ghost current = self.current();
            let ghost moved = objects_of(next);
            match self.current_space.some_key() {
                Some(key) => {
                    match self.current_space.take(key.as_slice()) {
                        Some(object) => {
                            next.put(key, object);
                            proof {
                                assert(self.current().union_prefer_right(objects_of(next))
                                    =~= current.union_prefer_right(moved));
                            }
                        },
                        None => {},
                    }
                    advanced += 1;
                    if step_is_over(advanced) {
                        self.next_space = Some(next);
                        return ;
                    }
                },
                None => {
                    // Rehash is finished.
                    proof {
                        assert(current.union_prefer_right(moved) =~= moved);
                        assert(current.len() == 0);
                    }
                    self.current_space = next;
                    return ;
                },
            }
        }
    }

    /// Starts moving the entries to a table of twice the capacity if the
    /// table in use is crowded.
    fn ensure_enough_space(&mut self)
        requires
            old(self).valid(),
        ensures
            final(self).valid(),
            final(self).objects() == old(self).objects(),
    {
        if self.next_space.is_some() {
            return ;
        }
        // Only consider expansion.
        let cap = self.current_space.room();
        let len = self.current_space.count();
        if is_crowded(len, cap) {
            match grown_capacity(cap) {
                Some(grown) => {
                    self.next_space = Some(Space::with_capacity(grown));
                    proof {
                        assert(self.current().union_prefer_right(no_objects()) =~= self.current());
                    }
                    self.advance_rehash();
                },
                None => {},
            }
        }
    }

    /// Empties the table that takes over, if entries are on the move, and
    /// returns the objects that it held.
    pub fn drain_next_space(&mut self) -> (drained: Option<Vec<u64>>)
        requires
            old(self).valid(),
        ensures
            final(self).valid(),
            final(self).current() == old(self).current(),
            match drained {
                Some(found) => {
                    &&& old(self).next() matches Some(next) && count_of(next, found@.len())
                        && all_among(found@, next)
                    &&& final(self).next() == Some(no_objects())
                },
                None => old(self).next() is None && final(self).next() is None,
            },
    {
        match self.next_space.take() {
            Some(next) => {
                let mut next = next;
                let found = next.drain();
                self.next_space = Some(next);
                Some(found)
            },
            None => None,
        }
    }

    /// Empties the table in use and returns the objects that it held.
    pub fn drain_current_space(&mut self) -> (found: Vec<u64>)
        requires
            old(self).valid(),
        ensures
            final(self).valid(),
            final(self).next() == old(self).next(),
            final(self).current() == no_objects(),
            count_of(old(self).current(), found@.len()),
            all_among(found@, old(self).current()),
    {
        self.current_space.drain()
    }

    /// Select maximum `limit` objects randomly from key space: objects of
    /// the table in use, and, if they are fewer than `limit`, objects of
    /// the table that takes over.
    pub fn random_objects(&mut self, limit: usize) -> (found: Vec<u64>)
        requires
            old(self).valid(),
        ensures
            final(self).valid(),
            final(self).current() == old(self).current(),
            final(self).next() == old(self).next(),
            all_among(found@, old(self).objects()),
            old(self).current().dom().finite(),
            if limit <= old(self).current().len() {
                found@.len() == limit
            } else {
                match old(self).next() {
                    Some(next) => next.dom().finite() && found@.len() == old(self).current().len()
                        + up_to((limit - old(self).current().len()) as nat, next.len()),
                    None => found@.len() == old(self).current().len(),
                }
            },
    {
        let mut objects = Self::random_objects_from_space(&self.current_space, limit);
        let ghost first = objects@;
        proof {
            lemma_all_among_more(first, self.current(), self.objects());
        }
        let left = limit - objects.len();
        if left > 0 {
            match &self.next_space {
                Some(next_space) => {
                    let mut more = Self::random_objects_from_space(next_space, left);
                    let ghost second = more@;
                    objects.append(&mut more);
                    proof {
                        lemma_all_among_more(second, objects_of(*next_space), self.objects());
                        lemma_all_among_both(first, second, self.objects());
                    }
                },
                None => {},
            }
        }
        objects
    }
}

impl Default for KeySpace {
    fn default() -> (space: KeySpace)
        ensures
            space.valid(),
            !space.rehashing(),
            space.objects() == no_objects(),
    {
        KeySpace::new()
    }
}

} // verus!
