//! The open-addressed table itself.
//!
//! The backing store is one `Vec` of slots; a slot is empty, a tombstone
//! left by a deletion, or occupied by a key-value pair.  A probe walks
//! linearly forward (wrapping around) from the key's home slot.  The
//! abstract model of the table is a `Map` from key views to values, and
//! every public operation says in its contract how it reads or changes
//! that map.

use vstd::prelude::*;
use vstd::pervasive::VecAdditionalExecFns;
use crate::key::HashKey;

verus! {

/// Smallest backing-array size; requested capacities are clamped up to it.
pub const MIN_CAPACITY: usize = 16;

/// One slot of the backing array.
#[derive(Debug, Clone)]
enum Entry<K, V> {
    /// Never occupied since the array was (re)built; ends any probe.
    Empty,
    /// Previously occupied, now logically deleted; probes walk past it.
    Tombstone,
    /// Holds one live key-value pair.
    Occupied { key: K, value: V },
}

/// A hash map using open addressing with linear probing and
/// tombstone-based deletion.
#[derive(Debug, Clone)]
pub struct HashMap<K, V> {
    entries: Vec<Entry<K, V>>,
    size: usize,
    tombstones: usize,
}

/// The key view stored in an occupied slot.
spec fn entry_key<K: HashKey, V>(e: Entry<K, V>) -> K::V {
    match e {
        Entry::Occupied { key, .. } => key@,
        _ => arbitrary(),
    }
}

/// The value stored in an occupied slot.
spec fn entry_value<K: HashKey, V>(e: Entry<K, V>) -> V {
    match e {
        Entry::Occupied { value, .. } => value,
        _ => arbitrary(),
    }
}

/// Slot `i` holds the key whose view is `kv`.
spec fn slot_has_key<K: HashKey, V>(s: Seq<Entry<K, V>>, i: int, kv: K::V) -> bool {
    0 <= i < s.len() && s[i] is Occupied && entry_key(s[i]) == kv
}

/// Some slot holds the key whose view is `kv`.
spec fn has_key<K: HashKey, V>(s: Seq<Entry<K, V>>, kv: K::V) -> bool {
    exists|i: int| slot_has_key(s, i, kv)
}

/// The value associated with `kv`, read from its (unique) slot.
spec fn value_for<K: HashKey, V>(s: Seq<Entry<K, V>>, kv: K::V) -> V {
    let i = choose|i: int| slot_has_key(s, i, kv);
    entry_value(s[i])
}

/// Some key of `m` is bound to the value `v`.
pub open spec fn is_value_of<K, V>(m: Map<K, V>, v: V) -> bool {
    exists|kv: K| #[trigger] m.contains_key(kv) && m[kv] == v
}

/// The pair `p` was read from an occupied slot below `bound`.
spec fn pair_from<K: HashKey, V>(s: Seq<Entry<K, V>>, bound: int, p: (&K, &V)) -> bool {
    exists|j: int| 0 <= j < bound && slot_has_key(s, j, (p.0)@) && entry_value(s[j]) == *(p.1)
}

/// The mapping from key views to values that the slot array represents.
spec fn table_map<K: HashKey, V>(s: Seq<Entry<K, V>>) -> Map<K::V, V> {
    Map::new(|kv: K::V| has_key(s, kv), |kv: K::V| value_for(s, kv))
}

/// Number of occupied slots.
spec fn occupied_count<K, V>(s: Seq<Entry<K, V>>) -> int
    decreases s.len(),
{
    if s.len() == 0 {
        0
    } else {
        occupied_count(s.drop_last()) + if s.last() is Occupied {
            1int
        } else {
            0int
        }
    }
}

/// Number of tombstone slots.
spec fn tombstone_count<K, V>(s: Seq<Entry<K, V>>) -> int
    decreases s.len(),
{
    if s.len() == 0 {
        0
    } else {
        tombstone_count(s.drop_last()) + if s.last() is Tombstone {
            1int
        } else {
            0int
        }
    }
}

/// No two occupied slots hold the same key.
spec fn distinct_keys<K: HashKey, V>(s: Seq<Entry<K, V>>) -> bool {
    forall|i: int, j: int|
        0 <= i < j < s.len() && #[trigger] s[i] is Occupied && #[trigger] s[j] is Occupied
            ==> entry_key(s[i]) != entry_key(s[j])
}

/// The home slot a key's probe sequence starts from.
spec fn home_index<K: HashKey, V>(s: Seq<Entry<K, V>>, kv: K::V) -> int {
    (K::hash_of(kv) as int) % (s.len() as int)
}

/// The slot reached `d` steps after `start`, wrapping around.
spec fn probe_index(cap: int, start: int, d: int) -> int {
    if start + d < cap {
        start + d
    } else {
        start + d - cap
    }
}

/// How many probe steps lead from `start` to `to`.
spec fn probe_distance(cap: int, start: int, to: int) -> int {
    if to >= start {
        to - start
    } else {
        to + cap - start
    }
}

/// An occupied slot is reachable from its key's home slot: no slot
/// strictly before it on the probe path is empty.
spec fn chain_ok<K: HashKey, V>(s: Seq<Entry<K, V>>, i: int) -> bool {
    s[i] is Occupied ==> {
        let cap = s.len() as int;
        let start = home_index(s, entry_key(s[i]));
        forall|d: int|
            0 <= d < probe_distance(cap, start, i) ==> !(#[trigger] s[probe_index(cap, start, d)]
                is Empty)
    }
}

/// Every occupied slot is reachable from its key's home slot.
spec fn chains_ok<K: HashKey, V>(s: Seq<Entry<K, V>>) -> bool {
    forall|i: int| 0 <= i < s.len() ==> #[trigger] chain_ok(s, i)
}

/// Both counters are nonnegative and together never exceed the length.
proof fn lemma_count_bounds<K, V>(s: Seq<Entry<K, V>>)
    ensures
        0 <= occupied_count(s),
        0 <= tombstone_count(s),
        occupied_count(s) + tombstone_count(s) <= s.len(),
    decreases s.len(),
{
    if s.len() > 0 {
        lemma_count_bounds(s.drop_last());
    }
}

/// How replacing one slot changes the two counters.
proof fn lemma_count_update<K, V>(s: Seq<Entry<K, V>>, i: int, e: Entry<K, V>)
    requires
        0 <= i < s.len(),
    ensures
        occupied_count(s.update(i, e)) == occupied_count(s) - (if s[i] is Occupied {
            1int
        } else {
            0int
        }) + (if e is Occupied {
            1int
        } else {
            0int
        }),
        tombstone_count(s.update(i, e)) == tombstone_count(s) - (if s[i] is Tombstone {
            1int
        } else {
            0int
        }) + (if e is Tombstone {
            1int
        } else {
            0int
        }),
    decreases s.len(),
{
    let s2 = s.update(i, e);
    if i == s.len() - 1 {
        assert(s2.drop_last() =~= s.drop_last());
    } else {
        assert(s2.drop_last() =~= s.drop_last().update(i, e));
        lemma_count_update(s.drop_last(), i, e);
    }
}

/// A sequence with no empty slot is entirely occupied or tombstoned.
proof fn lemma_full_counts<K, V>(s: Seq<Entry<K, V>>)
    requires
        forall|i: int| 0 <= i < s.len() ==> !(#[trigger] s[i] is Empty),
    ensures
        occupied_count(s) + tombstone_count(s) == s.len(),
    decreases s.len(),
{
    if s.len() > 0 {
        lemma_full_counts(s.drop_last());
    }
}

/// In an all-empty sequence both counters are zero.
proof fn lemma_blank_counts<K, V>(s: Seq<Entry<K, V>>)
    requires
        forall|i: int| 0 <= i < s.len() ==> #[trigger] s[i] is Empty,
    ensures
        occupied_count(s) == 0,
        tombstone_count(s) == 0,
    decreases s.len(),
{
    if s.len() > 0 {
        lemma_blank_counts(s.drop_last());
    }
}

/// With distinct keys, the slot holding a given key is unique.
proof fn lemma_unique_slot<K: HashKey, V>(s: Seq<Entry<K, V>>, i: int, j: int, kv: K::V)
    requires
        distinct_keys(s),
        slot_has_key(s, i, kv),
        slot_has_key(s, j, kv),
    ensures
        i == j,
{
}

/// Writing an occupied entry with a fresh key into a non-occupied slot
/// adds exactly that binding to the represented map.
proof fn lemma_map_insert<K: HashKey, V>(s: Seq<Entry<K, V>>, i: int, e: Entry<K, V>)
    requires
        0 <= i < s.len(),
        distinct_keys(s),
        !(s[i] is Occupied),
        e is Occupied,
        !has_key(s, entry_key(e)),
    ensures
        distinct_keys(s.update(i, e)),
        table_map(s.update(i, e)) == table_map(s).insert(entry_key(e), entry_value(e)),
{
    let s2 = s.update(i, e);
    let kv = entry_key(e);
    assert forall|a: int, b: int|
        0 <= a < b < s2.len() && #[trigger] s2[a] is Occupied && #[trigger] s2[b]
            is Occupied implies entry_key(s2[a]) != entry_key(s2[b]) by {
        if a == i {
            assert(slot_has_key(s, b, entry_key(s[b])));
        } else if b == i {
            assert(slot_has_key(s, a, entry_key(s[a])));
        }
    }
    assert forall|k2: K::V| #[trigger] has_key(s2, k2) implies (k2 == kv || has_key(s, k2)) by {
        let a = choose|a: int| slot_has_key(s2, a, k2);
        if a != i {
            assert(slot_has_key(s, a, k2));
        }
    }
    assert forall|k2: K::V| k2 != kv && #[trigger] has_key(s, k2) implies has_key(s2, k2) by {
        let a = choose|a: int| slot_has_key(s, a, k2);
        assert(slot_has_key(s2, a, k2));
    }
    assert(slot_has_key(s2, i, kv));
    assert forall|k2: K::V| #[trigger] has_key(s2, k2) implies value_for(s2, k2) == table_map(
        s,
    ).insert(kv, entry_value(e))[k2] by {
        let a = choose|a: int| slot_has_key(s2, a, k2);
        if k2 == kv {
            lemma_unique_slot(s2, a, i, k2);
        } else {
            assert(slot_has_key(s, a, k2));
            let b = choose|b: int| slot_has_key(s, b, k2);
            lemma_unique_slot(s, a, b, k2);
        }
    }
    assert(table_map(s2) =~= table_map(s).insert(kv, entry_value(e)));
}

/// Overwriting the value in the slot that already holds a key updates
/// that key's binding and nothing else.
proof fn lemma_map_overwrite<K: HashKey, V>(s: Seq<Entry<K, V>>, i: int, e: Entry<K, V>)
    requires
        0 <= i < s.len(),
        distinct_keys(s),
        e is Occupied,
        slot_has_key(s, i, entry_key(e)),
    ensures
        distinct_keys(s.update(i, e)),
        table_map(s.update(i, e)) == table_map(s).insert(entry_key(e), entry_value(e)),
        table_map(s)[entry_key(e)] == entry_value(s[i]),
{
    let s2 = s.update(i, e);
    let kv = entry_key(e);
    assert forall|a: int, b: int|
        0 <= a < b < s2.len() && #[trigger] s2[a] is Occupied && #[trigger] s2[b]
            is Occupied implies entry_key(s2[a]) != entry_key(s2[b]) by {
        if a == i {
            if entry_key(s2[b]) == kv {
                lemma_unique_slot(s, i, b, kv);
            }
        } else if b == i {
            if entry_key(s2[a]) == kv {
                lemma_unique_slot(s, i, a, kv);
            }
        }
    }
    assert forall|k2: K::V| #[trigger] has_key(s2, k2) implies has_key(s, k2) by {
        let a = choose|a: int| slot_has_key(s2, a, k2);
        if a == i {
            assert(slot_has_key(s, i, kv));
        } else {
            assert(slot_has_key(s, a, k2));
        }
    }
    assert forall|k2: K::V| #[trigger] has_key(s, k2) implies has_key(s2, k2) by {
        let a = choose|a: int| slot_has_key(s, a, k2);
        if a == i {
            assert(slot_has_key(s2, i, k2));
        } else {
            assert(slot_has_key(s2, a, k2));
        }
    }
    assert(value_for(s, kv) == entry_value(s[i])) by {
        let a = choose|a: int| slot_has_key(s, a, kv);
        lemma_unique_slot(s, a, i, kv);
    }
    assert(slot_has_key(s2, i, kv));
    assert(has_key(s2, kv));
    assert forall|k2: K::V| #[trigger] has_key(s2, k2) implies value_for(s2, k2) == table_map(
        s,
    ).insert(kv, entry_value(e))[k2] by {
        let a = choose|a: int| slot_has_key(s2, a, k2);
        if k2 == kv {
            lemma_unique_slot(s2, a, i, k2);
        } else {
            assert(a != i);
            assert(slot_has_key(s, a, k2));
            let b = choose|b: int| slot_has_key(s, b, k2);
            lemma_unique_slot(s, a, b, k2);
        }
    }
    assert(table_map(s2) =~= table_map(s).insert(kv, entry_value(e)));
}

/// Turning an occupied slot into a tombstone removes exactly that slot's
/// binding from the represented map.
proof fn lemma_map_remove<K: HashKey, V>(s: Seq<Entry<K, V>>, i: int)
    requires
        0 <= i < s.len(),
        distinct_keys(s),
        s[i] is Occupied,
    ensures
        distinct_keys(s.update(i, Entry::Tombstone)),
        table_map(s.update(i, Entry::Tombstone)) == table_map(s).remove(entry_key(s[i])),
        table_map(s)[entry_key(s[i])] == entry_value(s[i]),
{
    let s2 = s.update(i, Entry::Tombstone);
    let kv = entry_key(s[i]);
    assert(slot_has_key(s, i, kv));
    assert(value_for(s, kv) == entry_value(s[i])) by {
        let a = choose|a: int| slot_has_key(s, a, kv);
        lemma_unique_slot(s, a, i, kv);
    }
    assert forall|k2: K::V| #[trigger] has_key(s2, k2) implies (has_key(s, k2) && k2 != kv) by {
        let a = choose|a: int| slot_has_key(s2, a, k2);
        assert(a != i);
        assert(slot_has_key(s, a, k2));
        if k2 == kv {
            lemma_unique_slot(s, a, i, kv);
        }
    }
    assert forall|k2: K::V| k2 != kv && #[trigger] has_key(s, k2) implies has_key(s2, k2) by {
        let a = choose|a: int| slot_has_key(s, a, k2);
        assert(a != i);
        assert(slot_has_key(s2, a, k2));
    }
    assert forall|k2: K::V| #[trigger] has_key(s2, k2) implies value_for(s2, k2) == table_map(
        s,
    ).remove(kv)[k2] by {
        let a = choose|a: int| slot_has_key(s2, a, k2);
        assert(slot_has_key(s, a, k2));
        let b = choose|b: int| slot_has_key(s, b, k2);
        lemma_unique_slot(s, a, b, k2);
    }
    assert(table_map(s2) =~= table_map(s).remove(kv));
}

/// Replacing a slot with anything non-empty keeps every occupied slot
/// reachable, provided a newly written pair is itself reachable.
proof fn lemma_chains_update<K: HashKey, V>(s: Seq<Entry<K, V>>, i: int, e: Entry<K, V>)
    requires
        0 <= i < s.len(),
        chains_ok(s),
        !(e is Empty),
        e is Occupied ==> forall|d: int|
            0 <= d < probe_distance(s.len() as int, home_index(s, entry_key(e)), i) ==> !(
            #[trigger] s[probe_index(s.len() as int, home_index(s, entry_key(e)), d)] is Empty),
    ensures
        chains_ok(s.update(i, e)),
{
    let s2 = s.update(i, e);
    let cap = s.len() as int;
    assert forall|a: int| 0 <= a < s2.len() implies #[trigger] chain_ok(s2, a) by {
        if s2[a] is Occupied {
            let start = home_index(s2, entry_key(s2[a]));
            if a == i {
                assert(s2[a] == e);
                assert(start == home_index(s, entry_key(e)));
                assert forall|d: int| 0 <= d < probe_distance(cap, start, a) implies !(
                #[trigger] s2[probe_index(cap, start, d)] is Empty) by {
                    let p = probe_index(cap, start, d);
                    assert(!(s[probe_index(s.len() as int, home_index(s, entry_key(e)), d)]
                        is Empty));
                    if p != i {
                        assert(!(s[p] is Empty));
                    }
                }
            } else {
                assert(s2[a] == s[a]);
                assert(chain_ok(s, a));
                assert forall|d: int| 0 <= d < probe_distance(cap, start, a) implies !(
                #[trigger] s2[probe_index(cap, start, d)] is Empty) by {
                    let p = probe_index(cap, start, d);
                    assert(!(s[p] is Empty));
                }
            }
        }
    }
}

/// Dropping the last slot removes that slot's binding (if occupied) and
/// nothing else from the represented map.
proof fn lemma_map_drop_last<K: HashKey, V>(s: Seq<Entry<K, V>>)
    requires
        distinct_keys(s),
        s.len() > 0,
    ensures
        distinct_keys(s.drop_last()),
        s.last() is Occupied ==> !has_key(s.drop_last(), entry_key(s.last())),
        s.last() is Occupied ==> table_map(s) == table_map(s.drop_last()).insert(
            entry_key(s.last()),
            entry_value(s.last()),
        ),
        !(s.last() is Occupied) ==> table_map(s) == table_map(s.drop_last()),
{
    let d = s.drop_last();
    let n = s.len() - 1;
    assert forall|k2: K::V| #[trigger] has_key(d, k2) implies has_key(s, k2) && value_for(d, k2)
        == value_for(s, k2) by {
        let a = choose|a: int| slot_has_key(d, a, k2);
        assert(slot_has_key(s, a, k2));
        let b = choose|b: int| slot_has_key(s, b, k2);
        lemma_unique_slot(s, a, b, k2);
    }
    if s.last() is Occupied {
        let kv = entry_key(s.last());
        assert(slot_has_key(s, n, kv));
        assert(!has_key(d, kv)) by {
            if has_key(d, kv) {
                let a = choose|a: int| slot_has_key(d, a, kv);
                assert(slot_has_key(s, a, kv));
                lemma_unique_slot(s, a, n, kv);
            }
        }
        assert forall|k2: K::V| k2 != kv && #[trigger] has_key(s, k2) implies has_key(d, k2) by {
            let a = choose|a: int| slot_has_key(s, a, k2);
            assert(a != n);
            assert(slot_has_key(d, a, k2));
        }
        assert(value_for(s, kv) == entry_value(s.last())) by {
            let a = choose|a: int| slot_has_key(s, a, kv);
            lemma_unique_slot(s, a, n, kv);
        }
        assert(table_map(s) =~= table_map(d).insert(kv, entry_value(s.last())));
    } else {
        assert forall|k2: K::V| #[trigger] has_key(s, k2) implies has_key(d, k2) by {
            let a = choose|a: int| slot_has_key(s, a, k2);
            assert(a != n);
            assert(slot_has_key(d, a, k2));
        }
        assert(table_map(s) =~= table_map(d));
    }
}

/// A fresh all-empty backing array of the requested length.
fn blank_entries<K, V>(n: usize) -> (v: Vec<Entry<K, V>>)
    ensures
        v@.len() == n,
        forall|i: int| 0 <= i < n ==> #[trigger] v@[i] is Empty,
{
    let mut v: Vec<Entry<K, V>> = Vec::new();
    while v.len() < n
        invariant
            v@.len() <= n,
            forall|i: int| 0 <= i < v@.len() ==> #[trigger] v@[i] is Empty,
        decreases n - v@.len(),
    {
        v.push(Entry::Empty);
    }
    v
}

impl<K: HashKey, V> View for HashMap<K, V> {
    type V = Map<K::V, V>;

    closed spec fn view(&self) -> Map<K::V, V> {
        table_map(self.entries@)
    }
}

impl<K: HashKey, V> HashMap<K, V> {
    /// The length of the backing array.
    pub closed spec fn spec_cap(&self) -> int {
        self.entries@.len() as int
    }

    /// Occupied and tombstone slots together.
    pub closed spec fn spec_load(&self) -> int {
        self.size + self.tombstones
    }

    /// Tombstone slots alone.
    pub closed spec fn spec_tombstones(&self) -> int {
        self.tombstones as int
    }

    /// Well-formedness: the counters match the slots, keys are unique,
    /// the table is never full, and every entry can be found again by
    /// probing from its home slot.
    pub closed spec fn wf(&self) -> bool {
        let s = self.entries@;
        &&& s.len() >= MIN_CAPACITY
        &&& self.size as int == occupied_count(s)
        &&& self.tombstones as int == tombstone_count(s)
        &&& self.size + self.tombstones < s.len()
        &&& distinct_keys(s)
        &&& chains_ok(s)
    }

    /// Create a new empty map with the default capacity.
    pub fn new() -> (result: Self)
        ensures
            result.wf(),
            result@ == Map::<K::V, V>::empty(),
            result.spec_cap() == MIN_CAPACITY,
            result.spec_load() == 0,
    {
        Self::with_capacity(MIN_CAPACITY)
    }

    /// Create a new empty map with the given capacity (clamped up to the
    /// minimum floor).
    pub fn with_capacity(capacity: usize) -> (result: Self)
        ensures
            result.wf(),
            result@ == Map::<K::V, V>::empty(),
            result.spec_cap() == if capacity >= MIN_CAPACITY {
                capacity as int
            } else {
                MIN_CAPACITY as int
            },
            result.spec_load() == 0,
    {
        let capacity = if capacity < MIN_CAPACITY {
            MIN_CAPACITY
        } else {
            capacity
        };
        let entries = blank_entries::<K, V>(capacity);
        let result = Self { entries, size: 0, tombstones: 0 };
        proof {
            lemma_blank_counts(result.entries@);
            assert forall|kv: K::V| !has_key(result.entries@, kv) by {
                assert forall|i: int| !slot_has_key(result.entries@, i, kv) by {}
            }
            assert(result@ =~= Map::<K::V, V>::empty());
        }
        result
    }

    /// Returns the number of elements in the map.
    pub fn len(&self) -> (n: usize)
        requires
            self.wf(),
        ensures
            n == self@.dom().len(),
    {
        proof {
            lemma_dom_size(self.entries@);
        }
        self.size
    }

    /// Returns true if the map contains no elements.
    pub fn is_empty(&self) -> (empty: bool)
        requires
            self.wf(),
        ensures
            empty == (self@.dom().len() == 0),
    {
        proof {
            lemma_dom_size(self.entries@);
        }
        self.size == 0
    }

    /// Returns the current capacity of the map.
    pub fn capacity(&self) -> (cap: usize)
        ensures
            cap == self.spec_cap(),
    {
        self.entries.len()
    }

    /// Probe for `key`, walking linearly forward from its home slot.
    ///
    /// Returns `(index, found)`.  When found, `index` is the slot that
    /// holds the key.  When not found, `index` is the best slot for a
    /// subsequent insertion — the first tombstone seen, or the empty
    /// slot that ended the probe — and the path from the home slot up
    /// to `index` contains no empty slot, so writing the key there
    /// keeps it reachable.
    fn find_slot(&self, key: &K) -> (r: (usize, bool))
        requires
            self.wf(),
        ensures
            r.0 < self.spec_cap(),
            r.1 == has_key(self.entries@, key@),
            r.1 ==> slot_has_key(self.entries@, r.0 as int, key@),
            !r.1 ==> !(self.entries@[r.0 as int] is Occupied),
            !r.1 ==> forall|d: int|
                0 <= d < probe_distance(
                    self.spec_cap(),
                    home_index(self.entries@, key@),
                    r.0 as int,
                ) ==> !(#[trigger] self.entries@[probe_index(
                    self.spec_cap(),
                    home_index(self.entries@, key@),
                    d,
                )] is Empty),
    {
        let ghost s = self.entries@;
        let ghost cap = s.len() as int;
        let hash = key.hash_key();
        let capacity = self.entries.len();
        let mut index: usize = (hash % (capacity as u64)) as usize;
        let ghost start = home_index(s, key@);
        proof {
            assert(index as int == start);
        }
        let mut first_tombstone: Option<usize> = None;
        let mut j: usize = 0;
        while j < capacity
            invariant
                self.wf(),
                s == self.entries@,
                cap == s.len() as int,
                capacity == s.len(),
                hash == K::hash_of(key@),
                start == home_index(s, key@),
                0 <= start < cap,
                j <= capacity,
                index as int == probe_index(cap, start, j as int),
                forall|d: int|
                    0 <= d < j ==> !(#[trigger] s[probe_index(cap, start, d)] is Empty),
                forall|d: int|
                    0 <= d < j ==> (#[trigger] s[probe_index(cap, start, d)] is Occupied
                        ==> entry_key(s[probe_index(cap, start, d)]) != key@),
                match first_tombstone {
                    Some(t) => {
                        &&& (t as int) < cap
                        &&& s[t as int] is Tombstone
                        &&& probe_distance(cap, start, t as int) < j as int
                        &&& forall|d: int|
                            0 <= d < probe_distance(cap, start, t as int) ==> !(
                            #[trigger] s[probe_index(cap, start, d)] is Empty)
                    },
                    None => forall|d: int|
                        0 <= d < j ==> !(#[trigger] s[probe_index(cap, start, d)] is Tombstone),
                },
            decreases capacity - j,
        {
            let mut done: bool = false;
            let mut found: bool = false;
            match &self.entries[index] {
                Entry::Empty => {
                    done = true;
                }
                Entry::Tombstone => {
                    if first_tombstone.is_none() {
                        first_tombstone = Some(index);
                        proof {
                            assert(probe_distance(cap, start, index as int) == j as int);
                        }
                    }
                }
                Entry::Occupied { key: k, .. } => {
                    if k.key_eq(key) {
                        done = true;
                        found = true;
                    }
                }
            }
            if done {
                if found {
                    proof {
                        assert(slot_has_key(s, index as int, key@));
                    }
                    return (index, true);
                }
                // the probe hit an empty slot: the key is nowhere
                proof {
                    assert(!has_key(s, key@)) by {
                        if has_key(s, key@) {
                            let a = choose|a: int| slot_has_key(s, a, key@);
                            let da = probe_distance(cap, start, a);
                            assert(probe_index(cap, start, da) == a);
                            assert(chain_ok(s, a));
                            assert(home_index(s, entry_key(s[a])) == start);
                            if da < j as int {
                                assert(s[probe_index(cap, start, da)] is Occupied);
                            } else {
                                assert(da != j as int);
                                assert(!(s[probe_index(cap, start, j as int)] is Empty));
                            }
                        }
                    }
                    assert(probe_distance(cap, start, index as int) == j as int);
                }
                match first_tombstone {
                    Some(t) => {
                        return (t, false);
                    }
                    None => {
                        return (index, false);
                    }
                }
            }
            index = if index + 1 < capacity {
                index + 1
            } else {
                0
            };
            j = j + 1;
        }
        // a full cycle saw no empty slot, yet well-formedness guarantees
        // one exists: this point is unreachable
        proof {
            assert forall|a: int| 0 <= a < s.len() implies !(#[trigger] s[a] is Empty) by {
                let da = probe_distance(cap, start, a);
                assert(probe_index(cap, start, da) == a);
                assert(0 <= da < j as int);
            }
            lemma_full_counts(s);
            assert(false);
        }
        (0, false)
    }

    /// Whether the occupancy (live entries plus tombstones) has reached
    /// the three-quarters growth threshold.
    fn load_exceeded(&self) -> (r: bool)
        ensures
            r == (4 * self.spec_load() >= 3 * self.spec_cap()),
    {
        let occ: u128 = self.size as u128 + self.tombstones as u128;
        4 * occ >= 3 * (self.entries.len() as u128)
    }

    /// Write `key`/`value` into the table without checking the growth
    /// threshold; the caller guarantees room for one more slot.
    fn insert_no_grow(&mut self, key: K, value: V) -> (prev: Option<V>)
        requires
            old(self).wf(),
            old(self).spec_load() + 1 < old(self).spec_cap(),
        ensures
            final(self).wf(),
            final(self)@ == old(self)@.insert(key@, value),
            prev == if old(self)@.contains_key(key@) {
                Some(old(self)@[key@])
            } else {
                None::<V>
            },
            final(self).spec_cap() == old(self).spec_cap(),
            final(self).spec_tombstones() <= old(self).spec_tombstones(),
            final(self).spec_load() <= old(self).spec_load() + 1,
            old(self)@.contains_key(key@) ==> final(self).spec_load() == old(self).spec_load(),
            !old(self)@.contains_key(key@) && old(self).spec_tombstones() == 0
                ==> final(self).spec_load() == old(self).spec_load() + 1,
            final(self)@.dom().len() == old(self)@.dom().len() + if old(self)@.contains_key(key@) {
                0int
            } else {
                1int
            },
    {
        let ghost kv = key@;
        let ghost s0 = self.entries@;
        proof {
            vstd::std_specs::vec::axiom_spec_len(&self.entries);
        }
        let (index, found) = self.find_slot(&key);
        let mut e = Entry::Occupied { key, value };
        let ghost enew = e;
        self.entries.set_and_swap(index, &mut e);
        proof {
            assert(entry_key(enew) == kv);
            assert(entry_value(enew) == value);
            assert(self.entries@ == s0.update(index as int, enew));
            lemma_count_update(s0, index as int, enew);
            lemma_count_bounds(self.entries@);
            if found {
                assert(entry_key(s0[index as int]) == kv);
                assert(chain_ok(s0, index as int));
            }
            lemma_chains_update(s0, index as int, enew);
            lemma_dom_size(s0);
        }
        match e {
            Entry::Occupied { value: prev_value, .. } => {
                proof {
                    assert(e == s0[index as int]);
                    assert(s0[index as int] is Occupied);
                    assert(found);
                    lemma_map_overwrite(s0, index as int, enew);
                    lemma_dom_size(self.entries@);
                    assert(prev_value == entry_value(s0[index as int]));
                }
                Some(prev_value)
            }
            Entry::Tombstone => {
                proof {
                    assert(s0[index as int] is Tombstone);
                    assert(!found);
                    lemma_map_insert(s0, index as int, enew);
                }
                self.tombstones = self.tombstones - 1;
                self.size = self.size + 1;
                proof {
                    lemma_dom_size(self.entries@);
                }
                None
            }
            Entry::Empty => {
                proof {
                    assert(s0[index as int] is Empty);
                    assert(!found);
                    lemma_map_insert(s0, index as int, enew);
                }
                self.size = self.size + 1;
                proof {
                    lemma_dom_size(self.entries@);
                }
                None
            }
        }
    }

    /// Rebuild the backing array at double the capacity, reinserting
    /// every live entry and discarding all tombstones.
    fn grow(&mut self)
        requires
            old(self).wf(),
            old(self).spec_cap() <= usize::MAX as int / 2,
        ensures
            final(self).wf(),
            final(self)@ == old(self)@,
            final(self).spec_cap() == 2 * old(self).spec_cap(),
            final(self).spec_tombstones() == 0,
            4 * final(self).spec_load() < 3 * final(self).spec_cap(),
    {
        let ghost orig = self.entries@;
        let ghost target = table_map(orig);
        let new_cap = self.entries.len() * 2;
        let mut moved = blank_entries::<K, V>(new_cap);
        core::mem::swap(&mut self.entries, &mut moved);
        self.size = 0;
        self.tombstones = 0;
        proof {
            lemma_blank_counts(self.entries@);
            lemma_count_bounds(orig);
            assert forall|i: int| 0 <= i < self.entries@.len() implies #[trigger] chain_ok(
                self.entries@,
                i,
            ) by {}
            assert forall|k2: K::V| !has_key(self.entries@, k2) by {
                assert forall|i: int| !slot_has_key(self.entries@, i, k2) by {}
            }
            assert(self@ =~= Map::<K::V, V>::empty());
            assert(target =~= self@.union_prefer_right(table_map(moved@)));
        }
        while moved.len() > 0
            invariant
                self.wf(),
                self.spec_tombstones() == 0,
                self.spec_cap() == new_cap as int,
                new_cap == 2 * orig.len(),
                orig.len() >= MIN_CAPACITY,
                occupied_count(orig) < orig.len(),
                distinct_keys(moved@),
                self.spec_load() == occupied_count(orig) - occupied_count(moved@),
                0 <= occupied_count(moved@),
                forall|k2: K::V| !(self@.contains_key(k2) && has_key(moved@, k2)),
                target == self@.union_prefer_right(table_map(moved@)),
            decreases moved@.len(),
        {
            let ghost pre = moved@;
            let e = moved.pop().unwrap();
            proof {
                assert(moved@ == pre.drop_last());
                assert(e == pre.last());
                lemma_map_drop_last(pre);
                lemma_count_bounds(moved@);
            }
            match e {
                Entry::Occupied { key, value } => {
                    let ghost kv = key@;
                    let ghost val = value;
                    let ghost before = self@;
                    proof {
                        assert(slot_has_key(pre, pre.len() - 1, kv));
                        assert(has_key(pre, kv));
                        assert(!self@.contains_key(kv));
                        assert(!has_key(moved@, kv));
                        assert(self.spec_load() + 1 < self.spec_cap());
                    }
                    self.insert_no_grow(key, value);
                    proof {
                        assert(self@ == before.insert(kv, val));
                        assert(table_map(pre) == table_map(moved@).insert(kv, val));
                        assert forall|k2: K::V|
                            !(self@.contains_key(k2) && has_key(moved@, k2)) by {
                            if self@.contains_key(k2) && has_key(moved@, k2) {
                                if k2 != kv {
                                    assert(before.contains_key(k2));
                                    assert(has_key(pre, k2)) by {
                                        let a = choose|a: int| slot_has_key(moved@, a, k2);
                                        assert(slot_has_key(pre, a, k2));
                                    }
                                }
                                assert(false);
                            }
                        }
                        assert(target =~= self@.union_prefer_right(table_map(moved@)));
                    }
                }
                _ => {
                    proof {
                        assert(table_map(moved@) == table_map(pre));
                        assert forall|k2: K::V|
                            !(self@.contains_key(k2) && has_key(moved@, k2)) by {
                            if has_key(moved@, k2) {
                                let a = choose|a: int| slot_has_key(moved@, a, k2);
                                assert(slot_has_key(pre, a, k2));
                                assert(has_key(pre, k2));
                            }
                        }
                        assert(target =~= self@.union_prefer_right(table_map(moved@)));
                    }
                }
            }
        }
        proof {
            assert(moved@.len() == 0);
            assert forall|k2: K::V| !has_key(moved@, k2) by {
                assert forall|i: int| !slot_has_key(moved@, i, k2) by {}
            }
            assert(table_map(moved@) =~= Map::<K::V, V>::empty());
            assert(target =~= self@);
        }
    }

    /// Insert a key-value pair into the map.
    ///
    /// Returns the previous value if the key existed.  The abstract map
    /// gains exactly the new binding; every other binding is preserved,
    /// also when the insertion triggers a growth rebuild.  Inserting an
    /// existing key leaves the number of entries unchanged; inserting a
    /// fresh key increments it by one.  An insertion never creates a
    /// tombstone, never fills the table to capacity, and never grows the
    /// backing array before the three-quarters occupancy threshold.
    pub fn insert(&mut self, key: K, value: V) -> (prev: Option<V>)
        requires
            old(self).wf(),
            old(self).spec_cap() <= usize::MAX as int / 2,
        ensures
            final(self).wf(),
            final(self)@ == old(self)@.insert(key@, value),
            prev == if old(self)@.contains_key(key@) {
                Some(old(self)@[key@])
            } else {
                None::<V>
            },
            old(self)@.contains_key(key@) ==> final(self)@.dom().len() == old(self)@.dom().len(),
            !old(self)@.contains_key(key@) ==> final(self)@.dom().len() == old(self)@.dom().len()
                + 1,
            final(self).spec_load() < final(self).spec_cap(),
            final(self).spec_tombstones() <= old(self).spec_tombstones(),
            4 * old(self).spec_load() < 3 * old(self).spec_cap() ==> final(self).spec_cap() == old(
                self,
            ).spec_cap(),
            4 * old(self).spec_load() >= 3 * old(self).spec_cap() ==> final(self).spec_cap() == 2
                * old(self).spec_cap(),
    {
        if self.load_exceeded() {
            self.grow();
        }
        self.insert_no_grow(key, value)
    }

    /// Get a reference to the value associated with the key, or `None`
    /// exactly when the key is absent.
    pub fn get(&self, key: &K) -> (result: Option<&V>)
        requires
            self.wf(),
        ensures
            match result {
                Some(v) => self@.contains_key(key@) && *v == self@[key@],
                None => !self@.contains_key(key@),
            },
    {
        let (index, found) = self.find_slot(key);
        if found {
            match &self.entries[index] {
                Entry::Occupied { value, .. } => {
                    proof {
                        let a = choose|a: int| slot_has_key(self.entries@, a, key@);
                        lemma_unique_slot(self.entries@, a, index as int, key@);
                    }
                    Some(value)
                }
                _ => {
                    proof {
                        assert(false);
                    }
                    None
                }
            }
        } else {
            None
        }
    }

    /// Get a mutable reference to the value associated with the key.
    ///
    /// Writing through the returned reference replaces that key's
    /// binding; the key set itself is unchanged.
    pub fn get_mut(&mut self, key: &K) -> (result: Option<&mut V>)
        requires
            old(self).wf(),
        ensures
            result.is_some() == old(self)@.contains_key(key@),
            result.is_some() ==> *result.unwrap() == old(self)@[key@] && final(self)@ == old(
                self,
            )@.insert(key@, *final(result.unwrap())) && final(self).wf() && final(self).spec_cap()
                == old(self).spec_cap() && final(self).spec_load() == old(self).spec_load()
                && final(self)@.dom().len() == old(self)@.dom().len(),
            result.is_none() ==> *final(self) == *old(self),
    {
        let ghost s0 = self.entries@;
        let (index, found) = self.find_slot(key);
        if found {
            proof {
                assert(table_map(s0)[key@] == entry_value(s0[index as int])) by {
                    let a = choose|a: int| slot_has_key(s0, a, key@);
                    lemma_unique_slot(s0, a, index as int, key@);
                }
                lemma_dom_size(s0);
                assert forall|e2: Entry<K, V>|
                    e2 is Occupied && entry_key(e2) == key@ implies ({
                    let s2 = #[trigger] s0.update(index as int, e2);
                    &&& distinct_keys(s2)
                    &&& chains_ok(s2)
                    &&& occupied_count(s2) == occupied_count(s0)
                    &&& tombstone_count(s2) == tombstone_count(s0)
                    &&& table_map(s2) == table_map(s0).insert(key@, entry_value(e2))
                    &&& table_map(s2).dom().len() == table_map(s0).dom().len()
                }) by {
                    lemma_map_overwrite(s0, index as int, e2);
                    lemma_count_update(s0, index as int, e2);
                    assert(chain_ok(s0, index as int));
                    assert(entry_key(s0[index as int]) == key@);
                    lemma_chains_update(s0, index as int, e2);
                    lemma_dom_size(s0.update(index as int, e2));
                }
            }
            let entry = &mut self.entries[index];
            match entry {
                Entry::Occupied { value, .. } => Some(value),
                _ => {
                    proof {
                        assert(false);
                    }
                    None
                }
            }
        } else {
            None
        }
    }

    /// Check if the map contains the given key.
    pub fn contains_key(&self, key: &K) -> (present: bool)
        requires
            self.wf(),
        ensures
            present == self@.contains_key(key@),
    {
        let (_index, found) = self.find_slot(key);
        found
    }

    /// Remove a key-value pair from the map.
    ///
    /// Returns the removed value if the key existed.  The slot becomes a
    /// tombstone, never empty, so probe chains through it stay intact.
    /// After a successful removal the key is absent until reinserted.
    pub fn remove(&mut self, key: &K) -> (removed: Option<V>)
        requires
            old(self).wf(),
        ensures
            final(self).wf(),
            final(self)@ == old(self)@.remove(key@),
            removed == if old(self)@.contains_key(key@) {
                Some(old(self)@[key@])
            } else {
                None::<V>
            },
            !final(self)@.contains_key(key@),
            final(self).spec_cap() == old(self).spec_cap(),
            old(self)@.contains_key(key@) ==> final(self)@.dom().len() == old(self)@.dom().len()
                - 1 && final(self).spec_load() == old(self).spec_load(),
            !old(self)@.contains_key(key@) ==> *final(self) == *old(self),
    {
        let ghost s0 = self.entries@;
        proof {
            vstd::std_specs::vec::axiom_spec_len(&self.entries);
        }
        let (index, found) = self.find_slot(key);
        if found {
            let mut e = Entry::Tombstone;
            self.entries.set_and_swap(index, &mut e);
            match e {
                Entry::Occupied { value, .. } => {
                    proof {
                        assert(e == s0[index as int]);
                        assert(value == entry_value(s0[index as int]));
                        lemma_count_update(s0, index as int, Entry::Tombstone);
                        lemma_count_bounds(self.entries@);
                        lemma_chains_update(s0, index as int, Entry::Tombstone);
                        lemma_map_remove(s0, index as int);
                        lemma_dom_size(s0);
                        lemma_dom_size(self.entries@);
                    }
                    self.size = self.size - 1;
                    self.tombstones = self.tombstones + 1;
                    Some(value)
                }
                _ => {
                    proof {
                        assert(false);
                    }
                    None
                }
            }
        } else {
            proof {
                assert(self@.remove(key@) =~= self@);
            }
            None
        }
    }

    /// Clear all entries from the map.  The capacity is retained.
    pub fn clear(&mut self)
        requires
            old(self).wf(),
        ensures
            final(self).wf(),
            final(self)@ == Map::<K::V, V>::empty(),
            final(self)@.dom().len() == 0,
            final(self).spec_cap() == old(self).spec_cap(),
            final(self).spec_load() == 0,
    {
        let n = self.entries.len();
        self.entries = blank_entries::<K, V>(n);
        self.size = 0;
        self.tombstones = 0;
        proof {
            lemma_blank_counts(self.entries@);
            assert forall|i: int| 0 <= i < self.entries@.len() implies #[trigger] chain_ok(
                self.entries@,
                i,
            ) by {}
            assert forall|k2: K::V| !has_key(self.entries@, k2) by {
                assert forall|i: int| !slot_has_key(self.entries@, i, k2) by {}
            }
            assert(self@ =~= Map::<K::V, V>::empty());
            assert(self@.dom() =~= Set::<K::V>::empty());
        }
    }

    /// All key-value pairs, in slot order.
    ///
    /// The result lists each of the map's keys exactly once, paired
    /// with its value; the order is incidental.
    #[verifier::rlimit(50)]
    pub fn iter(&self) -> (pairs: Vec<(&K, &V)>)
        requires
            self.wf(),
        ensures
            pairs@.len() == self@.dom().len(),
            forall|t: int|
                0 <= t < pairs@.len() ==> self@.contains_key((#[trigger] pairs@[t].0)@)
                    && self@[(pairs@[t].0)@] == *(pairs@[t].1),
            forall|t1: int, t2: int|
                0 <= t1 < t2 < pairs@.len() ==> (pairs@[t1].0)@ != (pairs@[t2].0)@,
    {
        let ghost s = self.entries@;
        let mut pairs: Vec<(&K, &V)> = Vec::new();
        let n = self.entries.len();
        let mut i: usize = 0;
        while i < n
            invariant
                self.wf(),
                s == self.entries@,
                n == s.len(),
                i <= n,
                pairs@.len() == occupied_count(s.subrange(0, i as int)),
                forall|t: int| 0 <= t < pairs@.len() ==> pair_from(s, i as int, #[trigger] pairs@[t]),
                forall|t1: int, t2: int|
                    0 <= t1 < t2 < pairs@.len() ==> (pairs@[t1].0)@ != (pairs@[t2].0)@,
            decreases n - i,
        {
            proof {
                assert(s.subrange(0, i + 1 as int).drop_last() =~= s.subrange(0, i as int));
                assert(s.subrange(0, i + 1 as int).last() == s[i as int]);
            }
            let ghost old_pairs = pairs@;
            match &self.entries[i] {
                Entry::Occupied { key, value } => {
                    proof {
                        assert(slot_has_key(s, i as int, key@));
                        assert forall|t: int| 0 <= t < old_pairs.len() implies (old_pairs[t].0)@
                            != key@ by {
                            let p = old_pairs[t];
                            assert(pair_from(s, i as int, p));
                            let j = choose|j: int|
                                0 <= j < i && slot_has_key(s, j, (p.0)@) && entry_value(s[j]) == *(
                                p.1);
                            if (p.0)@ == key@ {
                                lemma_unique_slot(s, j, i as int, key@);
                            }
                        }
                    }
                    pairs.push((key, value));
                    proof {
                        let p = pairs@.last();
                        assert(p == (key, value));
                        assert(0 <= (i as int) && (i as int) < i + 1 && slot_has_key(
                            s,
                            i as int,
                            (p.0)@,
                        ) && entry_value(s[i as int]) == *(p.1));
                        assert(pair_from(s, i + 1 as int, p));
                        assert forall|t: int| 0 <= t < pairs@.len() implies pair_from(
                            s,
                            i + 1 as int,
                            #[trigger] pairs@[t],
                        ) by {
                            if t < old_pairs.len() {
                                let p = old_pairs[t];
                                assert(pair_from(s, i as int, p));
                                let j = choose|j: int|
                                    0 <= j < i && slot_has_key(s, j, (p.0)@) && entry_value(s[j])
                                        == *(p.1);
                                assert(0 <= j < i + 1 && slot_has_key(s, j, (p.0)@) && entry_value(
                                    s[j],
                                ) == *(p.1));
                            }
                        }
                    }
                }
                _ => {
                    proof {
                        assert forall|t: int| 0 <= t < pairs@.len() implies pair_from(
                            s,
                            i + 1 as int,
                            #[trigger] pairs@[t],
                        ) by {
                            let p = pairs@[t];
                            assert(pair_from(s, i as int, p));
                            let j = choose|j: int|
                                0 <= j < i && slot_has_key(s, j, (p.0)@) && entry_value(s[j]) == *(
                                p.1);
                            assert(0 <= j < i + 1 && slot_has_key(s, j, (p.0)@) && entry_value(
                                s[j],
                            ) == *(p.1));
                        }
                    }
                }
            }
            i = i + 1;
        }
        proof {
            assert(s.subrange(0, n as int) =~= s);
            lemma_dom_size(s);
            assert forall|t: int| 0 <= t < pairs@.len() implies self@.contains_key(
                (#[trigger] pairs@[t].0)@,
            ) && self@[(pairs@[t].0)@] == *(pairs@[t].1) by {
                let p = pairs@[t];
                assert(pair_from(s, n as int, p));
                let j = choose|j: int|
                    0 <= j < n && slot_has_key(s, j, (p.0)@) && entry_value(s[j]) == *(p.1);
                assert(has_key(s, (p.0)@));
                let a = choose|a: int| slot_has_key(s, a, (p.0)@);
                lemma_unique_slot(s, a, j, (p.0)@);
            }
        }
        pairs
    }

    /// All keys, in slot order: each key of the map exactly once.
    pub fn keys(&self) -> (ks: Vec<&K>)
        requires
            self.wf(),
        ensures
            ks@.len() == self@.dom().len(),
            forall|t: int| 0 <= t < ks@.len() ==> self@.contains_key((#[trigger] ks@[t])@),
            forall|t1: int, t2: int| 0 <= t1 < t2 < ks@.len() ==> (ks@[t1])@ != (ks@[t2])@,
    {
        let pairs = self.iter();
        let mut ks: Vec<&K> = Vec::new();
        let mut t: usize = 0;
        while t < pairs.len()
            invariant
                t <= pairs@.len(),
                ks@.len() == t as int,
                pairs@.len() == self@.dom().len(),
                forall|u: int|
                    0 <= u < pairs@.len() ==> self@.contains_key((#[trigger] pairs@[u].0)@),
                forall|u1: int, u2: int|
                    0 <= u1 < u2 < pairs@.len() ==> (pairs@[u1].0)@ != (pairs@[u2].0)@,
                forall|u: int| 0 <= u < t ==> #[trigger] ks@[u] == pairs@[u].0,
            decreases pairs@.len() - t,
        {
            let p = pairs[t];
            ks.push(p.0);
            t = t + 1;
        }
        ks
    }

    /// All values, in slot order: one for each key of the map.
    ///
    /// The result is the value column of some duplicate-free
    /// enumeration of the map's keys, so each key's value appears with
    /// the right multiplicity.
    pub fn values(&self) -> (vs: Vec<&V>)
        requires
            self.wf(),
        ensures
            vs@.len() == self@.dom().len(),
            forall|t: int| 0 <= t < vs@.len() ==> is_value_of(self@, *(#[trigger] vs@[t])),
            exists|ks: Seq<K::V>|
                {
                    &&& ks.len() == vs@.len()
                    &&& (forall|t1: int, t2: int|
                        0 <= t1 < t2 < ks.len() ==> ks[t1] != ks[t2])
                    &&& (forall|t: int|
                        0 <= t < ks.len() ==> self@.contains_key(#[trigger] ks[t]) && self@[ks[t]]
                            == *(vs@[t]))
                },
    {
        let pairs = self.iter();
        let mut vs: Vec<&V> = Vec::new();
        let mut t: usize = 0;
        while t < pairs.len()
            invariant
                t <= pairs@.len(),
                vs@.len() == t as int,
                pairs@.len() == self@.dom().len(),
                forall|u: int|
                    0 <= u < pairs@.len() ==> self@.contains_key((#[trigger] pairs@[u].0)@)
                        && self@[(pairs@[u].0)@] == *(pairs@[u].1),
                forall|u1: int, u2: int|
                    0 <= u1 < u2 < pairs@.len() ==> (pairs@[u1].0)@ != (pairs@[u2].0)@,
                forall|u: int| 0 <= u < t ==> #[trigger] vs@[u] == pairs@[u].1,
            decreases pairs@.len() - t,
        {
            let p = pairs[t];
            vs.push(p.1);
            t = t + 1;
        }
        proof {
            assert forall|u: int| 0 <= u < vs@.len() implies is_value_of(
                self@,
                *(#[trigger] vs@[u]),
            ) by {
                let kv = (pairs@[u].0)@;
                assert(self@.contains_key(kv) && self@[kv] == *(vs@[u]));
            }
            let ks = Seq::new(vs@.len() as nat, |u: int| (pairs@[u].0)@);
            assert(ks.len() == vs@.len());
            assert forall|t1: int, t2: int| 0 <= t1 < t2 < ks.len() implies ks[t1] != ks[t2] by {
                assert((pairs@[t1].0)@ != (pairs@[t2].0)@);
            }
            assert forall|u: int| 0 <= u < ks.len() implies self@.contains_key(#[trigger] ks[u])
                && self@[ks[u]] == *(vs@[u]) by {
                assert(ks[u] == (pairs@[u].0)@);
            }
        }
        vs
    }

    /// The table's key set is finite; its cardinality is what `len`
    /// reports.
    pub proof fn lemma_view_finite(&self)
        requires
            self.wf(),
        ensures
            self@.dom().finite(),
    {
        lemma_dom_size(self.entries@);
    }
}

impl<K: HashKey, V> Default for HashMap<K, V> {
    /// An empty map with the default capacity.
    fn default() -> (result: Self)
        ensures
            result.wf(),
            result@ == Map::<K::V, V>::empty(),
            result.spec_cap() == MIN_CAPACITY,
            result.spec_load() == 0,
    {
        Self::new()
    }
}

/// With distinct keys, the domain of the represented map is finite and
/// exactly as large as the number of occupied slots.
proof fn lemma_dom_size<K: HashKey, V>(s: Seq<Entry<K, V>>)
    requires
        distinct_keys(s),
    ensures
        table_map(s).dom().finite(),
        table_map(s).dom().len() == occupied_count(s),
    decreases s.len(),
{
    if s.len() == 0 {
        assert(table_map(s).dom() =~= Set::<K::V>::empty());
    } else {
        let d = s.drop_last();
        assert(distinct_keys(d));
        lemma_dom_size(d);
        if s.last() is Occupied {
            let kv = entry_key(s.last());
            assert(slot_has_key(s, s.len() - 1, kv));
            assert(!has_key(d, kv)) by {
                if has_key(d, kv) {
                    let i = choose|i: int| slot_has_key(d, i, kv);
                    assert(slot_has_key(s, i, kv));
                    lemma_unique_slot(s, i, s.len() - 1, kv);
                }
            }
            assert(table_map(s).dom() =~= table_map(d).dom().insert(kv)) by {
                assert forall|k2: K::V| has_key(s, k2) <==> (has_key(d, k2) || k2 == kv) by {
                    if has_key(s, k2) {
                        let i = choose|i: int| slot_has_key(s, i, k2);
                        if i < s.len() - 1 {
                            assert(slot_has_key(d, i, k2));
                        }
                    }
                    if has_key(d, k2) {
                        let i = choose|i: int| slot_has_key(d, i, k2);
                        assert(slot_has_key(s, i, k2));
                    }
                }
            }
        } else {
            assert(table_map(s).dom() =~= table_map(d).dom()) by {
                assert forall|k2: K::V| has_key(s, k2) <==> has_key(d, k2) by {
                    if has_key(s, k2) {
                        let i = choose|i: int| slot_has_key(s, i, k2);
                        assert(i < s.len() - 1);
                        assert(slot_has_key(d, i, k2));
                    }
                    if has_key(d, k2) {
                        let i = choose|i: int| slot_has_key(d, i, k2);
                        assert(slot_has_key(s, i, k2));
                    }
                }
            }
        }
    }
}

} // verus!


