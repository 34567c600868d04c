//! A hash table from text keys to integers, with open addressing: a key
//! is looked for from the slot that its hash names onward, one slot after
//! the other, around the end of the table to its start. A slot that was
//! given up keeps its place in such walks.

use vstd::prelude::*;
use std::collections::hash_map::DefaultHasher;
use std::hash::{Hash, Hasher};
use vstd::std_specs::hash::DefaultHasherAdditionalSpecFns;

verus! {

/// The number of slots of a new table.
pub const INITIAL_CAPACITY: usize = 16;

/// What a slot holds: a key with its value, and whether the slot was given
/// up.
#[derive(Debug, Clone)]
pub struct Entry {
    pub key: String,
    pub value: i32,
    pub is_deleted: bool,
}

/// What a hasher has taken in once a key is fed to it after `state`.
pub uninterp spec fn fed(state: Seq<Seq<u8>>, key: Seq<char>) -> Seq<Seq<u8>>;

/// `Hash::hash` of a `String` feeds the key to the hasher: what the
/// hasher has taken in afterwards depends on what it had taken in before
/// and on the key alone.
#[verifier::external_body]
fn feed(key: &String, hasher: &mut DefaultHasher)
    ensures
        final(hasher)@ == fed(old(hasher)@, key@),
{
    key.hash(hasher)
}

/// The slot at which the walk for `key` starts in a table of `capacity`
/// slots.
pub open spec fn home(key: Seq<char>, capacity: int) -> int {
    (DefaultHasher::spec_finish(fed(Seq::empty(), key)) as usize) as int % capacity
}

/// The walk for a key starts at a slot of the table.
pub proof fn lemma_home(key: Seq<char>, capacity: int)
    requires
        capacity > 0,
    ensures
        0 <= home(key, capacity) < capacity,
{
    vstd::arithmetic::div_mod::lemma_mod_pos_bound(
        (DefaultHasher::spec_finish(fed(Seq::empty(), key)) as usize) as int,
        capacity,
    );
}

/// The slot that is `d` steps after `start`, around the end of the table.
pub open spec fn slot(start: int, d: int, capacity: int) -> int {
    if start + d < capacity {
        start + d
    } else {
        start + d - capacity
    }
}

/// The number of steps from `start` to the slot `i`, around the end of the
/// table.
pub open spec fn dist(start: int, i: int, capacity: int) -> int {
    if i >= start {
        i - start
    } else {
        i - start + capacity
    }
}

/// Whether the slot `i` holds an entry that was not given up.
pub open spec fn is_live(b: Seq<Option<Entry>>, i: int) -> bool {
    0 <= i < b.len() && b[i] is Some && !b[i]->0.is_deleted
}

/// Whether the slot `i` holds `key`.
pub open spec fn holds(b: Seq<Option<Entry>>, i: int, key: Seq<char>) -> bool {
    is_live(b, i) && b[i]->0.key@ == key
}

/// The number of live slots among the first `upto`.
pub open spec fn live_count(b: Seq<Option<Entry>>, upto: int) -> nat
    decreases upto,
{
    if upto <= 0 || upto > b.len() {
        0
    } else {
        live_count(b, upto - 1) + if is_live(b, upto - 1) {
            1nat
        } else {
            0nat
        }
    }
}

/// Whether no slot is empty on the walk from `start` up to the slot `i`.
pub open spec fn reachable(b: Seq<Option<Entry>>, start: int, i: int) -> bool {
    forall|d: int|
        0 <= d < dist(start, i, b.len() as int) ==> b[#[trigger] slot(start, d, b.len() as int)]
            is Some
}

/// The invariant of a table: `size` is the number of live slots, no key is
/// held twice, and every key is reached by the walk from its home.
pub open spec fn table_wf(b: Seq<Option<Entry>>, size: int) -> bool {
    &&& b.len() > 0
    &&& size == live_count(b, b.len() as int)
    &&& forall|i: int, j: int|
        #![trigger is_live(b, i), is_live(b, j)]
        is_live(b, i) && is_live(b, j) && b[i]->0.key@ == b[j]->0.key@ ==> i == j
    &&& forall|i: int| #[trigger]
        is_live(b, i) ==> reachable(b, home(b[i]->0.key@, b.len() as int), i)
}

/// What the walk for `key` finds from the step `d` on, where `first` is the
/// first slot on the way that was given up: the slot that holds the key,
/// and that it was found; else the slot where the key may be put, which is
/// `first` or the empty slot that ended the walk.
pub open spec fn probe(
    b: Seq<Option<Entry>>,
    key: Seq<char>,
    start: int,
    d: int,
    first: Option<int>,
) -> (int, bool)
    decreases b.len() - d,
{
    let index = slot(start, d, b.len() as int);
    if d < 0 || d >= b.len() {
        (
            match first {
                Some(f) => f,
                None => 0,
            },
            false,
        )
    } else {
        match b[index] {
            None => (
                match first {
                    Some(f) => f,
                    None => index,
                },
                false,
            ),
            Some(entry) => if entry.is_deleted {
                probe(
                    b,
                    key,
                    start,
                    d + 1,
                    match first {
                        Some(f) => Some(f),
                        None => Some(index),
                    },
                )
            } else if entry.key@ == key {
                (index, true)
            } else {
                probe(b, key, start, d + 1, first)
            },
        }
    }
}

/// What the keys are mapped to.
pub open spec fn contents(b: Seq<Option<Entry>>) -> Map<Seq<char>, i32> {
    Map::new(
        |key: Seq<char>| exists|i: int| holds(b, i, key),
        |key: Seq<char>| b[choose|i: int| holds(b, i, key)]->0.value,
    )
}

/// Where every slot of a range is live, the range holds as many live
/// slots as it has slots.
proof fn lemma_all_live(b: Seq<Option<Entry>>, upto: int)
    requires
        0 <= upto <= b.len(),
        forall|i: int| 0 <= i < upto ==> is_live(b, i),
    ensures
        live_count(b, upto) == upto,
    decreases upto,
{
    if upto > 0 {
        lemma_all_live(b, upto - 1);
    }
}

/// There are at most as many live slots as slots.
proof fn lemma_live_count_bound(b: Seq<Option<Entry>>, upto: int)
    requires
        0 <= upto <= b.len(),
    ensures
        live_count(b, upto) <= upto,
    decreases upto,
{
    if upto > 0 {
        lemma_live_count_bound(b, upto - 1);
    }
}

/// The number of live slots after one slot is written.
proof fn lemma_live_count_update(b: Seq<Option<Entry>>, at: int, entry: Option<Entry>, upto: int)
    requires
        0 <= at < b.len(),
        0 <= upto <= b.len(),
    ensures
        live_count(b.update(at, entry), upto) + (if at < upto && is_live(b, at) {
            1nat
        } else {
            0nat
        }) == live_count(b, upto) + (if at < upto && is_live(b.update(at, entry), at) {
            1nat
        } else {
            0nat
        }),
    decreases upto,
{
    if upto > 0 {
        lemma_live_count_update(b, at, entry, upto - 1);
        let after = b.update(at, entry);
        if upto - 1 != at {
            assert(is_live(after, upto - 1) == is_live(b, upto - 1));
        }
    }
}

/// What the walk finds: the slot of the key where a slot holds it, and
/// else a slot that the key can be put in.
proof fn lemma_probe(b: Seq<Option<Entry>>, key: Seq<char>, start: int, d: int, first: Option<int>)
    requires
        b.len() > 0,
        0 <= start < b.len(),
        0 <= d <= b.len(),
        forall|i: int| holds(b, i, key) ==> reachable(b, start, i),
        forall|e: int|
            0 <= e < d ==> b[#[trigger] slot(start, e, b.len() as int)] is Some && !holds(
                b,
                slot(start, e, b.len() as int),
                key,
            ),
        match first {
            None => forall|e: int| 0 <= e < d ==> is_live(b, #[trigger] slot(start, e, b.len() as int)),
            Some(f) => 0 <= f < b.len() && !is_live(b, f) && dist(start, f, b.len() as int) < d,
        },
    ensures
        ({
            let r = probe(b, key, start, d, first);
            &&& 0 <= r.0 < b.len()
            &&& r.1 ==> holds(b, r.0, key)
            &&& !r.1 ==> {
                &&& forall|i: int| !holds(b, i, key)
                &&& reachable(b, start, r.0)
                &&& (!is_live(b, r.0) || forall|i: int| 0 <= i < b.len() ==> is_live(b, i))
            }
        }),
    decreases b.len() - d,
{
    let cap = b.len() as int;
    let index = slot(start, d, cap);
    let r = probe(b, key, start, d, first);
    if d >= cap {
        assert forall|i: int| !holds(b, i, key) by {
            if holds(b, i, key) {
                let e = dist(start, i, cap);
                assert(slot(start, e, cap) == i);
            }
        }
        match first {
            Some(f) => {
                assert forall|e: int| 0 <= e < dist(start, f, cap) implies b[#[trigger] slot(
                    start,
                    e,
                    cap,
                )] is Some by {}
            },
            None => {
                assert forall|i: int| 0 <= i < cap implies is_live(b, i) by {
                    let e = dist(start, i, cap);
                    assert(slot(start, e, cap) == i);
                }
            },
        }
    } else {
        match b[index] {
            None => {
                assert forall|i: int| !holds(b, i, key) by {
                    if holds(b, i, key) {
                        let e = dist(start, i, cap);
                        assert(slot(start, e, cap) == i);
                        if e > d {
                            assert(b[slot(start, d, cap)] is Some);
                        }
                    }
                }
            },
            Some(entry) => {
                if entry.is_deleted {
                    let next = match first {
                        Some(f) => Some(f),
                        None => Some(index),
                    };
                    assert forall|e: int| 0 <= e < d + 1 implies b[#[trigger] slot(start, e, cap)]
                        is Some && !holds(b, slot(start, e, cap), key) by {}
                    lemma_probe(b, key, start, d + 1, next);
                } else if entry.key@ == key {
                } else {
                    assert forall|e: int| 0 <= e < d + 1 implies b[#[trigger] slot(start, e, cap)]
                        is Some && !holds(b, slot(start, e, cap), key) by {}
                    if first is None {
                        assert forall|e: int| 0 <= e < d + 1 implies is_live(
                            b,
                            #[trigger] slot(start, e, cap),
                        ) by {}
                    }
                    lemma_probe(b, key, start, d + 1, first);
                }
            },
        }
    }
}

/// A key that a slot holds is mapped to the value of that slot.
proof fn lemma_contents(b: Seq<Option<Entry>>, size: int, i: int)
    requires
        table_wf(b, size),
        is_live(b, i),
    ensures
        contents(b).contains_key(b[i]->0.key@),
        contents(b)[b[i]->0.key@] == b[i]->0.value,
{
    let key = b[i]->0.key@;
    assert(holds(b, i, key));
    let j = choose|j: int| holds(b, j, key);
    assert(is_live(b, i) && is_live(b, j));
}

/// Writing a live entry to a slot that is not live, at the end of the walk
/// for its key, keeps the table well formed and maps the key to the value.
proof fn lemma_put(b: Seq<Option<Entry>>, size: int, at: int, entry: Entry)
    requires
        table_wf(b, size),
        0 <= at < b.len(),
        !entry.is_deleted,
        !is_live(b, at),
        forall|i: int| !holds(b, i, entry.key@),
        reachable(b, home(entry.key@, b.len() as int), at),
    ensures
        table_wf(b.update(at, Some(entry)), size + 1),
        contents(b.update(at, Some(entry))) == contents(b).insert(entry.key@, entry.value),
{
    let after = b.update(at, Some(entry));
    let cap = b.len() as int;
    lemma_live_count_update(b, at, Some(entry), cap);
    assert forall|i: int| is_live(after, i) implies (i == at || is_live(b, i)) by {}
    assert forall|i: int, j: int|
        #![trigger is_live(after, i), is_live(after, j)]
        is_live(after, i) && is_live(after, j) && after[i]->0.key@ == after[j]->0.key@ implies i
            == j by {
        if i != at && j != at {
            assert(is_live(b, i) && is_live(b, j));
        } else if i != at {
            assert(holds(b, i, entry.key@));
        } else if j != at {
            assert(holds(b, j, entry.key@));
        }
    }
    assert forall|i: int| #[trigger] is_live(after, i) implies reachable(
        after,
        home(after[i]->0.key@, cap),
        i,
    ) by {
        let h = home(after[i]->0.key@, cap);
        lemma_home(after[i]->0.key@, cap);
        if i != at {
            assert(is_live(b, i));
            assert(reachable(b, h, i));
        }
        assert forall|d: int| 0 <= d < dist(h, i, cap) implies after[#[trigger] slot(h, d, cap)]
            is Some by {
            assert(b[slot(h, d, cap)] is Some || slot(h, d, cap) == at);
        }
    }
    assert(table_wf(after, size + 1));
    assert(contents(after) =~= contents(b).insert(entry.key@, entry.value)) by {
        assert forall|key: Seq<char>| contents(after).contains_key(key) <==> contents(b).insert(
            entry.key@,
            entry.value,
        ).contains_key(key) by {
            if contents(after).contains_key(key) {
                let i = choose|i: int| holds(after, i, key);
                if i != at {
                    assert(holds(b, i, key));
                }
            }
            if contents(b).contains_key(key) {
                let i = choose|i: int| holds(b, i, key);
                assert(holds(after, i, key));
            }
            if key == entry.key@ {
                assert(holds(after, at, key));
            }
        }
        assert forall|key: Seq<char>| contents(after).contains_key(key) implies contents(
            after,
        )[key] == contents(b).insert(entry.key@, entry.value)[key] by {
            let i = choose|i: int| holds(after, i, key);
            lemma_contents(after, size + 1, i);
            if i != at {
                assert(holds(b, i, key));
                lemma_contents(b, size, i);
            }
        }
    }
}

/// Writing an entry with the same key over a live slot keeps the table
/// well formed; the key is mapped to the new value, or to nothing where
/// the slot is given up.
proof fn lemma_rewrite(b: Seq<Option<Entry>>, size: int, at: int, entry: Entry)
    requires
        table_wf(b, size),
        is_live(b, at),
        entry.key@ == b[at]->0.key@,
    ensures
        table_wf(
            b.update(at, Some(entry)),
            if entry.is_deleted {
                size - 1
            } else {
                size
            },
        ),
        contents(b.update(at, Some(entry))) == if entry.is_deleted {
            contents(b).remove(entry.key@)
        } else {
            contents(b).insert(entry.key@, entry.value)
        },
{
    let after = b.update(at, Some(entry));
    let cap = b.len() as int;
    let new_size = if entry.is_deleted {
        size - 1
    } else {
        size
    };
    lemma_live_count_update(b, at, Some(entry), cap);
    assert forall|i: int| is_live(after, i) implies is_live(b, i) && after[i]->0.key@
        == b[i]->0.key@ by {}
    assert forall|i: int, j: int|
        #![trigger is_live(after, i), is_live(after, j)]
        is_live(after, i) && is_live(after, j) && after[i]->0.key@ == after[j]->0.key@ implies i
            == j by {
        assert(is_live(b, i) && is_live(b, j));
    }
    assert forall|i: int| #[trigger] is_live(after, i) implies reachable(
        after,
        home(after[i]->0.key@, cap),
        i,
    ) by {
        let h = home(after[i]->0.key@, cap);
        lemma_home(after[i]->0.key@, cap);
        assert(is_live(b, i));
        assert(reachable(b, h, i));
        assert forall|d: int| 0 <= d < dist(h, i, cap) implies after[#[trigger] slot(h, d, cap)]
            is Some by {
            assert(b[slot(h, d, cap)] is Some);
        }
    }
    assert(table_wf(after, new_size));
    let target = if entry.is_deleted {
        contents(b).remove(entry.key@)
    } else {
        contents(b).insert(entry.key@, entry.value)
    };
    assert(contents(after) =~= target) by {
        assert forall|key: Seq<char>| contents(after).contains_key(key) <==> target.contains_key(
            key,
        ) by {
            if contents(after).contains_key(key) {
                let i = choose|i: int| holds(after, i, key);
                assert(holds(b, i, key));
                if key == entry.key@ {
                    assert(is_live(b, i) && is_live(b, at));
                }
            }
            if contents(b).contains_key(key) && key != entry.key@ {
                let i = choose|i: int| holds(b, i, key);
                assert(holds(after, i, key));
            }
            if key == entry.key@ && !entry.is_deleted {
                assert(holds(after, at, key));
            }
        }
        assert forall|key: Seq<char>| contents(after).contains_key(key) implies contents(
            after,
        )[key] == target[key] by {
            let i = choose|i: int| holds(after, i, key);
            lemma_contents(after, new_size, i);
            assert(holds(b, i, key));
            lemma_contents(b, size, i);
            if key == entry.key@ {
                assert(is_live(b, i) && is_live(b, at));
            }
        }
    }
}

/// The keys of the live slots among the first `upto`, in the order of the
/// slots.
pub open spec fn live_keys(b: Seq<Option<Entry>>, upto: int) -> Seq<Seq<char>>
    decreases upto,
{
    if upto <= 0 || upto > b.len() {
        Seq::empty()
    } else if is_live(b, upto - 1) {
        live_keys(b, upto - 1).push(b[upto - 1]->0.key@)
    } else {
        live_keys(b, upto - 1)
    }
}

/// The values of the live slots among the first `upto`, in the order of
/// the slots.
pub open spec fn live_values(b: Seq<Option<Entry>>, upto: int) -> Seq<i32>
    decreases upto,
{
    if upto <= 0 || upto > b.len() {
        Seq::empty()
    } else if is_live(b, upto - 1) {
        live_values(b, upto - 1).push(b[upto - 1]->0.value)
    } else {
        live_values(b, upto - 1)
    }
}

/// A hash table from text keys to integers.
#[derive(Debug)]
pub struct HashTable {
    buckets: Vec<Option<Entry>>,
    size: usize,
    capacity: usize,
}

/// `count` empty slots.
fn empty_slots(count: usize) -> (slots: Vec<Option<Entry>>)
    ensures
        slots.len() == count,
        forall|i: int| 0 <= i < count ==> slots[i] is None,
{
    let mut slots: Vec<Option<Entry>> = Vec::new();
    let mut i: usize = 0;
    while i < count
        invariant
            i <= count,
            slots.len() == i,
            forall|j: int| 0 <= j < i ==> slots[j] is None,
        decreases count - i,
    {
        slots.push(None);
        i += 1;
    }
    slots
}

/// A table of empty slots is well formed and maps nothing.
proof fn lemma_empty_table(b: Seq<Option<Entry>>, upto: int)
    requires
        0 <= upto <= b.len(),
        forall|i: int| 0 <= i < b.len() ==> b[i] is None,
    ensures
        live_count(b, upto) == 0,
        contents(b) =~= Map::<Seq<char>, i32>::empty(),
    decreases upto,
{
    if upto > 0 {
        lemma_empty_table(b, upto - 1);
    }
}

impl HashTable {
    /// The slots of the table.
    pub closed spec fn slots(&self) -> Seq<Option<Entry>> {
        self.buckets@
    }

    /// The number of keys, as `len` returns it.
    pub closed spec fn count(&self) -> int {
        self.size as int
    }

    /// What the keys are mapped to.
    pub open spec fn view(&self) -> Map<Seq<char>, i32> {
        contents(self.slots())
    }

    /// The number of slots.
    pub open spec fn slot_count(&self) -> int {
        self.slots().len() as int
    }

    /// The invariant of the table.
    pub closed spec fn wf(&self) -> bool {
        &&& table_wf(self.buckets@, self.size as int)
        &&& self.capacity == self.buckets.len()
    }

    /// A well-formed table has a slot, and no more keys than slots.
    pub proof fn lemma_wf(&self)
        requires
            self.wf(),
        ensures
            self.slot_count() > 0,
            0 <= self.count() <= self.slot_count(),
            self.count() == live_count(self.slots(), self.slot_count()),
            table_wf(self.slots(), self.count()),
    {
        lemma_live_count_bound(self.buckets@, self.buckets@.len() as int);
    }

    /// A table of sixteen empty slots.
    pub fn new() -> (table: HashTable)
        ensures
            table.wf(),
            table@ == Map::<Seq<char>, i32>::empty(),
            table.count() == 0,
            table.slot_count() == INITIAL_CAPACITY,
    {
        let buckets = empty_slots(INITIAL_CAPACITY);
        proof {
            lemma_empty_table(buckets@, buckets@.len() as int);
        }
        HashTable { buckets, size: 0, capacity: INITIAL_CAPACITY }
    }

    /// The number of slots.
    pub fn capacity(&self) -> (n: usize)
        requires
            self.wf(),
        ensures
            n == self.slot_count(),
    {
        self.capacity
    }

    /// The slot at which the walk for `key` starts.
    pub fn hash(&self, key: &String) -> (index: usize)
        requires
            self.wf(),
        ensures
            index == home(key@, self.slot_count()),
            index < self.slot_count(),
    {
        let mut hasher = DefaultHasher::new();
        feed(key, &mut hasher);
        let h = hasher.finish();
        proof {
            lemma_home(key@, self.slot_count());
        }
        (#[verifier::truncate] (h as usize)) % self.capacity
    }

    /// Whether more than three quarters of the slots hold a key.
    pub fn is_crowded(&self) -> (crowded: bool)
        ensures
            crowded == (4 * self.count() > 3 * self.slot_count()),
            self.wf() && !crowded ==> self.count() < self.slot_count(),
    {
        proof {
            if self.wf() {
                self.lemma_wf();
            }
        }
        (self.size as u128) * 4 > (self.buckets.len() as u128) * 3
    }

    /// Walks from the slot `start` on, at most once around the table, and
    /// returns the slot that holds `key` and `true`; where none does, the
    /// first slot on the way that was given up, or else the empty slot that
    /// ended the walk, and `false`.
    pub fn find_slot_from(&self, key: &String, start: usize) -> (r: (usize, bool))
        requires
            self.wf(),
            start < self.slot_count(),
        ensures
            (r.0 as int, r.1) == probe(self.slots(), key@, start as int, 0, None),
    {
        let capacity = self.buckets.len();
        let mut index = start;
        let mut first_deleted: Option<usize> = None;
        let mut d: usize = 0;
        while d < capacity
            invariant
                d <= capacity,
                capacity == self.buckets.len(),
                start < capacity,
                index == slot(start as int, d as int, capacity as int) || d == capacity,
                index < capacity,
                probe(self.slots(), key@, start as int, 0, None) == probe(
                    self.slots(),
                    key@,
                    start as int,
                    d as int,
                    match first_deleted {
                        Some(f) => Some(f as int),
                        None => None,
                    },
                ),
            decreases capacity - d,
        {
            match &self.buckets[index] {
                None => {
                    return (
                        match first_deleted {
                            Some(f) => f,
                            None => index,
                        },
                        false,
                    );
                },
                Some(entry) => {
                    if entry.is_deleted {
                        if first_deleted.is_none() {
                            first_deleted = Some(index);
                        }
                    } else if entry.key == *key {
                        return (index, true);
                    }
                },
            }
            proof {
                if index + 1 < capacity {
                    vstd::arithmetic::div_mod::lemma_small_mod((index + 1) as nat, capacity as nat);
                } else {
                    vstd::arithmetic::div_mod::lemma_mod_self_0(capacity as int);
                }
            }
            index = (index + 1) % capacity;
            d += 1;
        }
        (
            match first_deleted {
                Some(f) => f,
                None => 0,
            },
            false,
        )
    }

    /// The slot that holds `key` and `true`, or the slot that `key` can be
    /// put in and `false`.
    pub fn find_slot(&self, key: &String) -> (r: (usize, bool))
        requires
            self.wf(),
        ensures
            (r.0 as int, r.1) == probe(
                self.slots(),
                key@,
                home(key@, self.slot_count()),
                0,
                None,
            ),
            r.0 < self.slot_count(),
            r.1 == self@.contains_key(key@),
            r.1 ==> holds(self.slots(), r.0 as int, key@),
            !r.1 ==> reachable(self.slots(), home(key@, self.slot_count()), r.0 as int),
            !r.1 && self.count() < self.slot_count() ==> !is_live(self.slots(), r.0 as int),
    {
        let start = self.hash(key);
        let r = self.find_slot_from(key, start);
        proof {
            let b = self.buckets@;
            assert forall|i: int| holds(b, i, key@) implies reachable(b, start as int, i) by {
                assert(is_live(b, i));
            }
            lemma_probe(b, key@, start as int, 0, None);
            if !r.1 && self.count() < self.slot_count() {
                if is_live(b, r.0 as int) {
                    lemma_all_live(b, b.len() as int);
                }
            }
            if r.1 {
                assert(holds(b, r.0 as int, key@));
            }
        }
        r
    }

    /// Maps `key` to `value` in a table that has a slot to spare.
    pub fn insert_internal(&mut self, key: String, value: i32)
        requires
            old(self).wf(),
            old(self).count() < old(self).slot_count(),
        ensures
            final(self).wf(),
            final(self)@ == old(self)@.insert(key@, value),
            final(self).slot_count() == old(self).slot_count(),
            final(self).count() == if old(self)@.contains_key(key@) {
                old(self).count()
            } else {
                old(self).count() + 1
            },
    {
        let (index, found) = self.find_slot(&key);
        let entry = Entry { key, value, is_deleted: false };
        proof {
            if found {
                lemma_rewrite(self.buckets@, self.size as int, index as int, entry);
            } else {
                lemma_put(self.buckets@, self.size as int, index as int, entry);
            }
        }
        self.buckets[index] = Some(entry);
        if !found {
            self.size += 1;
        }
    }

    /// Doubles the number of slots and puts every key in its new place.
    pub fn resize(&mut self)
        requires
            old(self).wf(),
            old(self).slot_count() * 2 <= usize::MAX,
        ensures
            final(self).wf(),
            final(self)@ == old(self)@,
            final(self).count() == old(self).count(),
            final(self).slot_count() == old(self).slot_count() * 2,
    {
        let old_capacity = self.capacity;
        let mut bigger = HashTable {
            buckets: empty_slots(old_capacity * 2),
            size: 0,
            capacity: old_capacity * 2,
        };
        proof {
            lemma_empty_table(bigger.buckets@, bigger.buckets@.len() as int);
        }
        let ghost old_slots = self.buckets@;
        let mut i: usize = 0;
        while i < old_capacity
            invariant
                i <= old_capacity,
                old_capacity == self.buckets.len(),
                self.buckets@ == old_slots,
                table_wf(old_slots, self.size as int),
                bigger.wf(),
                bigger.slot_count() == old_capacity * 2,
                bigger.count() == live_count(old_slots, i as int),
                forall|key: Seq<char>|
                    bigger@.contains_key(key) <==> exists|j: int|
                        0 <= j < i && holds(old_slots, j, key),
                forall|j: int|
                    0 <= j < i && is_live(old_slots, j) ==> bigger@[old_slots[j]->0.key@]
                        == old_slots[j]->0.value,
            decreases old_capacity - i,
        {
            proof {
                lemma_live_count_bound(old_slots, i as int);
            }
            let ghost before = bigger@;
            match &self.buckets[i] {
                Some(entry) => {
                    if !entry.is_deleted {
                        proof {
                            if before.contains_key(entry.key@) {
                                let j = choose|j: int| 0 <= j < i && holds(old_slots, j, entry.key@);
                                assert(is_live(old_slots, j) && is_live(old_slots, i as int));
                            }
                        }
                        bigger.insert_internal(entry.key.clone(), entry.value);
                        proof {
                            assert(holds(old_slots, i as int, entry.key@));
                            assert forall|key: Seq<char>| bigger@.contains_key(key) <==> exists|
                                j: int,
                            |
                                0 <= j < i + 1 && holds(old_slots, j, key) by {
                                if before.contains_key(key) {
                                    let j = choose|j: int| 0 <= j < i && holds(old_slots, j, key);
                                    assert(0 <= j < i + 1 && holds(old_slots, j, key));
                                }
                                if exists|j: int| 0 <= j < i + 1 && holds(old_slots, j, key) {
                                    let j = choose|j: int|
                                        0 <= j < i + 1 && holds(old_slots, j, key);
                                    if j < i {
                                        assert(0 <= j < i && holds(old_slots, j, key));
                                    }
                                }
                            }
                            assert forall|j: int|
                                0 <= j < i + 1 && is_live(
                                    old_slots,
                                    j,
                                ) implies bigger@[old_slots[j]->0.key@]
                                == old_slots[j]->0.value by {
                                if j < i {
                                    assert(is_live(old_slots, j) && is_live(old_slots, i as int));
                                }
                            }
                        }
                    }
                },
                None => {},
            }
            proof {
                if !is_live(old_slots, i as int) {
                    assert forall|key: Seq<char>| bigger@.contains_key(key) <==> exists|j: int|
                        0 <= j < i + 1 && holds(old_slots, j, key) by {
                        if before.contains_key(key) {
                            let j = choose|j: int| 0 <= j < i && holds(old_slots, j, key);
                            assert(0 <= j < i + 1 && holds(old_slots, j, key));
                        }
                        if exists|j: int| 0 <= j < i + 1 && holds(old_slots, j, key) {
                            let j = choose|j: int| 0 <= j < i + 1 && holds(old_slots, j, key);
                            assert(0 <= j < i && holds(old_slots, j, key));
                        }
                    }
                }
            }
            i += 1;
        }
        proof {
            let target = contents(old_slots);
            assert forall|key: Seq<char>| bigger@.contains_key(key) <==> target.contains_key(
                key,
            ) by {
                if target.contains_key(key) {
                    let j = choose|j: int| holds(old_slots, j, key);
                    assert(0 <= j < old_capacity && holds(old_slots, j, key));
                }
            }
            assert forall|key: Seq<char>| bigger@.contains_key(key) implies bigger@[key]
                == target[key] by {
                let j = choose|j: int| 0 <= j < old_capacity && holds(old_slots, j, key);
                lemma_contents(old_slots, self.size as int, j);
            }
            assert(bigger@ =~= target);
        }
        *self = bigger;
    }

    /// Maps `key` to `value`, whatever it was mapped to before. The table
    /// doubles its slots first where more than three quarters of them hold
    /// a key.
    pub fn insert(&mut self, key: String, value: i32)
        requires
            old(self).wf(),
            old(self).slot_count() * 2 <= usize::MAX,
        ensures
            final(self).wf(),
            final(self)@ == old(self)@.insert(key@, value),
            final(self).slot_count() == if 4 * old(self).count() > 3 * old(self).slot_count() {
                old(self).slot_count() * 2
            } else {
                old(self).slot_count()
            },
            final(self).count() == if old(self)@.contains_key(key@) {
                old(self).count()
            } else {
                old(self).count() + 1
            },
    {
        proof {
            self.lemma_wf();
        }
        if self.is_crowded() {
            self.resize();
        }
        self.insert_internal(key, value);
    }

    /// The value that `key` is mapped to, if it is mapped to one.
    pub fn get(&self, key: &String) -> (r: Option<&i32>)
        requires
            self.wf(),
        ensures
            match r {
                Some(value) => self@.contains_key(key@) && *value == self@[key@],
                None => !self@.contains_key(key@),
            },
    {
        let (index, found) = self.find_slot(key);
        if found {
            proof {
                lemma_contents(self.buckets@, self.size as int, index as int);
            }
            match &self.buckets[index] {
                Some(entry) => Some(&entry.value),
                None => None,
            }
        } else {
            None
        }
    }

    /// Takes `key` out of the table and returns the value that it was
    /// mapped to, if it was mapped to one. Its slot is given up, not
    /// emptied.
    pub fn remove(&mut self, key: &String) -> (r: Option<i32>)
        requires
            old(self).wf(),
        ensures
            final(self).wf(),
            final(self)@ == old(self)@.remove(key@),
            final(self).slot_count() == old(self).slot_count(),
            match r {
                Some(value) => old(self)@.contains_key(key@) && value == old(self)@[key@]
                    && final(self).count() == old(self).count() - 1,
                None => !old(self)@.contains_key(key@) && final(self).count() == old(self).count(),
            },
    {
        let (index, found) = self.find_slot(key);
        if found {
            let value = match &self.buckets[index] {
                Some(entry) => entry.value,
                None => 0,
            };
            let entry = Entry { key: key.clone(), value, is_deleted: true };
            proof {
                lemma_contents(self.buckets@, self.size as int, index as int);
                lemma_rewrite(self.buckets@, self.size as int, index as int, entry);
                lemma_live_count_bound(self.buckets@, self.buckets@.len() as int);
                lemma_positive_count(self.buckets@, index as int, self.buckets@.len() as int);
            }
            self.buckets[index] = Some(entry);
            self.size -= 1;
            Some(value)
        } else {
            proof {
                assert(self@ =~= old(self)@.remove(key@));
            }
            None
        }
    }

    /// Whether `key` is mapped to a value.
    pub fn contains_key(&self, key: &String) -> (b: bool)
        requires
            self.wf(),
        ensures
            b == self@.contains_key(key@),
    {
        self.get(key).is_some()
    }

    /// The number of keys.
    pub fn len(&self) -> (n: usize)
        ensures
            n == self.count(),
    {
        self.size
    }

    /// Whether the table holds no key.
    pub fn is_empty(&self) -> (b: bool)
        ensures
            b == (self.count() == 0),
    {
        self.size == 0
    }

    /// The keys, in the order of their slots.
    pub fn keys(&self) -> (keys: Vec<&String>)
        ensures
            keys.len() == live_keys(self.slots(), self.slot_count()).len(),
            forall|i: int|
                0 <= i < keys.len() ==> (#[trigger] keys[i])@ == live_keys(
                    self.slots(),
                    self.slot_count(),
                )[i],
    {
        let mut keys: Vec<&String> = Vec::new();
        let mut i: usize = 0;
        while i < self.buckets.len()
            invariant
                i <= self.buckets.len(),
                keys.len() == live_keys(self.buckets@, i as int).len(),
                forall|j: int|
                    0 <= j < keys.len() ==> (#[trigger] keys[j])@ == live_keys(
                        self.buckets@,
                        i as int,
                    )[j],
            decreases self.buckets.len() - i,
        {
            match &self.buckets[i] {
                Some(entry) => {
                    if !entry.is_deleted {
                        keys.push(&entry.key);
                    }
                },
                None => {},
            }
            i += 1;
        }
        keys
    }

    /// The values, in the order of their slots.
    pub fn values(&self) -> (values: Vec<&i32>)
        ensures
            values.len() == live_values(self.slots(), self.slot_count()).len(),
            forall|i: int|
                0 <= i < values.len() ==> *(#[trigger] values[i]) == live_values(
                    self.slots(),
                    self.slot_count(),
                )[i],
    {
        let mut values: Vec<&i32> = Vec::new();
        let mut i: usize = 0;
        while i < self.buckets.len()
            invariant
                i <= self.buckets.len(),
                values.len() == live_values(self.buckets@, i as int).len(),
                forall|j: int|
                    0 <= j < values.len() ==> *(#[trigger] values[j]) == live_values(
                        self.buckets@,
                        i as int,
                    )[j],
            decreases self.buckets.len() - i,
        {
            match &self.buckets[i] {
                Some(entry) => {
                    if !entry.is_deleted {
                        values.push(&entry.value);
                    }
                },
                None => {},
            }
            i += 1;
        }
        values
    }

    /// What the slot `index` holds.
    pub fn slot_entry(&self, index: usize) -> (entry: &Option<Entry>)
        requires
            index < self.slot_count(),
        ensures
            *entry == self.slots()[index as int],
    {
        &self.buckets[index]
    }
}

/// A table with a live slot holds at least one key.
proof fn lemma_positive_count(b: Seq<Option<Entry>>, at: int, upto: int)
    requires
        0 <= at < upto <= b.len(),
        is_live(b, at),
    ensures
        live_count(b, upto) >= 1,
    decreases upto,
{
    if at < upto - 1 {
        lemma_positive_count(b, at, upto - 1);
    }
}

} // verus!
