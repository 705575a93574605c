//! A chained hash table on byte-string keys, and over two of them a table
//! that grows by moving a bounded number of entries on each change.

use vstd::prelude::*;
use std::collections::hash_map::DefaultHasher;
use std::hash::Hasher;
use vstd::std_specs::hash::DefaultHasherAdditionalSpecFns;
use crate::bytes::bytes_eq;

verus! {

/// The hash of a key: that of the default hasher after one write of the key's bytes.
pub open spec fn spec_hash(key: Seq<u8>) -> u64 {
    DefaultHasher::spec_finish(seq![key])
}

/// Hashes a key.
pub fn calculate_hash(value: &[u8]) -> (h: u64)
    ensures
        h == spec_hash(value@),
{
    let mut s = DefaultHasher::new();
    s.write(value);
    s.finish()
}

/// Whether `n` is a power of two.
pub open spec fn is_power_of_two(n: usize) -> bool {
    n > 0 && (n as u64) & ((n - 1) as u64) == 0
}

/// A key and the value stored under it.
struct Entry<V> {
    key: Vec<u8>,
    value: V,
}

/// The index of the entry of `bucket` with key `key`, if there is one.
fn find<V>(bucket: &Vec<Entry<V>>, key: &[u8]) -> (r: Option<usize>)
    ensures
        match r {
            Some(i) => i < bucket.len() && bucket[i as int].key@ == key@,
            None => forall|j: int| 0 <= j < bucket.len() ==> (#[trigger] bucket[j]).key@ != key@,
        },
{
    let mut i: usize = 0;
    while i < bucket.len()
        invariant
            i <= bucket.len(),
            forall|j: int| 0 <= j < i ==> (#[trigger] bucket[j]).key@ != key@,
        decreases bucket.len() - i,
    {
        if bytes_eq(bucket[i].key.as_slice(), key) {
            return Some(i);
        }
        i += 1;
    }
    None
}

/// A hash table with a fixed number of buckets, each a list of entries.
pub struct HashMap<V> {
    data: Vec<Vec<Entry<V>>>,
    size: usize,
    mask: u64,
    contents: Ghost<Map<Seq<u8>, V>>,
}

impl<V> View for HashMap<V> {
    type V = Map<Seq<u8>, V>;

    /// The keys of the table, each with its value.
    closed spec fn view(&self) -> Map<Seq<u8>, V> {
        self.contents@
    }
}

impl<V> HashMap<V> {
    /// The number of buckets.
    pub closed spec fn buckets(&self) -> nat {
        self.data.len() as nat
    }

    /// The bucket in which `key` is looked for.
    spec fn slot(&self, key: Seq<u8>) -> int {
        (spec_hash(key) & self.mask) as int
    }

    /// The number of entries in bucket `b`.
    pub closed spec fn bucket_len(&self, b: int) -> nat {
        self.data[b].len() as nat
    }

    /// Entry `j` of bucket `b`.
    spec fn entry(&self, b: int, j: int) -> Entry<V> {
        self.data[b][j]
    }

    /// The table is well formed: the number of buckets is a power of two,
    /// each entry lies in the bucket of its key, no key occurs twice, and
    /// the entries are those of the view.
    pub closed spec fn wf(&self) -> bool {
        &&& is_power_of_two(self.data.len())
        &&& self.mask == self.data.len() - 1
        &&& self.contents@.dom().finite()
        &&& self.size == self.contents@.dom().len()
        &&& forall|b: int, j: int|
            0 <= b < self.data.len() && 0 <= j < self.bucket_len(b) ==> {
                let e = #[trigger] self.entry(b, j);
                &&& self.contents@.contains_key(e.key@)
                &&& self.contents@[e.key@] == e.value
                &&& self.slot(e.key@) == b
            }
        &&& forall|b: int, i: int, j: int|
            0 <= b < self.data.len() && 0 <= i < j < self.bucket_len(b) ==> (#[trigger] self.entry(
                b,
                i,
            )).key@ != (#[trigger] self.entry(b, j)).key@
        &&& forall|k: Seq<u8>| #[trigger]
            self.contents@.contains_key(k) ==> exists|j: int|
                0 <= j < self.bucket_len(self.slot(k)) && (#[trigger] self.entry(
                    self.slot(k),
                    j,
                )).key@ == k
    }

    /// A well-formed table holds finitely many keys, in a power of two of
    /// buckets.
    pub proof fn lemma_finite(&self)
        requires
            self.wf(),
        ensures
            self@.dom().finite(),
            self.buckets() <= usize::MAX,
            is_power_of_two(self.buckets() as usize),
    {
    }

    /// The bucket of a key is one of the table's buckets.
    proof fn lemma_slot_in_range(&self, key: Seq<u8>)
        requires
            self.wf(),
        ensures
            0 <= self.slot(key) < self.buckets(),
    {
        let h = spec_hash(key);
        let mask = self.mask;
        assert(h & mask <= mask) by (bit_vector);
    }

    /// An empty table of `size` buckets.
    pub fn new(size: usize) -> (table: Self)
        requires
            is_power_of_two(size),
        ensures
            table.wf(),
            table@ == Map::<Seq<u8>, V>::empty(),
            table.buckets() == size,
    {
        let mut data: Vec<Vec<Entry<V>>> = Vec::new();
        let mut i: usize = 0;
        while i < size
            invariant
                i <= size,
                data.len() == i,
                forall|b: int| 0 <= b < i ==> (#[trigger] data[b]).len() == 0,
            decreases size - i,
        {
            data.push(Vec::new());
            i += 1;
        }
        Self { data, mask: (size - 1) as u64, size: 0, contents: Ghost(Map::empty()) }
    }

    /// The number of keys.
    pub fn len(&self) -> (n: usize)
        requires
            self.wf(),
        ensures
            n == self@.dom().len(),
    {
        self.size
    }

    fn position(&self, key: &[u8]) -> (pos: usize)
        requires
            self.wf(),
        ensures
            pos == self.slot(key@),
            pos < self.data.len(),
    {
        let h = calculate_hash(key);
        let mask = self.mask;
        assert(h & mask <= mask) by (bit_vector);
        (h & mask) as usize
    }

    /// The value stored under `key`, if there is one.
    pub fn get(&self, key: &[u8]) -> (r: Option<&V>)
        requires
            self.wf(),
        ensures
            match r {
                Some(v) => self@.contains_key(key@) && *v == self@[key@],
                None => !self@.contains_key(key@),
            },
    {
        let pos = self.position(key);
        let list = &self.data[pos];
        match find(list, key) {
            Some(i) => {
                assert(self.entry(pos as int, i as int).key@ == key@);
                Some(&list[i].value)
            },
            None => {
                assert forall|j: int| 0 <= j < self.bucket_len(pos as int) implies (
                #[trigger] self.entry(pos as int, j)).key@ != key@ by {
                    assert(list[j].key@ != key@);
                }
                None
            },
        }
    }

    /// Stores `value` under `key`, in place of what was stored there.
    pub fn insert(&mut self, key: Vec<u8>, value: V)
        requires
            old(self).wf(),
            old(self)@.contains_key(key@) || old(self)@.dom().len() < usize::MAX,
        ensures
            final(self).wf(),
            final(self)@ == old(self)@.insert(key@, value),
            final(self).buckets() == old(self).buckets(),
    {
        let pos = self.position(key.as_slice());
        let ghost k = key@;
        let ghost before = *self;
        match find(&self.data[pos], key.as_slice()) {
            Some(i) => {
                assert(self.entry(pos as int, i as int).key@ == k);
                self.data[pos][i].value = value;
                self.contents = Ghost(self.contents@.insert(k, value));
                proof {
                    assert(self.contents@.dom() =~= before.contents@.dom());
                    assert forall|b: int, j: int|
                        0 <= b < self.data.len() && 0 <= j < self.bucket_len(b) implies (
                    #[trigger] self.entry(b, j)).key@ == before.entry(b, j).key@ && (b != pos || j
                        != i ==> self.entry(b, j) == before.entry(b, j)) by {}
                    assert forall|q: Seq<u8>| #[trigger]
                        self.contents@.contains_key(q) implies exists|j: int|
                        0 <= j < self.bucket_len(self.slot(q)) && (#[trigger] self.entry(
                            self.slot(q),
                            j,
                        )).key@ == q by {
                        assert(before.contents@.contains_key(q));
                        before.lemma_slot_in_range(q);
                        let j = choose|j: int|
                            0 <= j < before.bucket_len(before.slot(q)) && (
                            #[trigger] before.entry(before.slot(q), j)).key@ == q;
                        assert(self.entry(self.slot(q), j).key@ == q);
                    }
                }
            },
            None => {
                proof {
                    assert forall|j: int| 0 <= j < self.bucket_len(pos as int) implies (
                    #[trigger] self.entry(pos as int, j)).key@ != k by {
                        assert(self.data[pos as int][j].key@ != k);
                    }
                    assert(!self.contents@.contains_key(k));
                }
                self.data[pos].push(Entry { key, value });
                self.size += 1;
                self.contents = Ghost(self.contents@.insert(k, value));
                proof {
                    let last = before.bucket_len(pos as int) as int;
                    assert forall|b: int, j: int|
                        0 <= b < self.data.len() && 0 <= j < self.bucket_len(b) && !(b == pos && j
                            == last) implies (#[trigger] self.entry(b, j)) == before.entry(
                        b,
                        j,
                    ) by {}
                    assert(self.entry(pos as int, last).key@ == k);
                    assert(self.entry(pos as int, last).value == value);
                    assert forall|q: Seq<u8>| #[trigger]
                        self.contents@.contains_key(q) implies exists|j: int|
                        0 <= j < self.bucket_len(self.slot(q)) && (#[trigger] self.entry(
                            self.slot(q),
                            j,
                        )).key@ == q by {
                        if q == k {
                            assert(self.entry(self.slot(q), last).key@ == q);
                        } else {
                            assert(before.contents@.contains_key(q));
                            before.lemma_slot_in_range(q);
                            let j = choose|j: int|
                                0 <= j < before.bucket_len(before.slot(q)) && (
                                #[trigger] before.entry(before.slot(q), j)).key@ == q;
                            assert(self.entry(self.slot(q), j).key@ == q);
                        }
                    }
                }
            },
        }
    }

    /// Takes `key` and its value out of the table.
    pub fn remove(&mut self, key: &[u8]) -> (r: Option<V>)
        requires
            old(self).wf(),
        ensures
            final(self).wf(),
            r == old(self)@.get(key@),
            final(self)@ == old(self)@.remove(key@),
            final(self).buckets() == old(self).buckets(),
            forall|b: int|
                0 <= b < old(self).buckets() ==> final(self).bucket_len(b) <= old(self).bucket_len(
                    b,
                ),
    {
        let pos = self.position(key);
        let ghost k = key@;
        let ghost before = *self;
        match find(&self.data[pos], key) {
            Some(i) => {
                assert(self.entry(pos as int, i as int).key@ == k);
                let entry = self.data[pos].swap_remove(i);
                self.size -= 1;
                self.contents = Ghost(self.contents@.remove(k));
                proof {
                    let last = before.bucket_len(pos as int) - 1;
                    assert forall|b: int, j: int|
                        0 <= b < self.data.len() && 0 <= j < self.bucket_len(b) implies (
                    #[trigger] self.entry(b, j)) == (if b == pos && j == i {
                        before.entry(b, last)
                    } else {
                        before.entry(b, j)
                    }) by {}
                    assert forall|q: Seq<u8>| #[trigger]
                        self.contents@.contains_key(q) implies exists|j: int|
                        0 <= j < self.bucket_len(self.slot(q)) && (#[trigger] self.entry(
                            self.slot(q),
                            j,
                        )).key@ == q by {
                        assert(before.contents@.contains_key(q));
                        before.lemma_slot_in_range(q);
                        let j = choose|j: int|
                            0 <= j < before.bucket_len(before.slot(q)) && (
                            #[trigger] before.entry(before.slot(q), j)).key@ == q;
                        if before.slot(q) == pos && j == last {
                            assert(self.entry(self.slot(q), i as int).key@ == q);
                        } else {
                            assert(self.entry(self.slot(q), j).key@ == q);
                        }
                    }
                }
                Some(entry.value)
            },
            None => {
                proof {
                    assert forall|j: int| 0 <= j < self.bucket_len(pos as int) implies (
                    #[trigger] self.entry(pos as int, j)).key@ != k by {
                        assert(self.data[pos as int][j].key@ != k);
                    }
                    assert(!self.contents@.contains_key(k));
                    assert(self.contents@.remove(k) =~= self.contents@);
                }
                None
            },
        }
    }

    /// The number of buckets.
    fn bucket_count(&self) -> (n: usize)
        requires
            self.wf(),
        ensures
            n == self.buckets(),
            n > 0,
    {
        self.data.len()
    }

    /// Takes the last entry out of bucket `b`, if the bucket holds any.
    fn pop_bucket(&mut self, b: usize) -> (r: Option<Entry<V>>)
        requires
            old(self).wf(),
            b < old(self).buckets(),
        ensures
            final(self).wf(),
            final(self).buckets() == old(self).buckets(),
            forall|c: int|
                0 <= c < old(self).buckets() && c != b
                    ==> final(self).bucket_len(c) == old(self).bucket_len(c),
            match r {
                Some(e) => {
                    &&& old(self)@.contains_key(e.key@)
                    &&& old(self)@[e.key@] == e.value
                    &&& final(self)@ == old(self)@.remove(e.key@)
                    &&& final(self).bucket_len(b as int) + 1 == old(self).bucket_len(b as int)
                },
                None => {
                    &&& final(self)@ == old(self)@
                    &&& final(self).bucket_len(b as int) == 0
                    &&& old(self).bucket_len(b as int) == 0
                },
            },
    {
        let ghost before = *self;
        match self.data[b].pop() {
            Some(e) => {
                let ghost k = e.key@;
                let ghost last = before.bucket_len(b as int) - 1;
                assert(before.entry(b as int, last) == e);
                self.size -= 1;
                self.contents = Ghost(self.contents@.remove(k));
                proof {
                    assert forall|c: int, j: int|
                        0 <= c < self.data.len() && 0 <= j < self.bucket_len(c) implies (
                    #[trigger] self.entry(c, j)) == before.entry(c, j) by {}
                    assert forall|q: Seq<u8>| #[trigger]
                        self.contents@.contains_key(q) implies exists|j: int|
                        0 <= j < self.bucket_len(self.slot(q)) && (#[trigger] self.entry(
                            self.slot(q),
                            j,
                        )).key@ == q by {
                        assert(before.contents@.contains_key(q));
                        before.lemma_slot_in_range(q);
                        let j = choose|j: int|
                            0 <= j < before.bucket_len(before.slot(q)) && (
                            #[trigger] before.entry(before.slot(q), j)).key@ == q;
                        assert(self.entry(self.slot(q), j).key@ == q);
                    }
                }
                Some(e)
            },
            None => {
                proof {
                    assert forall|c: int, j: int|
                        0 <= c < self.data.len() && 0 <= j < self.bucket_len(c) implies (
                    #[trigger] self.entry(c, j)) == before.entry(c, j) by {}
                    assert forall|q: Seq<u8>| #[trigger]
                        self.contents@.contains_key(q) implies exists|j: int|
                        0 <= j < self.bucket_len(self.slot(q)) && (#[trigger] self.entry(
                            self.slot(q),
                            j,
                        )).key@ == q by {
                        before.lemma_slot_in_range(q);
                        let j = choose|j: int|
                            0 <= j < before.bucket_len(before.slot(q)) && (
                            #[trigger] before.entry(before.slot(q), j)).key@ == q;
                        assert(self.entry(self.slot(q), j).key@ == q);
                    }
                }
                None
            },
        }
    }

    /// A table whose buckets are all empty holds no key.
    proof fn lemma_no_entries(&self)
        requires
            self.wf(),
            forall|b: int| 0 <= b < self.buckets() ==> self.bucket_len(b) == 0,
        ensures
            self@ == Map::<Seq<u8>, V>::empty(),
    {
        assert forall|k: Seq<u8>| !self.contents@.contains_key(k) by {
            if self.contents@.contains_key(k) {
                self.lemma_slot_in_range(k);
            }
        }
        assert(self.contents@ =~= Map::<Seq<u8>, V>::empty());
    }
}

/// The most entries that one change of the table moves from the secondary
/// table to the primary one.
pub const MAX_RESIZING_WORK: usize = 128;

/// The load factor of the primary table above which the table grows.
pub const MAX_LOAD_FACTOR: usize = 8;

/// A change of a table: a key set to a value, or a key deleted.
pub enum Change<V> {
    Insert(Seq<u8>, V),
    Remove(Seq<u8>),
}

impl<V> Change<V> {
    /// The key that is set or deleted.
    pub open spec fn key(self) -> Seq<u8> {
        match self {
            Change::Insert(key, _) => key,
            Change::Remove(key) => key,
        }
    }
}

/// A hash table that grows without a pause: when the primary table is too
/// full, it becomes the secondary table, a primary table of twice the size
/// takes its place, and each later change moves a few entries over.
pub struct SuperHashMap<V> {
    map1: HashMap<V>,
    map2: Option<HashMap<V>>,
    resizing_pos: usize,
}

impl<V> View for SuperHashMap<V> {
    type V = Map<Seq<u8>, V>;

    /// The keys of the table, each with the value that a lookup finds: that
    /// of the primary table where both tables hold the key.
    open spec fn view(&self) -> Map<Seq<u8>, V> {
        self.secondary().union_prefer_right(self.primary())
    }
}

impl<V> SuperHashMap<V> {
    /// The contents of the primary table.
    pub closed spec fn primary(&self) -> Map<Seq<u8>, V> {
        self.map1@
    }

    /// The contents of the secondary table; empty while there is none.
    pub closed spec fn secondary(&self) -> Map<Seq<u8>, V> {
        match self.map2 {
            Some(m) => m@,
            None => Map::empty(),
        }
    }

    /// Whether there is a secondary table.
    pub closed spec fn rehashing(&self) -> bool {
        self.map2 is Some
    }

    /// The number of buckets of the primary table.
    pub closed spec fn primary_buckets(&self) -> nat {
        self.map1.buckets()
    }

    /// The number of buckets of the secondary table; none while there is
    /// no such table.
    pub closed spec fn secondary_buckets(&self) -> nat {
        match self.map2 {
            Some(m) => m.buckets(),
            None => 0,
        }
    }

    /// The number of entries in bucket `b` of the secondary table.
    pub closed spec fn secondary_bucket_len(&self, b: int) -> nat {
        match self.map2 {
            Some(m) => m.bucket_len(b),
            None => 0,
        }
    }

    /// The bucket of the secondary table at which the next move starts.
    pub closed spec fn cursor(&self) -> nat {
        self.resizing_pos as nat
    }

    /// Whether a primary table of `buckets` buckets that holds `entries`
    /// entries is too full.
    pub open spec fn overloaded(entries: nat, buckets: nat) -> bool {
        buckets > 0 && entries / buckets > MAX_LOAD_FACTOR
    }

    /// No key is in both tables.
    pub open spec fn disjoint(&self) -> bool {
        self.primary().dom().disjoint(self.secondary().dom())
    }

    /// The number of entries of both tables.
    pub open spec fn spec_len(&self) -> nat {
        self.primary().dom().len() + self.secondary().dom().len()
    }

    /// Whether `insert` of `key` and `value` starts a resize: no resize is
    /// under way, and with the entry the primary table is too full.
    pub open spec fn grows_with(&self, key: Seq<u8>, value: V) -> bool {
        !self.rehashing() && Self::overloaded(
            self.primary().insert(key, value).dom().len(),
            self.primary_buckets(),
        )
    }

    /// The number of entries that wait in the secondary table once
    /// `insert` has put `key` and `value` in the primary table and, where
    /// that starts a resize, has made that table the secondary one.
    pub open spec fn waiting_with(&self, key: Seq<u8>, value: V) -> nat {
        if self.rehashing() {
            self.secondary().dom().len()
        } else if self.grows_with(key, value) {
            self.primary().insert(key, value).dom().len()
        } else {
            0
        }
    }

    /// The view once `key` is taken out as `remove` does it: out of the
    /// primary table if it is there, else out of the secondary one.
    pub open spec fn spec_remove(&self, key: Seq<u8>) -> Map<Seq<u8>, V> {
        if self.primary().contains_key(key) {
            self.secondary().union_prefer_right(self.primary().remove(key))
        } else {
            self@.remove(key)
        }
    }

    /// What a move of entries leaves of the secondary table of `before`,
    /// where it leaves any: the table has the buckets that it had, the
    /// cursor did not go back, and the buckets behind the cursor are as
    /// they were.
    pub open spec fn moved_on_from(&self, before: Self) -> bool {
        &&& self.secondary_buckets() == before.secondary_buckets()
        &&& before.cursor() <= self.cursor() < self.secondary_buckets()
        &&& forall|b: int|
            self.cursor() < b < self.secondary_buckets() ==> #[trigger] self.secondary_bucket_len(b)
                == before.secondary_bucket_len(b)
    }

    /// The invariant, with `slack` to spare in the bound that keeps the
    /// primary table from filling up before the secondary one is empty.
    spec fn inv(&self, slack: int) -> bool {
        let p = self.map1@.dom().len();
        &&& self.map1.wf()
        &&& match self.map2 {
            None => self.resizing_pos == 0 && p < 9 * self.map1.buckets(),
            Some(m) => {
                let n = m.buckets();
                &&& m.wf()
                &&& self.map1.buckets() == 2 * n
                &&& self.resizing_pos <= n
                &&& forall|b: int| 0 <= b < self.resizing_pos ==> m.bucket_len(b) == 0
                &&& 128 * (p + m@.dom().len()) + m@.dom().len() <= 1161 * n + slack
            },
        }
        &&& self.spec_len() <= usize::MAX
    }

    /// The table is well formed: both tables are; while rehashing the primary
    /// table has twice the buckets of the secondary one, whose buckets below
    /// the cursor are empty; and the load factor of the primary table is at
    /// most `MAX_LOAD_FACTOR`.
    pub closed spec fn wf(&self) -> bool {
        self.inv(0)
    }

    /// An empty table whose primary table has `capacity` buckets.
    pub fn new(capacity: usize) -> (table: Self)
        requires
            is_power_of_two(capacity),
        ensures
            table.wf(),
            table@ == Map::<Seq<u8>, V>::empty(),
            !table.rehashing(),
            table.primary() == Map::<Seq<u8>, V>::empty(),
            table.secondary() == Map::<Seq<u8>, V>::empty(),
            table.primary_buckets() == capacity,
            table.disjoint(),
    {
        let table = Self { map1: HashMap::new(capacity), map2: None, resizing_pos: 0 };
        assert(table@ =~= Map::<Seq<u8>, V>::empty());
        table
    }

    /// The number of entries of both tables.
    pub fn len(&self) -> (n: usize)
        requires
            self.wf(),
        ensures
            n == self.spec_len(),
    {
        let m1_len = self.map1.len();
        let m2_len = match &self.map2 {
            Some(m) => m.len(),
            None => 0,
        };
        m1_len + m2_len
    }

    /// Whether entries are still to be moved from a secondary table.
    pub fn is_resizing(&self) -> (b: bool)
        ensures
            b == self.rehashing(),
    {
        self.map2.is_some()
    }

    /// The value that is stored under `key`: that of the primary table, or
    /// else that of the secondary table.
    pub fn get(&self, key: &[u8]) -> (r: Option<&V>)
        requires
            self.wf(),
        ensures
            match r {
                Some(v) => self@.contains_key(key@) && *v == self@[key@],
                None => !self@.contains_key(key@),
            },
    {
        if let Some(value) = self.map1.get(key) {
            return Some(value);
        }
        if let Some(m) = &self.map2 {
            m.get(key)
        } else {
            None
        }
    }

    /// Makes the primary table the secondary one and puts an empty table of
    /// twice the buckets in its place, with the cursor at the first bucket.
    fn start_resizing(&mut self)
        requires
            old(self).map1.wf(),
            old(self).map2 is None,
            old(self).map1@.dom().len() == 9 * old(self).map1.buckets(),
        ensures
            final(self).inv(0),
            final(self).map2 == Some(old(self).map1),
            final(self).primary() == Map::<Seq<u8>, V>::empty(),
            final(self).secondary() == old(self).primary(),
            final(self).primary_buckets() == 2 * old(self).primary_buckets(),
    {
        let buckets = self.map1.bucket_count();
        let size = self.map1.len();
        assert(buckets * 2 <= usize::MAX);
        let new_capacity = buckets * 2;
        proof {
            let n = buckets as u64;
            let m = new_capacity as u64;
            assert(m > 0 && m & ((m - 1) as u64) == 0) by (bit_vector)
                requires
                    n > 0,
                    n & ((n - 1) as u64) == 0,
                    m == n * 2,
                    n < 0x8000_0000_0000_0000u64,
            ;
        }
        let mut fresh = HashMap::new(new_capacity);
        std::mem::swap(&mut self.map1, &mut fresh);
        self.map2 = Some(fresh);
        self.resizing_pos = 0;
    }

    /// What a move of entries makes of a table `self`: what a lookup
    /// finds stays; entries leave the secondary table for the primary one
    /// and nothing else changes, but that an entry whose key the primary
    /// table holds already is dropped; at most `MAX_RESIZING_WORK` entries
    /// leave; and where a secondary table is left, exactly that many have
    /// left it, from the cursor on. Where none is left, the cursor is back
    /// at the start.
    pub open spec fn helped(&self, after: &Self) -> bool {
        &&& after@ == self@
        &&& after.secondary().submap_of(self.secondary())
        &&& self.primary().submap_of(after.primary())
        &&& forall|k: Seq<u8>| #[trigger]
            after.primary().contains_key(k) ==> self.primary().contains_key(k) || (
            self.secondary().contains_key(k) && !after.secondary().contains_key(k))
        &&& self.secondary().dom().len() <= after.secondary().dom().len() + MAX_RESIZING_WORK
        &&& after.primary().dom().len() <= self.primary().dom().len() + MAX_RESIZING_WORK
        &&& after.rehashing() ==> self.rehashing() && self.secondary().dom().len()
            == after.secondary().dom().len() + MAX_RESIZING_WORK && after.moved_on_from(*self)
        &&& !after.rehashing() ==> after.cursor() == 0 && after.secondary() == Map::<
            Seq<u8>,
            V,
        >::empty()
        &&& after.primary_buckets() == self.primary_buckets()
        &&& after.spec_len() <= self.spec_len()
    }

    /// Moves up to `MAX_RESIZING_WORK` entries from the secondary table to
    /// the primary one, from the cursor on, and lets the secondary table go
    /// once the cursor is past its last bucket. An entry whose key the
    /// primary table holds already is dropped. Without a secondary table
    /// nothing happens.
    pub fn help_resizing(&mut self)
        requires
            old(self).wf(),
        ensures
            final(self).wf(),
            old(self).helped(final(self)),
            old(self).disjoint() ==> final(self).disjoint(),
    {
        self.migrate();
        proof {
            if old(self).disjoint() {
                assert forall|k: Seq<u8>|
                    !(self.primary().contains_key(k) && self.secondary().contains_key(k)) by {
                    if self.primary().contains_key(k) && self.secondary().contains_key(k) {
                        assert(old(self).secondary().dom().contains(k));
                        assert(old(self).primary().dom().contains(k));
                    }
                }
            }
        }
    }

    /// Does what `help_resizing` does, on a table in which an entry may
    /// just have been put.
    fn migrate(&mut self)
        requires
            old(self).inv(MAX_RESIZING_WORK as int),
        ensures
            final(self).inv(0),
            old(self).helped(final(self)),
    {
        if self.map2.is_none() {
            return ;
        }
        let mut m2 = self.map2.take().unwrap();
        let n = m2.bucket_count();
        let ghost old1 = old(self).map1@;
        let ghost old2 = m2@;
        let mut work: usize = 0;
        while self.resizing_pos < n && work < MAX_RESIZING_WORK
            invariant
                self.map1.wf(),
                m2.wf(),
                self.map2 is None,
                n == m2.buckets(),
                self.map1.buckets() == 2 * n,
                self.resizing_pos <= n,
                work <= MAX_RESIZING_WORK,
                forall|b: int| 0 <= b < self.resizing_pos ==> m2.bucket_len(b) == 0,
                old(self).resizing_pos <= self.resizing_pos,
                forall|b: int|
                    self.resizing_pos < b < n ==> #[trigger] m2.bucket_len(b)
                        == old(self).secondary_bucket_len(b),
                old(self).secondary_buckets() == n,
                m2@.union_prefer_right(self.map1@) == old2.union_prefer_right(old1),
                m2@.submap_of(old2),
                old1.submap_of(self.map1@),
                forall|k: Seq<u8>| #[trigger]
                    self.map1@.contains_key(k) ==> old1.contains_key(k) || (old2.contains_key(k)
                        && !m2@.contains_key(k)),
                m2@.dom().len() + work == old2.dom().len(),
                self.map1@.dom().len() <= old1.dom().len() + work,
                self.map1@.dom().len() + m2@.dom().len() <= old1.dom().len() + old2.dom().len(),
                old1.dom().len() + old2.dom().len() <= usize::MAX,
                128 * (self.map1@.dom().len() + m2@.dom().len()) + m2@.dom().len() + work <= 1161
                    * n + MAX_RESIZING_WORK,
            decreases n - self.resizing_pos, m2@.dom().len(),
        {
            let ghost m2_before = m2@;
            let ghost m1_before = self.map1@;
            match m2.pop_bucket(self.resizing_pos) {
                Some(entry) => {
                    work += 1;
                    let ghost k = entry.key@;
                    if self.map1.get(entry.key.as_slice()).is_none() {
                        self.map1.insert(entry.key, entry.value);
                    }
                    proof {
                        assert(m2@ == m2_before.remove(k));
                        assert(self.map1@ == m1_before || (!m1_before.contains_key(k)
                            && self.map1@ == m1_before.insert(k, m2_before[k])));
                        assert(m2@.union_prefer_right(self.map1@) =~= m2_before.union_prefer_right(
                            m1_before,
                        ));
                        assert forall|q: Seq<u8>| #[trigger]
                            m2@.dom().contains(q) implies old2.dom().contains(q) && m2@[q]
                            == old2[q] by {
                            assert(m2_before.dom().contains(q));
                        }
                        assert forall|q: Seq<u8>| #[trigger]
                            old1.dom().contains(q) implies self.map1@.dom().contains(q) && old1[q]
                            == self.map1@[q] by {
                            assert(m1_before.dom().contains(q));
                        }
                    }
                },
                None => {
                    self.resizing_pos += 1;
                },
            }
        }
        if self.resizing_pos >= n {
            proof {
                m2.lemma_no_entries();
                assert(m2@.union_prefer_right(self.map1@) =~= self.map1@);
            }
            self.resizing_pos = 0;
        } else {
            self.map2 = Some(m2);
        }
    }

    /// Stores `value` under `key` in the primary table, in place of what
    /// was stored there; an entry of the secondary table with that key
    /// stays where it is, out of sight. Then, if the primary table holds
    /// more than `MAX_LOAD_FACTOR` entries per bucket, starts a resize; and
    /// in any case moves up to `MAX_RESIZING_WORK` entries over.
    pub fn insert(&mut self, key: Vec<u8>, value: V)
        requires
            old(self).wf(),
            old(self).spec_len() < usize::MAX,
        ensures
            final(self).wf(),
            final(self)@ == old(self)@.insert(key@, value),
            old(self).disjoint() && !old(self).secondary().contains_key(key@)
                ==> final(self).disjoint(),
            old(self).disjoint() && old(self).rehashing() ==> (final(self).disjoint()
                <==> !final(self).secondary().contains_key(key@)),
            old(self).rehashing() && final(self).rehashing() ==> final(self).moved_on_from(
                *old(self),
            ),
            final(self).primary_buckets() == if old(self).grows_with(key@, value) {
                2 * old(self).primary_buckets()
            } else {
                old(self).primary_buckets()
            },
            final(self).spec_len() <= old(self).spec_len() + 1,
            old(self).waiting_with(key@, value) <= final(self).secondary().dom().len()
                + MAX_RESIZING_WORK,
            final(self).rehashing() ==> old(self).waiting_with(key@, value)
                == final(self).secondary().dom().len() + MAX_RESIZING_WORK,
    {
        let ghost k = key@;
        self.map1.insert(key, value);
        let buckets = self.map1.bucket_count();
        let load_factor = self.map1.len() / buckets;
        proof {
            let p = self.map1@.dom().len() as int;
            let b = buckets as int;
            assert(p / b > 8 <==> p >= 9 * b) by (nonlinear_arith)
                requires
                    b > 0,
                    p >= 0,
            ;
            assert(self@ =~= old(self)@.insert(k, value));
        }
        if load_factor > MAX_LOAD_FACTOR {
            self.start_resizing();
            proof {
                assert(self@ =~= old(self)@.insert(k, value));
            }
        }
        let ghost mid = *self;
        self.migrate();
        proof {
            if old(self).disjoint() && old(self).rehashing() {
                assert(mid.primary() == old(self).primary().insert(k, value));
                assert(mid.secondary() == old(self).secondary());
                assert(self.primary().dom().contains(k)) by {
                    assert(mid.primary().dom().contains(k));
                }
                assert forall|q: Seq<u8>|
                    q != k implies !(self.primary().contains_key(q)
                    && self.secondary().contains_key(q)) by {
                    if self.primary().contains_key(q) && self.secondary().contains_key(q) {
                        assert(mid.secondary().dom().contains(q));
                        assert(mid.primary().dom().contains(q));
                        assert(old(self).primary().dom().contains(q));
                        assert(old(self).secondary().dom().contains(q));
                    }
                }
                if !self.secondary().contains_key(k) {
                    assert(self.disjoint());
                }
                if self.disjoint() {
                    assert(!self.secondary().dom().contains(k));
                }
            }
        }
    }

    /// Takes `key` out of the primary table, or else out of the secondary
    /// one, and returns the value that was stored with it. Then moves up to
    /// `MAX_RESIZING_WORK` entries over.
    ///
    /// Where both tables held the key, the entry of the secondary table
    /// stays, and is what a lookup finds from then on.
    pub fn remove(&mut self, key: &[u8]) -> (r: Option<V>)
        requires
            old(self).wf(),
        ensures
            final(self).wf(),
            r == old(self)@.get(key@),
            final(self)@ == old(self).spec_remove(key@),
            old(self).disjoint() ==> final(self).disjoint(),
            final(self).primary_buckets() == old(self).primary_buckets(),
            final(self).spec_len() <= old(self).spec_len(),
            final(self).rehashing() ==> old(self).cursor() <= final(self).cursor(),
            final(self).rehashing() ==> old(self).rehashing() && old(self).secondary().dom().len()
                >= final(self).secondary().dom().len() + MAX_RESIZING_WORK,
            old(self).secondary().dom().len() <= final(self).secondary().dom().len()
                + MAX_RESIZING_WORK + 1,
    {
        let r = match self.map1.remove(key) {
            Some(value) => Some(value),
            None => match self.map2.as_mut() {
                Some(m) => m.remove(key),
                None => None,
            },
        };
        proof {
            if !old(self).primary().contains_key(key@) {
                assert(self@ =~= old(self)@.remove(key@));
            }
            assert(self.primary().submap_of(old(self).primary()));
            assert(self.secondary().submap_of(old(self).secondary()));
        }
        let ghost mid = *self;
        self.migrate();
        proof {
            if old(self).disjoint() {
                assert forall|k: Seq<u8>|
                    !(self.primary().contains_key(k) && self.secondary().contains_key(k)) by {
                    if self.primary().contains_key(k) && self.secondary().contains_key(k) {
                        assert(mid.secondary().contains_key(k));
                        assert(mid.primary().contains_key(k));
                        assert(old(self).primary().dom().contains(k));
                        assert(old(self).secondary().dom().contains(k));
                    }
                }
            }
        }
        r
    }
}

impl<V> HashMap<V> {
    /// The keys from entry `j` of bucket `b` on, bucket by bucket.
    spec fn keys_from(&self, b: int, j: int) -> Seq<Seq<u8>>
        decreases self.data.len() - b, self.data[b].len() - j,
    {
        if b < 0 || b >= self.data.len() || j < 0 {
            Seq::empty()
        } else if j >= self.data[b].len() {
            self.keys_from(b + 1, 0)
        } else {
            seq![self.data[b][j].key@] + self.keys_from(b, j + 1)
        }
    }

    /// The keys of the table in the order of its buckets.
    pub closed spec fn keys(&self) -> Seq<Seq<u8>> {
        self.keys_from(0, 0)
    }

    /// The keys from a place on are those of the entries at or behind that
    /// place, each once.
    proof fn lemma_keys_from(&self, b: int, j: int)
        requires
            self.wf(),
            0 <= b <= self.data.len(),
            0 <= j,
        ensures
            self.keys_from(b, j).no_duplicates(),
            forall|k: Seq<u8>| #[trigger]
                self.keys_from(b, j).contains(k) <==> exists|c: int, i: int|
                    0 <= c < self.data.len() && 0 <= i < self.bucket_len(c) && (c > b || (c == b
                        && i >= j)) && (#[trigger] self.entry(c, i)).key@ == k,
        decreases self.data.len() - b, self.data[b].len() - j,
    {
        let keys = self.keys_from(b, j);
        if b >= self.data.len() {
        } else if j >= self.data[b].len() {
            self.lemma_keys_from(b + 1, 0);
        } else {
            self.lemma_keys_from(b, j + 1);
            let head = self.entry(b, j).key@;
            let tail = self.keys_from(b, j + 1);
            assert(keys =~= seq![head] + tail);
            assert forall|k: Seq<u8>| #[trigger] keys.contains(k) implies exists|c: int, i: int|
                0 <= c < self.data.len() && 0 <= i < self.bucket_len(c) && (c > b || (c == b && i
                    >= j)) && (#[trigger] self.entry(c, i)).key@ == k by {
                let at = choose|at: int| 0 <= at < keys.len() && keys[at] == k;
                if at == 0 {
                    assert(self.entry(b, j).key@ == k);
                } else {
                    assert(tail[at - 1] == k);
                    assert(tail.contains(k));
                }
            }
            assert forall|k: Seq<u8>|
                (exists|c: int, i: int|
                    0 <= c < self.data.len() && 0 <= i < self.bucket_len(c) && (c > b || (c == b
                        && i >= j)) && (#[trigger] self.entry(c, i)).key@ == k) implies (
            #[trigger] keys.contains(k)) by {
                let (c, i) = choose|c: int, i: int|
                    0 <= c < self.data.len() && 0 <= i < self.bucket_len(c) && (c > b || (c == b
                        && i >= j)) && (#[trigger] self.entry(c, i)).key@ == k;
                if c == b && i == j {
                    assert(keys[0] == k);
                } else {
                    assert(self.entry(c, i).key@ == k);
                    assert(tail.contains(k));
                    let at = choose|at: int| 0 <= at < tail.len() && tail[at] == k;
                    assert(keys[at + 1] == k);
                }
            }
            assert(!tail.contains(head)) by {
                if tail.contains(head) {
                    let (c, i) = choose|c: int, i: int|
                        0 <= c < self.data.len() && 0 <= i < self.bucket_len(c) && (c > b || (c
                            == b && i >= j + 1)) && (#[trigger] self.entry(c, i)).key@ == head;
                    assert(self.slot(self.entry(c, i).key@) == c);
                    assert(self.slot(self.entry(b, j).key@) == b);
                }
            }
            assert forall|x: int, y: int|
                0 <= x < keys.len() && 0 <= y < keys.len() && x != y implies keys[x] != keys[y] by {
                if x == 0 {
                    assert(tail[y - 1] == keys[y]);
                } else if y == 0 {
                    assert(tail[x - 1] == keys[x]);
                } else {
                    assert(tail[x - 1] == keys[x]);
                    assert(tail[y - 1] == keys[y]);
                }
            }
        }
    }

    /// The keys in bucket order are the keys of the view, each once.
    pub proof fn lemma_keys(&self)
        requires
            self.wf(),
        ensures
            self.keys().no_duplicates(),
            self.keys().to_set() == self@.dom(),
            self.keys().len() == self@.dom().len(),
    {
        self.lemma_keys_from(0, 0);
        let keys = self.keys();
        assert forall|k: Seq<u8>| keys.to_set().contains(k) <==> self@.dom().contains(k) by {
            if keys.contains(k) {
                let (c, i) = choose|c: int, i: int|
                    0 <= c < self.data.len() && 0 <= i < self.bucket_len(c) && (c > 0 || (c == 0
                        && i >= 0)) && (#[trigger] self.entry(c, i)).key@ == k;
                assert(self.contents@.contains_key(self.entry(c, i).key@));
            }
            if self@.dom().contains(k) {
                self.lemma_slot_in_range(k);
                let i = choose|i: int|
                    0 <= i < self.bucket_len(self.slot(k)) && (#[trigger] self.entry(
                        self.slot(k),
                        i,
                    )).key@ == k;
                assert(self.entry(self.slot(k), i).key@ == k);
                assert(keys.contains(k));
            }
        }
        assert(keys.to_set() =~= self@.dom());
        keys.unique_seq_to_set();
    }
}

/// Walks the keys of a table: those of the primary table bucket by bucket,
/// then those of the secondary table.
pub struct KeyIter<'a, V> {
    data: &'a SuperHashMap<V>,
    current: (usize, usize, usize),
}

impl<V> SuperHashMap<V> {
    /// The keys of the primary table in the order of its buckets, then
    /// those of the secondary table.
    pub closed spec fn keys(&self) -> Seq<Seq<u8>> {
        self.map1.keys() + match self.map2 {
            Some(m) => m.keys(),
            None => Seq::empty(),
        }
    }

    /// Every key of the view is among `keys()`, and nothing else is; there
    /// are as many of them as entries in the two tables; and while no key
    /// is in both tables, none comes twice.
    pub proof fn lemma_keys(&self)
        requires
            self.wf(),
        ensures
            self.keys().to_set() == self@.dom(),
            self.keys().len() == self.spec_len(),
            self.disjoint() ==> self.keys().no_duplicates(),
    {
        self.map1.lemma_keys();
        let k1 = self.map1.keys();
        match self.map2 {
            Some(m) => {
                m.lemma_keys();
                let k2 = m.keys();
                assert forall|k: Seq<u8>| (k1 + k2).to_set().contains(k) <==> self@.dom().contains(
                    k,
                ) by {
                    if (k1 + k2).contains(k) {
                        let at = choose|at: int| 0 <= at < (k1 + k2).len() && (k1 + k2)[at] == k;
                        if at < k1.len() {
                            assert(k1[at] == k);
                            assert(k1.to_set().contains(k));
                        } else {
                            assert(k2[at - k1.len()] == k);
                            assert(k2.to_set().contains(k));
                        }
                    }
                    if self.map1@.dom().contains(k) {
                        assert(k1.to_set().contains(k));
                        let at = choose|at: int| 0 <= at < k1.len() && k1[at] == k;
                        assert((k1 + k2)[at] == k);
                    }
                    if m@.dom().contains(k) {
                        assert(k2.to_set().contains(k));
                        let at = choose|at: int| 0 <= at < k2.len() && k2[at] == k;
                        assert((k1 + k2)[k1.len() + at] == k);
                    }
                }
                assert((k1 + k2).to_set() =~= self@.dom());
                if self.disjoint() {
                    assert forall|x: int, y: int|
                        0 <= x < (k1 + k2).len() && 0 <= y < (k1 + k2).len() && x != y implies (k1
                        + k2)[x] != (k1 + k2)[y] by {
                        if x < k1.len() && y >= k1.len() {
                            assert(k1.to_set().contains(k1[x]));
                            assert(k2.to_set().contains(k2[y - k1.len()]));
                        } else if y < k1.len() && x >= k1.len() {
                            assert(k1.to_set().contains(k1[y]));
                            assert(k2.to_set().contains(k2[x - k1.len()]));
                        }
                    }
                }
            },
            None => {
                assert(self.keys() =~= k1);
                assert(self@ =~= self.map1@);
            },
        }
    }

    /// The shape of a well-formed table: the primary table has a power of
    /// two of buckets; while there is a secondary table, it has half as
    /// many, the cursor is within them, and the primary table is not too
    /// full; and while there is none, the cursor is at the start and the
    /// primary table is not too full either.
    pub proof fn lemma_shape(&self)
        requires
            self.wf(),
        ensures
            self.primary_buckets() <= usize::MAX,
            is_power_of_two(self.primary_buckets() as usize),
            self.primary().dom().finite(),
            self.secondary().dom().finite(),
            !Self::overloaded(self.primary().dom().len(), self.primary_buckets()),
            self.rehashing() ==> self.primary_buckets() == 2 * self.secondary_buckets()
                && is_power_of_two(self.secondary_buckets() as usize) && self.cursor()
                <= self.secondary_buckets(),
            !self.rehashing() ==> self.cursor() == 0 && self.secondary() == Map::<
                Seq<u8>,
                V,
            >::empty(),
            forall|b: int| 0 <= b < self.cursor() ==> #[trigger] self.secondary_bucket_len(b) == 0,
    {
        let p = self.primary().dom().len() as int;
        let b = self.primary_buckets() as int;
        assert(self.map1.wf());
        match self.map2 {
            Some(m) => {
                assert(m.wf());
                assert(p < 9 * b);
            },
            None => {},
        }
        assert(p / b <= 8) by (nonlinear_arith)
            requires
                b > 0,
                0 <= p < 9 * b,
        ;
    }

    /// After `insert` of a key and a value, a lookup of the key finds the
    /// value, and a lookup of any other key finds what it found before.
    pub proof fn lemma_insert_then_get(before: Self, after: Self, key: Seq<u8>, value: V)
        requires
            after@ == before@.insert(key, value),
        ensures
            after@.contains_key(key),
            after@[key] == value,
            forall|other: Seq<u8>|
                other != key ==> after@.contains_key(other) == before@.contains_key(other),
            forall|other: Seq<u8>|
                other != key && before@.contains_key(other) ==> after@[other] == before@[other],
    {
    }

    /// After `remove` of a key that is not in both tables, a lookup of the
    /// key finds nothing, and a lookup of any other key finds what it
    /// found before.
    pub proof fn lemma_remove_then_get(before: Self, after: Self, key: Seq<u8>)
        requires
            after@ == before.spec_remove(key),
            !(before.primary().contains_key(key) && before.secondary().contains_key(key)),
        ensures
            !after@.contains_key(key),
            forall|other: Seq<u8>|
                other != key ==> after@.contains_key(other) == before@.contains_key(other),
            forall|other: Seq<u8>|
                other != key && before@.contains_key(other) ==> after@[other] == before@[other],
    {
    }

    /// Whether `after` is what `insert` or `remove` makes of `self`, as
    /// far as a lookup can tell.
    pub open spec fn changed(&self, change: Change<V>, after: &Self) -> bool {
        match change {
            Change::Insert(key, value) => after@ == self@.insert(key, value),
            Change::Remove(key) => after@ == self.spec_remove(key),
        }
    }

    /// What a lookup of a key finds stays what it is through any number of
    /// inserts and removes of other keys, whether or not they start a
    /// resize or move entries: after an insert of the key that is its
    /// value, and for a key that is not there it is nothing.
    pub proof fn lemma_other_changes_keep(states: Seq<Self>, changes: Seq<Change<V>>, key: Seq<u8>)
        requires
            states.len() == changes.len() + 1,
            forall|i: int|
                0 <= i < changes.len() ==> (#[trigger] states[i]).changed(
                    changes[i],
                    &states[i + 1],
                ) && changes[i].key() != key,
        ensures
            states.last()@.contains_key(key) == states[0]@.contains_key(key),
            states[0]@.contains_key(key) ==> states.last()@[key] == states[0]@[key],
        decreases changes.len(),
    {
        if changes.len() > 0 {
            let n = changes.len() as int;
            Self::lemma_other_changes_keep(states.drop_last(), changes.drop_last(), key);
            assert(states.drop_last().last() == states[n - 1]);
            assert(states[n - 1].changed(changes[n - 1], &states[n]));
        }
    }

    /// While no key is in both tables, `remove` takes the key out of the
    /// view and changes nothing else.
    pub proof fn lemma_remove_disjoint(&self, key: Seq<u8>)
        requires
            self.disjoint(),
        ensures
            self.spec_remove(key) == self@.remove(key),
    {
        if self.primary().contains_key(key) {
            assert(self.primary().dom().contains(key));
            assert(!self.secondary().dom().contains(key));
        }
        assert(self.spec_remove(key) =~= self@.remove(key));
    }

    /// While no key is in both tables, the number of entries is the number
    /// of keys of the view.
    pub proof fn lemma_len_counts_keys(&self)
        requires
            self.wf(),
            self.disjoint(),
        ensures
            self@.dom().finite(),
            self.spec_len() == self@.dom().len(),
    {
        let a = self.primary().dom();
        let b = self.secondary().dom();
        assert(a.finite());
        assert(b.finite()) by {
            if self.map2 is Some {
                assert(self.map2->Some_0.wf());
            }
        }
        assert(self@.dom() =~= a + b);
        vstd::set_lib::lemma_set_disjoint_lens(a, b);
    }

    /// A walk over the keys, from the first one on.
    pub fn key_iter(&self) -> (it: KeyIter<'_, V>)
        requires
            self.wf(),
        ensures
            it.wf(),
            *it.table() == *self,
            it.remaining() == self.keys(),
    {
        KeyIter { data: self, current: (0, 0, 0) }
    }
}

impl<'a, V> KeyIter<'a, V> {
    /// The table that is walked.
    pub closed spec fn table(&self) -> &'a SuperHashMap<V> {
        self.data
    }

    /// The table that is walked is well formed.
    pub closed spec fn wf(&self) -> bool {
        self.data.wf()
    }

    /// The keys still to come, in the order in which they come.
    pub closed spec fn remaining(&self) -> Seq<Seq<u8>> {
        if self.current.0 == 0 {
            self.data.map1.keys_from(self.current.1 as int, self.current.2 as int)
                + match self.data.map2 {
                Some(m) => m.keys(),
                None => Seq::empty(),
            }
        } else {
            match self.data.map2 {
                Some(m) => m.keys_from(self.current.1 as int, self.current.2 as int),
                None => Seq::empty(),
            }
        }
    }

    /// The number of entries of the table, whatever part of the walk is done.
    pub fn len(&self) -> (n: usize)
        requires
            self.wf(),
        ensures
            n == self.table().spec_len(),
    {
        self.data.len()
    }

    fn next_key_from_bucket(bucket: &'a Vec<Entry<V>>, pos: &mut usize) -> (r: Option<&'a Vec<u8>>)
        ensures
            match r {
                Some(key) => {
                    &&& *old(pos) < bucket.len()
                    &&& *key == bucket[*old(pos) as int].key
                    &&& *final(pos) == *old(pos) + 1
                },
                None => *old(pos) >= bucket.len() && *final(pos) == *old(pos),
            },
    {
        if *pos >= bucket.len() {
            None
        } else {
            let result = &bucket[*pos];
            *pos += 1;
            Some(&result.key)
        }
    }

    fn next_key_from_hashmap(
        m: Option<&'a HashMap<V>>,
        bucket_pos: &mut usize,
        pos: &mut usize,
    ) -> (r: Option<&'a Vec<u8>>)
        ensures
            match (m, r) {
                (Some(t), Some(key)) => {
                    let before = t.keys_from(*old(bucket_pos) as int, *old(pos) as int);
                    &&& before.len() > 0
                    &&& key@ == before[0]
                    &&& t.keys_from(*final(bucket_pos) as int, *final(pos) as int) == before.skip(1)
                },
                (Some(t), None) => {
                    &&& t.keys_from(*old(bucket_pos) as int, *old(pos) as int).len() == 0
                    &&& t.keys_from(*final(bucket_pos) as int, *final(pos) as int).len() == 0
                },
                (None, Some(_)) => false,
                (None, None) => *final(bucket_pos) == *old(bucket_pos) && *final(pos) == *old(pos),
            },
    {
        match m {
            Some(m) => {
                let mut bucket_at: usize = *bucket_pos;
                let mut at: usize = *pos;
                let mut found: Option<&'a Vec<u8>> = None;
                while found.is_none() && bucket_at < m.data.len()
                    invariant
                        match found {
                            Some(key) => {
                                let before = m.keys_from(*old(bucket_pos) as int, *old(pos) as int);
                                &&& before.len() > 0
                                &&& key@ == before[0]
                                &&& m.keys_from(bucket_at as int, at as int) == before.skip(1)
                            },
                            None => m.keys_from(bucket_at as int, at as int) == m.keys_from(
                                *old(bucket_pos) as int,
                                *old(pos) as int,
                            ),
                        },
                    decreases
                            (if found is None {
                                1 + m.data.len() - bucket_at
                            } else {
                                0
                            }),
                {
                    let bucket = &m.data[bucket_at];
                    let ghost before = m.keys_from(bucket_at as int, at as int);
                    let ghost was = at as int;
                    match Self::next_key_from_bucket(bucket, &mut at) {
                        Some(key) => {
                            assert(before =~= seq![key@] + m.keys_from(bucket_at as int, was + 1));
                            assert(m.keys_from(bucket_at as int, at as int) =~= before.skip(1));
                            found = Some(key);
                        },
                        None => {
                            bucket_at += 1;
                            at = 0;
                        },
                    }
                }
                *bucket_pos = bucket_at;
                *pos = at;
                found
            },
            None => None,
        }
    }

    /// The next key of the walk, or `None` once every key has come.
    pub fn next(&mut self) -> (r: Option<&'a Vec<u8>>)
        requires
            old(self).wf(),
        ensures
            final(self).wf(),
            final(self).table() == old(self).table(),
            match r {
                Some(key) => {
                    &&& old(self).remaining().len() > 0
                    &&& key@ == old(self).remaining()[0]
                    &&& final(self).remaining() == old(self).remaining().skip(1)
                },
                None => old(self).remaining().len() == 0 && final(self).remaining().len() == 0,
            },
    {
        let mut bucket_pos = self.current.1;
        let mut pos = self.current.2;
        if self.current.0 == 0 {
            let result = Self::next_key_from_hashmap(
                Some(&self.data.map1),
                &mut bucket_pos,
                &mut pos,
            );
            match result {
                Some(key) => {
                    self.current = (0, bucket_pos, pos);
                    proof {
                        assert(self.remaining() =~= old(self).remaining().skip(1));
                    }
                    Some(key)
                },
                None => {
                    bucket_pos = 0;
                    pos = 0;
                    let result = Self::next_key_from_hashmap(
                        self.data.map2.as_ref(),
                        &mut bucket_pos,
                        &mut pos,
                    );
                    self.current = (1, bucket_pos, pos);
                    proof {
                        assert(old(self).remaining() =~= match self.data.map2 {
                            Some(m) => m.keys(),
                            None => Seq::empty(),
                        });
                    }
                    result
                },
            }
        } else {
            let result = Self::next_key_from_hashmap(
                self.data.map2.as_ref(),
                &mut bucket_pos,
                &mut pos,
            );
            self.current = (self.current.0, bucket_pos, pos);
            result
        }
    }

    /// The keys still to come, in the order in which they come.
    pub fn collect(self) -> (keys: Vec<&'a Vec<u8>>)
        requires
            self.wf(),
        ensures
            keys@.len() == self.remaining().len(),
            forall|i: int| 0 <= i < keys@.len() ==> (#[trigger] keys@[i])@ == self.remaining()[i],
    {
        let mut it = self;
        let mut keys: Vec<&'a Vec<u8>> = Vec::new();
        loop
            invariant
                it.wf(),
                keys@.len() + it.remaining().len() == self.remaining().len(),
                forall|i: int|
                    0 <= i < keys@.len() ==> (#[trigger] keys@[i])@ == self.remaining()[i],
                forall|i: int|
                    0 <= i < it.remaining().len() ==> it.remaining()[i] == self.remaining()[
                        keys@.len() + i],
            decreases it.remaining().len(),
        {
            match it.next() {
                Some(key) => {
                    keys.push(key);
                },
                None => {
                    return keys;
                },
            }
        }
    }
}

} // verus!
