//! A hash table with chaining: the pairs whose keys fall into one bucket are kept in a list.
//!
//! The table does not decide by itself when to grow: `put` puts a pair in, and `extend`
//! makes the table larger, whenever its user calls it.

use vstd::prelude::*;

verus! {

/// A key and its value.
#[derive(Debug, Clone, PartialEq)]
pub struct Pair<V> {
    pub key: usize,
    pub val: V,
}

pub struct ChainHashMap<V> {
    size: usize,
    capacity: usize,
    extend_ratio: usize,
    buckets: Vec<Vec<Pair<V>>>,
}

/// The number of buckets of a new table.
pub const BUCKETS_SIZE: usize = 10;

/// The pairs of the first `count` buckets, bucket by bucket.
pub open spec fn chained<V>(buckets: Seq<Vec<Pair<V>>>, count: nat) -> Seq<Pair<V>>
    decreases count,
{
    if count == 0 {
        Seq::empty()
    } else {
        chained(buckets, (count - 1) as nat) + buckets[count - 1]@
    }
}

/// No two pairs of the bucket have the same key, and each key falls into bucket `index` of
/// `capacity` buckets.
pub open spec fn bucket_wf<V>(bucket: Seq<Pair<V>>, index: int, capacity: int) -> bool {
    &&& forall|i: int| 0 <= i < bucket.len() ==> (#[trigger] bucket[i]).key as int % capacity == index
    &&& forall|i: int, j: int|
        0 <= i < bucket.len() && 0 <= j < bucket.len() && i != j ==> (#[trigger] bucket[i]).key
            != (#[trigger] bucket[j]).key
}

/// The bucket has a pair with the key.
pub open spec fn has_key<V>(bucket: Seq<Pair<V>>, key: usize) -> bool {
    exists|i: int| 0 <= i < bucket.len() && (#[trigger] bucket[i]).key == key
}

/// The place of a pair with the key in the bucket.
pub open spec fn place_of<V>(bucket: Seq<Pair<V>>, key: usize) -> int {
    choose|i: int| 0 <= i < bucket.len() && (#[trigger] bucket[i]).key == key
}

impl<V> View for ChainHashMap<V> {
    type V = Map<usize, V>;

    /// The value of each key that the table holds.
    closed spec fn view(&self) -> Map<usize, V> {
        Map::new(
            |key: usize| has_key(self.chain(key), key),
            |key: usize| self.chain(key)[place_of(self.chain(key), key)].val,
        )
    }
}

impl<V> ChainHashMap<V> {
    /// The bucket that `key` falls into.
    pub closed spec fn chain(&self, key: usize) -> Seq<Pair<V>> {
        self.buckets@[key as int % self.capacity as int]@
    }

    /// The table has its buckets, each pair lies in the bucket of its key, no key occurs
    /// twice, and the stored size is the number of pairs.
    pub closed spec fn wf(&self) -> bool {
        &&& self.capacity > 0
        &&& self.buckets@.len() == self.capacity
        &&& self.size == chained(self.buckets@, self.capacity as nat).len()
        &&& forall|b: int|
            0 <= b < self.capacity ==> bucket_wf(
                (#[trigger] self.buckets@[b])@,
                b,
                self.capacity as int,
            )
    }

    /// The number of buckets.
    pub closed spec fn spec_capacity(&self) -> nat {
        self.capacity as nat
    }

    /// The number of pairs.
    pub closed spec fn spec_size(&self) -> nat {
        self.size as nat
    }

    /// The factor by which `extend` makes the table larger.
    pub closed spec fn spec_ratio(&self) -> nat {
        self.extend_ratio as nat
    }

    /// The pairs of the table, bucket by bucket.
    pub closed spec fn entries(&self) -> Seq<Pair<V>> {
        chained(self.buckets@, self.buckets@.len())
    }

    /// The table holds a key exactly if the bucket of the key has a pair with it, and then
    /// the value of that pair is the value of the key.
    proof fn lemma_view(&self, key: usize)
        requires
            self.wf(),
        ensures
            self@.contains_key(key) <==> has_key(self.chain(key), key),
            forall|i: int|
                0 <= i < self.chain(key).len() && (#[trigger] self.chain(key)[i]).key == key
                    ==> self@.contains_key(key) && self@[key] == self.chain(key)[i].val,
    {
        let chain = self.chain(key);
        let b = key as int % self.capacity as int;
        assert(bucket_wf(self.buckets@[b]@, b, self.capacity as int));
        assert forall|i: int| 0 <= i < chain.len() && (#[trigger] chain[i]).key == key implies self@[key]
            == chain[i].val by {
            let j = place_of(chain, key);
            assert(chain[j].key == key);
            assert(i == j);
        }
    }

    /// A table has a bucket, and as many pairs as its size says. Each of its pairs gives a
    /// key of the table its value, and each key of the table has its pair.
    pub proof fn lemma_entries(&self)
        requires
            self.wf(),
        ensures
            self.spec_capacity() > 0,
            self.entries().len() == self.spec_size(),
            forall|i: int|
                0 <= i < self.entries().len() ==> self@.contains_key(
                    (#[trigger] self.entries()[i]).key,
                ) && self@[self.entries()[i].key] == self.entries()[i].val,
            forall|key: usize| #[trigger]
                self@.contains_key(key) ==> exists|i: int|
                    0 <= i < self.entries().len() && (#[trigger] self.entries()[i]).key == key,
    {
        let all = self.entries();
        assert forall|i: int| 0 <= i < all.len() implies self@.contains_key(
            (#[trigger] all[i]).key,
        ) && self@[all[i].key] == all[i].val by {
            let (b, p) = lemma_chained_place(self.buckets@, self.capacity as nat, i);
            assert(bucket_wf(self.buckets@[b]@, b, self.capacity as int));
            assert(self.buckets@[b]@[p].key as int % self.capacity as int == b);
            self.lemma_view(all[i].key);
        }
        assert forall|key: usize| #[trigger] self@.contains_key(key) implies exists|i: int|
            0 <= i < all.len() && (#[trigger] all[i]).key == key by {
            self.lemma_view(key);
            let b = key as int % self.capacity as int;
            let p = place_of(self.chain(key), key);
            let i = lemma_chained_index(self.buckets@, self.capacity as nat, b, p);
            assert(all[i].key == key);
        }
    }
}

/// Each of the pairs of the first `count` buckets lies at a place of one of those buckets.
proof fn lemma_chained_place<V>(buckets: Seq<Vec<Pair<V>>>, count: nat, i: int) -> (at: (int, int))
    requires
        count <= buckets.len(),
        0 <= i < chained(buckets, count).len(),
    ensures
        0 <= at.0 < count,
        0 <= at.1 < buckets[at.0]@.len(),
        buckets[at.0]@[at.1] == chained(buckets, count)[i],
    decreases count,
{
    let before = chained(buckets, (count - 1) as nat);
    if i < before.len() {
        lemma_chained_place(buckets, (count - 1) as nat, i)
    } else {
        (count - 1, i - before.len())
    }
}

/// Each place of one of the first `count` buckets holds one of their pairs.
proof fn lemma_chained_index<V>(buckets: Seq<Vec<Pair<V>>>, count: nat, b: int, p: int) -> (i: int)
    requires
        count <= buckets.len(),
        0 <= b < count,
        0 <= p < buckets[b]@.len(),
    ensures
        0 <= i < chained(buckets, count).len(),
        chained(buckets, count)[i] == buckets[b]@[p],
    decreases count,
{
    let before = chained(buckets, (count - 1) as nat);
    if b < count - 1 {
        lemma_chained_index(buckets, (count - 1) as nat, b, p)
    } else {
        before.len() + p
    }
}

/// The table holds `key` in a bucket before bucket `bucket`, or in that bucket before place
/// `place`.
spec fn lies_before<V>(table: ChainHashMap<V>, key: usize, bucket: int, place: int) -> bool {
    let own = key as int % table.capacity as int;
    &&& table@.contains_key(key)
    &&& own < bucket || (own == bucket && place_of(table.chain(key), key) < place)
}

/// The pairs of the buckets once one bucket has changed: their number changes as the
/// length of that bucket does.
proof fn lemma_chained_update<V>(
    before: Seq<Vec<Pair<V>>>,
    after: Seq<Vec<Pair<V>>>,
    index: int,
    count: nat,
)
    requires
        before.len() == after.len(),
        0 <= index < before.len(),
        count <= before.len(),
        forall|b: int| 0 <= b < before.len() && b != index ==> before[b] == after[b],
    ensures
        chained(after, count).len() == chained(before, count).len() + if index < count {
            after[index]@.len() - before[index]@.len()
        } else {
            0
        },
    decreases count,
{
    if count > 0 {
        lemma_chained_update(before, after, index, (count - 1) as nat);
    }
}

/// Each of the buckets holds no more pairs than all of them together.
proof fn lemma_chained_holds_bucket<V>(buckets: Seq<Vec<Pair<V>>>, index: int, count: nat)
    requires
        0 <= index < count <= buckets.len(),
    ensures
        buckets[index]@.len() <= chained(buckets, count).len(),
    decreases count,
{
    if index < count - 1 {
        lemma_chained_holds_bucket(buckets, index, (count - 1) as nat);
    }
}

/// More buckets hold no fewer pairs.
proof fn lemma_chained_grows<V>(buckets: Seq<Vec<Pair<V>>>, fewer: nat, count: nat)
    requires
        fewer <= count <= buckets.len(),
    ensures
        chained(buckets, fewer).len() <= chained(buckets, count).len(),
    decreases count,
{
    if fewer < count {
        lemma_chained_grows(buckets, fewer, (count - 1) as nat);
    }
}

/// Rows of empty buckets hold no pair.
proof fn lemma_chained_empty<V>(buckets: Seq<Vec<Pair<V>>>, count: nat)
    requires
        count <= buckets.len(),
        forall|b: int| 0 <= b < buckets.len() ==> (#[trigger] buckets[b])@.len() == 0,
    ensures
        chained(buckets, count) == Seq::<Pair<V>>::empty(),
    decreases count,
{
    if count > 0 {
        lemma_chained_empty(buckets, (count - 1) as nat);
        assert(chained(buckets, count) =~= Seq::<Pair<V>>::empty());
    }
}

impl<V: Clone> ChainHashMap<V> {
    pub fn new() -> (map: Self)
        ensures
            map.wf(),
            map@ == Map::<usize, V>::empty(),
            map.spec_capacity() == BUCKETS_SIZE,
            map.spec_size() == 0,
            map.spec_ratio() == 2,
    {
        let buckets = Self::empty_buckets(BUCKETS_SIZE);
        let map = Self { size: 0, capacity: BUCKETS_SIZE, extend_ratio: 2, buckets };
        proof {
            lemma_chained_empty(map.buckets@, map.capacity as nat);
            assert(map@ =~= Map::<usize, V>::empty());
        }
        map
    }

    /// As many buckets as asked for, all of them empty.
    fn empty_buckets(count: usize) -> (buckets: Vec<Vec<Pair<V>>>)
        ensures
            buckets@.len() == count,
            forall|b: int| 0 <= b < count ==> (#[trigger] buckets@[b])@.len() == 0,
    {
        let mut buckets: Vec<Vec<Pair<V>>> = Vec::new();
        let mut i: usize = 0;
        while i < count
            invariant
                i <= count,
                buckets@.len() == i,
                forall|b: int| 0 <= b < i ==> (#[trigger] buckets@[b])@.len() == 0,
            decreases count - i,
        {
            buckets.push(Vec::new());
            i += 1;
        }
        buckets
    }

    fn hash_func(&self, key: usize) -> (idx: usize)
        requires
            self.wf(),
        ensures
            idx == key as int % self.capacity as int,
            idx < self.capacity,
            self.buckets@[idx as int]@ == self.chain(key),
    {
        key % self.capacity
    }

    /// The place of the pair with `key` in the bucket, if there is one.
    fn find(bucket: &Vec<Pair<V>>, key: usize) -> (place: Option<usize>)
        ensures
            match place {
                None => !has_key(bucket@, key),
                Some(i) => i < bucket@.len() && bucket@[i as int].key == key,
            },
    {
        let mut i: usize = 0;
        while i < bucket.len()
            invariant
                i <= bucket@.len(),
                forall|j: int| 0 <= j < i ==> (#[trigger] bucket@[j]).key != key,
            decreases bucket@.len() - i,
        {
            if bucket[i].key == key {
                return Some(i);
            }
            i += 1;
        }
        None
    }

    pub fn size(&self) -> (n: usize)
        ensures
            n == self.spec_size(),
    {
        self.size
    }

    pub fn capacity(&self) -> (n: usize)
        ensures
            n == self.spec_capacity(),
    {
        self.capacity
    }

    /// The factor by which `extend` makes the table larger.
    pub fn extend_ratio(&self) -> (n: usize)
        ensures
            n == self.spec_ratio(),
    {
        self.extend_ratio
    }

    /// The value of `key`, if the table holds the key.
    pub fn get(&self, key: usize) -> (result: Option<&V>)
        requires
            self.wf(),
        ensures
            match result {
                None => !self@.contains_key(key),
                Some(val) => self@.contains_key(key) && *val == self@[key],
            },
    {
        proof {
            self.lemma_view(key);
        }
        let idx = self.hash_func(key);
        let bucket = &self.buckets[idx];
        match Self::find(bucket, key) {
            None => None,
            Some(i) => Some(&bucket[i].val),
        }
    }

    /// Gives `key` the value `val`. The table does not grow by this; see `extend`.
    pub fn put(&mut self, key: usize, val: V)
        requires
            old(self).wf(),
            old(self).spec_size() < usize::MAX,
        ensures
            final(self).wf(),
            final(self)@ == old(self)@.insert(key, val),
            final(self).spec_capacity() == old(self).spec_capacity(),
            final(self).spec_ratio() == old(self).spec_ratio(),
            final(self).spec_size() == old(self).spec_size() + if old(self)@.contains_key(key) {
                0nat
            } else {
                1nat
            },
    {
        let idx = self.hash_func(key);
        let ghost before = self.buckets@;
        let ghost chain = self.chain(key);
        proof {
            self.lemma_view(key);
            assert(bucket_wf(before[idx as int]@, idx as int, self.capacity as int));
        }
        let ghost mut slot: int = 0;
        match Self::find(&self.buckets[idx], key) {
            Some(i) => {
                self.buckets[idx][i].val = val;
                proof {
                    slot = i as int;
                    assert(self.buckets@[idx as int]@ =~= chain.update(i as int, Pair { key, val }));
                }
            },
            None => {
                self.buckets[idx].push(Pair { key, val });
                self.size += 1;
                proof {
                    slot = chain.len() as int;
                    assert(self.buckets@[idx as int]@ =~= chain.push(Pair { key, val }));
                }
            },
        }
        proof {
            lemma_chained_update(before, self.buckets@, idx as int, self.capacity as nat);
            let changed = self.buckets@[idx as int]@;
            assert(bucket_wf(changed, idx as int, self.capacity as int)) by {
                assert forall|i: int| 0 <= i < changed.len() implies (#[trigger] changed[i]).key as int
                    % self.capacity as int == idx by {
                    if i < chain.len() {
                        assert(chain[i].key == changed[i].key);
                    }
                }
                assert forall|i: int, j: int|
                    0 <= i < changed.len() && 0 <= j < changed.len() && i != j implies (
                #[trigger] changed[i]).key != (#[trigger] changed[j]).key by {
                    if i < chain.len() {
                        assert(chain[i].key == changed[i].key);
                    }
                    if j < chain.len() {
                        assert(chain[j].key == changed[j].key);
                    }
                }
            }
            assert forall|b: int| 0 <= b < self.capacity implies bucket_wf(
                (#[trigger] self.buckets@[b])@,
                b,
                self.capacity as int,
            ) by {
                if b != idx {
                    assert(self.buckets@[b] == before[b]);
                    assert(bucket_wf(before[b]@, b, self.capacity as int));
                }
            }
            assert(self.wf());
            assert forall|k: usize|
                #![trigger self@.dom().contains(k)]
                self@.dom().contains(k) == old(self)@.insert(key, val).dom().contains(k) && (
                self@.dom().contains(k) ==> self@[k] == old(self)@.insert(key, val)[k]) by {
                self.lemma_view(k);
                old(self).lemma_view(k);
                let b = k as int % self.capacity as int;
                if b == idx {
                    if k == key {
                        assert(changed[slot].key == k && changed[slot].val == val);
                    } else {
                        if has_key(chain, k) {
                            let w = place_of(chain, k);
                            assert(chain[w].key == k);
                            assert(changed[w].key == k && changed[w].val == chain[w].val);
                        }
                        if has_key(changed, k) {
                            let w = place_of(changed, k);
                            assert(changed[w].key == k);
                            assert(w < chain.len());
                            assert(chain[w].key == k && changed[w].val == chain[w].val);
                        }
                    }
                } else {
                    assert(self.chain(k) == old(self).chain(k));
                }
            }
            assert(self@ =~= old(self)@.insert(key, val));
        }
    }

    /// Takes `key` out of the table.
    pub fn remove(&mut self, key: usize)
        requires
            old(self).wf(),
        ensures
            final(self).wf(),
            final(self)@ == old(self)@.remove(key),
            final(self).spec_capacity() == old(self).spec_capacity(),
            final(self).spec_ratio() == old(self).spec_ratio(),
            final(self).spec_size() == old(self).spec_size() - if old(self)@.contains_key(key) {
                1nat
            } else {
                0nat
            },
    {
        let idx = self.hash_func(key);
        let ghost before = self.buckets@;
        let ghost chain = self.chain(key);
        proof {
            self.lemma_view(key);
            assert(bucket_wf(before[idx as int]@, idx as int, self.capacity as int));
            lemma_chained_holds_bucket(before, idx as int, self.capacity as nat);
        }
        let ghost mut slot: int = -1;
        if let Some(rm_i) = Self::find(&self.buckets[idx], key) {
            self.buckets[idx].remove(rm_i);
            self.size -= 1;
            proof {
                slot = rm_i as int;
                assert(self.buckets@[idx as int]@ =~= chain.remove(rm_i as int));
            }
        }
        proof {
            lemma_chained_update(before, self.buckets@, idx as int, self.capacity as nat);
            let changed = self.buckets@[idx as int]@;
            assert(bucket_wf(changed, idx as int, self.capacity as int)) by {
                assert forall|i: int| 0 <= i < changed.len() implies (#[trigger] changed[i]).key as int
                    % self.capacity as int == idx by {
                    let from = if slot >= 0 && i >= slot {
                        i + 1
                    } else {
                        i
                    };
                    assert(chain[from].key == changed[i].key);
                }
                assert forall|i: int, j: int|
                    0 <= i < changed.len() && 0 <= j < changed.len() && i != j implies (
                #[trigger] changed[i]).key != (#[trigger] changed[j]).key by {
                    let from_i = if slot >= 0 && i >= slot {
                        i + 1
                    } else {
                        i
                    };
                    let from_j = if slot >= 0 && j >= slot {
                        j + 1
                    } else {
                        j
                    };
                    assert(chain[from_i].key == changed[i].key);
                    assert(chain[from_j].key == changed[j].key);
                }
            }
            assert forall|b: int| 0 <= b < self.capacity implies bucket_wf(
                (#[trigger] self.buckets@[b])@,
                b,
                self.capacity as int,
            ) by {
                if b != idx {
                    assert(self.buckets@[b] == before[b]);
                    assert(bucket_wf(before[b]@, b, self.capacity as int));
                }
            }
            assert(self.wf());
            assert forall|k: usize|
                #![trigger self@.dom().contains(k)]
                self@.dom().contains(k) == old(self)@.remove(key).dom().contains(k) && (
                self@.dom().contains(k) ==> self@[k] == old(self)@.remove(key)[k]) by {
                self.lemma_view(k);
                old(self).lemma_view(k);
                let b = k as int % self.capacity as int;
                if b == idx {
                    if k == key {
                        if has_key(changed, k) {
                            let w = place_of(changed, k);
                            let from = if slot >= 0 && w >= slot {
                                w + 1
                            } else {
                                w
                            };
                            assert(chain[from].key == changed[w].key);
                            if slot >= 0 {
                                assert(chain[slot].key == key);
                            }
                        }
                    } else {
                        if has_key(chain, k) {
                            let w = place_of(chain, k);
                            assert(chain[w].key == k);
                            let to = if slot >= 0 && w > slot {
                                w - 1
                            } else {
                                w
                            };
                            assert(changed[to].key == k && changed[to].val == chain[w].val);
                        }
                        if has_key(changed, k) {
                            let w = place_of(changed, k);
                            let from = if slot >= 0 && w >= slot {
                                w + 1
                            } else {
                                w
                            };
                            assert(chain[from].key == k && changed[w].val == chain[from].val);
                        }
                    }
                } else {
                    assert(self.chain(k) == old(self).chain(k));
                }
            }
            assert(self@ =~= old(self)@.remove(key));
        }
    }

    /// The pairs of the table, bucket by bucket.
    pub fn entry_set(&self) -> (result: Vec<&Pair<V>>)
        ensures
            result@.len() == self.entries().len(),
            forall|i: int| 0 <= i < result@.len() ==> *#[trigger] result@[i] == self.entries()[i],
    {
        let mut result: Vec<&Pair<V>> = Vec::new();
        let mut b: usize = 0;
        while b < self.buckets.len()
            invariant
                b <= self.buckets@.len(),
                result@.len() == chained(self.buckets@, b as nat).len(),
                forall|i: int|
                    0 <= i < result@.len() ==> *#[trigger] result@[i] == chained(
                        self.buckets@,
                        b as nat,
                    )[i],
            decreases self.buckets@.len() - b,
        {
            let bucket = &self.buckets[b];
            let ghost done = chained(self.buckets@, b as nat);
            let mut i: usize = 0;
            while i < bucket.len()
                invariant
                    i <= bucket@.len(),
                    result@.len() == done.len() + i,
                    forall|k: int| 0 <= k < done.len() ==> *#[trigger] result@[k] == done[k],
                    forall|k: int| 0 <= k < i ==> *#[trigger] result@[done.len() + k] == bucket@[k],
                decreases bucket@.len() - i,
            {
                result.push(&bucket[i]);
                i += 1;
            }
            proof {
                let more = chained(self.buckets@, (b + 1) as nat);
                assert(more =~= done + bucket@);
                assert forall|k: int| 0 <= k < result@.len() implies *#[trigger] result@[k]
                    == more[k] by {
                    if k >= done.len() {
                        assert(*result@[done.len() + (k - done.len())] == bucket@[k - done.len()]);
                    }
                }
            }
            b += 1;
        }
        result
    }

    /// The keys of the table, bucket by bucket.
    pub fn key_set(&self) -> (result: Vec<usize>)
        ensures
            result@ == self.entries().map_values(|pair: Pair<V>| pair.key),
    {
        let entries = self.entry_set();
        let mut result: Vec<usize> = Vec::new();
        let mut i: usize = 0;
        while i < entries.len()
            invariant
                i <= entries@.len(),
                entries@.len() == self.entries().len(),
                forall|k: int| 0 <= k < entries@.len() ==> *#[trigger] entries@[k] == self.entries()[k],
                result@.len() == i,
                forall|k: int| 0 <= k < i ==> #[trigger] result@[k] == self.entries()[k].key,
            decreases entries@.len() - i,
        {
            result.push(entries[i].key);
            i += 1;
        }
        assert(result@ =~= self.entries().map_values(|pair: Pair<V>| pair.key));
        result
    }

    /// The values of the table, bucket by bucket.
    pub fn value_set(&self) -> (result: Vec<&V>)
        ensures
            result@.len() == self.entries().len(),
            forall|i: int| 0 <= i < result@.len() ==> *#[trigger] result@[i] == self.entries()[i].val,
    {
        let entries = self.entry_set();
        let mut result: Vec<&V> = Vec::new();
        let mut i: usize = 0;
        while i < entries.len()
            invariant
                i <= entries@.len(),
                entries@.len() == self.entries().len(),
                forall|k: int| 0 <= k < entries@.len() ==> *#[trigger] entries@[k] == self.entries()[k],
                result@.len() == i,
                forall|k: int| 0 <= k < i ==> *#[trigger] result@[k] == self.entries()[k].val,
            decreases entries@.len() - i,
        {
            result.push(&entries[i].val);
            i += 1;
        }
        result
    }

    /// Makes the table larger by its factor: the pairs stay, and go to the buckets that
    /// their keys fall into among the new number of buckets.
    pub fn extend(&mut self)
        requires
            old(self).wf(),
            old(self).spec_ratio() > 0,
            old(self).spec_capacity() * old(self).spec_ratio() <= usize::MAX,
        ensures
            final(self).wf(),
            final(self)@ == old(self)@,
            final(self).spec_capacity() == old(self).spec_capacity() * old(self).spec_ratio(),
            final(self).spec_ratio() == old(self).spec_ratio(),
            final(self).spec_size() == old(self).spec_size(),
    {
        let ghost before = *self;
        let ghost rows = self.buckets@;
        let mut buckets_temp: Vec<Vec<Pair<V>>> = Vec::new();
        core::mem::swap(&mut self.buckets, &mut buckets_temp);

        assert(self.capacity * self.extend_ratio >= self.capacity) by (nonlinear_arith)
            requires
                self.extend_ratio > 0,
        ;
        self.capacity = self.capacity * self.extend_ratio;
        self.buckets = Self::empty_buckets(self.capacity);
        self.size = 0;
        proof {
            lemma_chained_empty(self.buckets@, self.capacity as nat);
            assert(self@ =~= Map::<usize, V>::empty());
        }

        for bucket in it: buckets_temp
            invariant
                it.seq() == rows,
                before.wf(),
                rows == before.buckets@,
                self.wf(),
                self.capacity == before.capacity * before.extend_ratio,
                self.extend_ratio == before.extend_ratio,
                self.size == chained(rows, it.index() as nat).len(),
                forall|k: usize| #[trigger]
                    self@.contains_key(k) <==> lies_before(before, k, it.index() as int, 0),
                forall|k: usize| #[trigger] self@.contains_key(k) ==> self@[k] == before@[k],
        {
            let ghost b = it.index() as int;
            let ghost chain = bucket@;
            assert(bucket_wf(rows[b]@, b, before.capacity as int));
            for p in places: bucket
                invariant
                    places.seq() == chain,
                    chain == rows[b]@,
                    0 <= b < rows.len(),
                    before.wf(),
                    rows == before.buckets@,
                    bucket_wf(chain, b, before.capacity as int),
                    self.wf(),
                    self.capacity == before.capacity * before.extend_ratio,
                    self.extend_ratio == before.extend_ratio,
                    self.size == chained(rows, b as nat).len() + places.index(),
                    forall|k: usize| #[trigger]
                        self@.contains_key(k) <==> lies_before(
                            before,
                            k,
                            b,
                            places.index() as int,
                        ),
                    forall|k: usize| #[trigger] self@.contains_key(k) ==> self@[k] == before@[k],
            {
                let ghost i = places.index() as int;
                let ghost held = self@;
                proof {
                    before.lemma_view(p.key);
                    assert(chain[i] == p);
                    assert(before.chain(p.key) == chain);
                    assert(place_of(chain, p.key) == i) by {
                        let w = place_of(chain, p.key);
                        assert(chain[w].key == p.key);
                    }
                    lemma_chained_holds_bucket(rows, b, rows.len());
                    lemma_chained_grows(rows, (b + 1) as nat, rows.len());
                }
                self.put(p.key, p.val);
                proof {
                    assert forall|k: usize| #[trigger]
                        self@.contains_key(k) <==> lies_before(before, k, b, i + 1) by {
                        if k != p.key {
                            assert(held.contains_key(k) <==> lies_before(before, k, b, i));
                            if k as int % before.capacity as int == b && before@.contains_key(k) {
                                before.lemma_view(k);
                                let w = place_of(chain, k);
                                assert(chain[w].key == k);
                            }
                        }
                    }
                    assert forall|k: usize| #[trigger] self@.contains_key(k) implies self@[k]
                        == before@[k] by {
                        if k != p.key {
                            assert(held.contains_key(k));
                        }
                    }
                }
            }
            proof {
                assert forall|k: usize| #[trigger]
                    self@.contains_key(k) <==> lies_before(before, k, b + 1, 0) by {
                    assert(self@.contains_key(k) <==> lies_before(before, k, b, chain.len() as int));
                    if k as int % before.capacity as int == b && before@.contains_key(k) {
                        before.lemma_view(k);
                        let w = place_of(chain, k);
                        assert(chain[w].key == k);
                    }
                }
            }
        }
        proof {
            assert forall|k: usize|
                #![trigger self@.dom().contains(k)]
                self@.dom().contains(k) == before@.dom().contains(k) && (self@.dom().contains(k)
                    ==> self@[k] == before@[k]) by {
                assert(self@.contains_key(k) <==> lies_before(before, k, rows.len() as int, 0));
                if self@.contains_key(k) {
                    assert(self@[k] == before@[k]);
                }
            }
            assert(self@ =~= before@);
        }
    }
}

} // verus!
