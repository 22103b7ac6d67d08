//! A hash table kept in an array of buckets, one pair to a bucket: a later pair whose key
//! falls into a taken bucket takes the place of the earlier one.

use vstd::prelude::*;

verus! {

/// A key and its value.
#[derive(Debug, Clone, PartialEq)]
pub struct Pair<V> {
    pub key: usize,
    pub val: V,
}

pub struct ArrayHashMap<V> {
    buckets: Vec<Option<Pair<V>>>,
}

/// The number of buckets.
pub const BUCKETS_SIZE: usize = 100;

/// The bucket that a key falls into.
pub open spec fn bucket_of(key: usize) -> int {
    key as int % 100
}

/// The pairs that a row of buckets holds, in the order of the buckets.
pub open spec fn entries<V>(buckets: Seq<Option<Pair<V>>>) -> Seq<Pair<V>>
    decreases buckets.len(),
{
    if buckets.len() == 0 {
        Seq::empty()
    } else {
        entries(buckets.drop_last()) + match buckets.last() {
            None => Seq::empty(),
            Some(pair) => seq![pair],
        }
    }
}

/// `refs` refers, place by place, to what `source` holds.
pub open spec fn refers_to<A>(source: Seq<A>, refs: Seq<&A>) -> bool {
    &&& refs.len() == source.len()
    &&& forall|i: int| 0 <= i < source.len() ==> *#[trigger] refs[i] == source[i]
}

impl<V> View for ArrayHashMap<V> {
    type V = Seq<Option<Pair<V>>>;

    /// What each bucket holds.
    closed spec fn view(&self) -> Seq<Option<Pair<V>>> {
        self.buckets@
    }
}

impl<V> ArrayHashMap<V> {
    /// The table has all its buckets.
    pub closed spec fn wf(&self) -> bool {
        self.buckets@.len() == BUCKETS_SIZE
    }

    /// A table has one place for each bucket.
    pub proof fn lemma_len(&self)
        requires
            self.wf(),
        ensures
            self@.len() == 100,
    {
    }
}

impl<V: Clone> ArrayHashMap<V> {
    pub fn new() -> (map: Self)
        ensures
            map.wf(),
            map@ == Seq::new(100, |i: int| None::<Pair<V>>),
    {
        let mut buckets: Vec<Option<Pair<V>>> = Vec::new();
        let mut i: usize = 0;
        while i < BUCKETS_SIZE
            invariant
                i <= BUCKETS_SIZE,
                buckets@.len() == i,
                forall|k: int| 0 <= k < i ==> buckets@[k].is_none(),
            decreases BUCKETS_SIZE - i,
        {
            buckets.push(None);
            i += 1;
        }
        let map = Self { buckets };
        assert(map@ =~= Seq::new(100, |i: int| None::<Pair<V>>));
        map
    }

    fn hash_func(&self, key: usize) -> (idx: usize)
        ensures
            idx == bucket_of(key),
            idx < BUCKETS_SIZE,
    {
        key % BUCKETS_SIZE
    }

    /// The value in the bucket of `key`, whichever key it was put under.
    pub fn get(&self, key: usize) -> (result: Option<&V>)
        requires
            self.wf(),
        ensures
            match result {
                None => self@[bucket_of(key)].is_none(),
                Some(val) => self@[bucket_of(key)] matches Some(pair) && *val == pair.val,
            },
    {
        let idx = self.hash_func(key);
        match &self.buckets[idx] {
            None => None,
            Some(pair) => Some(&pair.val),
        }
    }

    /// Puts the pair into the bucket of `key`, in place of what was there.
    pub fn put(&mut self, key: usize, val: V)
        requires
            old(self).wf(),
        ensures
            final(self).wf(),
            final(self)@ == old(self)@.update(bucket_of(key), Some(Pair { key, val })),
    {
        let idx = self.hash_func(key);
        self.buckets.set(idx, Some(Pair { key, val }));
    }

    /// Empties the bucket of `key`.
    pub fn remove(&mut self, key: usize)
        requires
            old(self).wf(),
        ensures
            final(self).wf(),
            final(self)@ == old(self)@.update(bucket_of(key), None),
    {
        let idx = self.hash_func(key);
        self.buckets.set(idx, None);
    }

    /// The pairs of the table, in the order of the buckets.
    pub fn entry_set(&self) -> (result: Vec<&Pair<V>>)
        ensures
            refers_to(entries(self@), result@),
    {
        let mut result: Vec<&Pair<V>> = Vec::new();
        let mut i: usize = 0;
        while i < self.buckets.len()
            invariant
                i <= self.buckets@.len(),
                refers_to(entries(self.buckets@.take(i as int)), result@),
            decreases self.buckets@.len() - i,
        {
            proof {
                assert(self.buckets@.take(i + 1).drop_last() =~= self.buckets@.take(i as int));
            }
            if let Some(pair) = &self.buckets[i] {
                result.push(pair);
            }
            i += 1;
        }
        assert(self.buckets@.take(i as int) =~= self.buckets@);
        result
    }

    /// The keys of the table, in the order of the buckets.
    pub fn key_set(&self) -> (result: Vec<usize>)
        ensures
            result@ == entries(self@).map_values(|pair: Pair<V>| pair.key),
    {
        let mut result: Vec<usize> = Vec::new();
        let mut i: usize = 0;
        while i < self.buckets.len()
            invariant
                i <= self.buckets@.len(),
                result@ == entries(self.buckets@.take(i as int)).map_values(
                    |pair: Pair<V>| pair.key,
                ),
            decreases self.buckets@.len() - i,
        {
            proof {
                assert(self.buckets@.take(i + 1).drop_last() =~= self.buckets@.take(i as int));
            }
            if let Some(pair) = &self.buckets[i] {
                result.push(pair.key);
            }
            assert(result@ =~= entries(self.buckets@.take(i + 1)).map_values(
                |pair: Pair<V>| pair.key,
            ));
            i += 1;
        }
        assert(self.buckets@.take(i as int) =~= self.buckets@);
        result
    }

    /// The values of the table, in the order of the buckets.
    pub fn value_set(&self) -> (result: Vec<&V>)
        ensures
            refers_to(entries(self@).map_values(|pair: Pair<V>| pair.val), result@),
    {
        let mut result: Vec<&V> = Vec::new();
        let mut i: usize = 0;
        while i < self.buckets.len()
            invariant
                i <= self.buckets@.len(),
                refers_to(
                    entries(self.buckets@.take(i as int)).map_values(|pair: Pair<V>| pair.val),
                    result@,
                ),
            decreases self.buckets@.len() - i,
        {
            proof {
                assert(self.buckets@.take(i + 1).drop_last() =~= self.buckets@.take(i as int));
            }
            if let Some(pair) = &self.buckets[i] {
                result.push(&pair.val);
            }
            i += 1;
        }
        assert(self.buckets@.take(i as int) =~= self.buckets@);
        result
    }
}

} // verus!
