//! A hash table with open addressing: a pair lies in the bucket of its key or in a later
//! one, and a bucket that a pair has left keeps a tombstone.
//!
//! A search goes from the bucket of the key towards the end of the table and does not come
//! round to the front. The table does not decide by itself when to grow: `put` puts a pair
//! in, and `extend` makes the table larger, whenever its user calls it.

use vstd::prelude::*;

verus! {

/// A key and its value.
#[derive(Debug, Clone)]
pub struct Pair<V> {
    pub key: usize,
    pub val: V,
}

/// What a bucket that is not empty holds: a pair, or the mark that a pair has left.
#[derive(Debug, Clone)]
pub enum TombstoneOrAlive<T> {
    Alive(T),
    Tombstone,
}

pub struct OpenAddrHashMap<V> {
    size: usize,
    capacity: usize,
    extend_ratio: usize,
    buckets: Vec<Option<TombstoneOrAlive<Pair<V>>>>,
}

/// The number of buckets of a new table.
pub const BUCKETS_SIZE: usize = 10;

/// The bucket holds a pair.
pub open spec fn holds_pair<V>(slot: Option<TombstoneOrAlive<Pair<V>>>) -> bool {
    slot matches Some(TombstoneOrAlive::Alive(_))
}

/// Bucket `place` holds a pair with the key.
pub open spec fn alive_at<V>(
    slots: Seq<Option<TombstoneOrAlive<Pair<V>>>>,
    place: int,
    key: usize,
) -> bool {
    &&& 0 <= place < slots.len()
    &&& holds_pair(slots[place])
    &&& pair_at(slots, place).key == key
}

/// The pair that bucket `place` holds.
pub open spec fn pair_at<V>(slots: Seq<Option<TombstoneOrAlive<Pair<V>>>>, place: int) -> Pair<V> {
    slots[place]->0->Alive_0
}

/// No bucket from `from` up to, not including, `to` is empty.
pub open spec fn filled_between<V>(
    slots: Seq<Option<TombstoneOrAlive<Pair<V>>>>,
    from: int,
    to: int,
) -> bool {
    forall|i: int| from <= i < to ==> (#[trigger] slots[i]) is Some
}

/// The number of pairs in the first `count` buckets.
pub open spec fn count_alive<V>(slots: Seq<Option<TombstoneOrAlive<Pair<V>>>>, count: nat) -> nat
    decreases count,
{
    if count == 0 {
        0
    } else {
        count_alive(slots, (count - 1) as nat) + if holds_pair(slots[count - 1]) {
            1nat
        } else {
            0nat
        }
    }
}

/// Each pair lies in the bucket of its key or behind it, with no empty bucket in between,
/// and no key occurs twice.
pub open spec fn slots_wf<V>(slots: Seq<Option<TombstoneOrAlive<Pair<V>>>>, capacity: int) -> bool {
    &&& capacity > 0
    &&& slots.len() == capacity
    &&& forall|j: int|
        0 <= j < slots.len() && holds_pair(#[trigger] slots[j]) ==> pair_at(slots, j).key as int
            % capacity <= j && filled_between(slots, pair_at(slots, j).key as int % capacity, j)
    &&& forall|i: int, j: int|
        0 <= i < slots.len() && 0 <= j < slots.len() && holds_pair(#[trigger] slots[i])
            && holds_pair(#[trigger] slots[j]) && pair_at(slots, i).key == pair_at(slots, j).key
            ==> i == j
}

/// A search for the key ends inside the table: at or behind the bucket of the key lies an
/// empty bucket, or the pair with the key.
pub open spec fn search_ends<V>(
    slots: Seq<Option<TombstoneOrAlive<Pair<V>>>>,
    key: usize,
) -> bool {
    exists|e: int|
        key as int % (slots.len() as int) <= e < slots.len() && ((#[trigger] slots[e]) is None
            || alive_at(slots, e, key))
}

/// The values of the keys that the buckets hold.
pub open spec fn slots_map<V>(slots: Seq<Option<TombstoneOrAlive<Pair<V>>>>) -> Map<usize, V> {
    Map::new(
        |key: usize| exists|j: int| alive_at(slots, j, key),
        |key: usize| pair_at(slots, choose|j: int| alive_at(slots, j, key)).val,
    )
}

/// The buckets hold a key exactly if one of them holds a pair with it, and then the value of
/// that pair is the value of the key.
pub proof fn lemma_slots_map<V>(slots: Seq<Option<TombstoneOrAlive<Pair<V>>>>, key: usize)
    requires
        slots_wf(slots, slots.len() as int),
    ensures
        slots_map(slots).contains_key(key) <==> exists|j: int| alive_at(slots, j, key),
        forall|j: int| #[trigger]
            alive_at(slots, j, key) ==> slots_map(slots).contains_key(key) && slots_map(slots)[key]
                == pair_at(slots, j).val,
{
    assert forall|j: int| #[trigger] alive_at(slots, j, key) implies slots_map(slots)[key]
        == pair_at(slots, j).val by {
        let c = choose|c: int| alive_at(slots, c, key);
        assert(slots[c] is Some && slots[j] is Some);
        assert(c == j);
    }
}

/// What changing one bucket does to the number of pairs.
pub proof fn lemma_count_update<V>(
    before: Seq<Option<TombstoneOrAlive<Pair<V>>>>,
    place: int,
    slot: Option<TombstoneOrAlive<Pair<V>>>,
    count: nat,
)
    requires
        0 <= place < before.len(),
        count <= before.len(),
    ensures
        count_alive(before.update(place, slot), count) == count_alive(before, count) + if place
            < count {
            (if holds_pair(slot) {
                1int
            } else {
                0int
            }) - (if holds_pair(before[place]) {
                1int
            } else {
                0int
            })
        } else {
            0int
        },
    decreases count,
{
    if count > 0 {
        lemma_count_update(before, place, slot, (count - 1) as nat);
    }
}

/// Buckets that are all empty hold no pair; and a bucket with a pair is counted.
pub proof fn lemma_count_bounds<V>(
    slots: Seq<Option<TombstoneOrAlive<Pair<V>>>>,
    place: int,
    count: nat,
)
    requires
        count <= slots.len(),
    ensures
        (forall|i: int| 0 <= i < count ==> (#[trigger] slots[i]) is None) ==> count_alive(
            slots,
            count,
        ) == 0,
        0 <= place < count && holds_pair(slots[place]) ==> count_alive(slots, count) >= 1,
        count_alive(slots, count) <= count,
    decreases count,
{
    if count > 0 {
        lemma_count_bounds(slots, place, (count - 1) as nat);
    }
}

/// A pair that moves forward to a tombstone between the bucket of its key and its own,
/// and leaves a tombstone: the buckets stay in order, and hold what they held.
proof fn lemma_moved<V>(
    slots: Seq<Option<TombstoneOrAlive<Pair<V>>>>,
    to: int,
    from: int,
    key: usize,
)
    requires
        slots_wf(slots, slots.len() as int),
        alive_at(slots, from, key),
        key as int % (slots.len() as int) <= to < from,
        slots[to] == Some(TombstoneOrAlive::<Pair<V>>::Tombstone),
    ensures
        ({
            let after = slots.update(from, Some(TombstoneOrAlive::<Pair<V>>::Tombstone)).update(
                to,
                slots[from],
            );
            &&& slots_wf(after, slots.len() as int)
            &&& slots_map(after) == slots_map(slots)
            &&& alive_at(after, to, key)
            &&& filled_between(after, key as int % (slots.len() as int), to)
            &&& forall|i: int| 0 <= i < slots.len() ==> slots[i] is None ==> (#[trigger] after[i])
                is None
        }),
{
    let capacity = slots.len() as int;
    let after = slots.update(from, Some(TombstoneOrAlive::<Pair<V>>::Tombstone)).update(
        to,
        slots[from],
    );
    assert(holds_pair(slots[from]));
    assert(filled_between(slots, key as int % capacity, from));
    assert forall|i: int| 0 <= i < slots.len() implies ((#[trigger] after[i]) is Some
        <==> slots[i] is Some) by {}
    assert forall|j: int| 0 <= j < after.len() && holds_pair(#[trigger] after[j]) implies pair_at(
        after,
        j,
    ).key as int % capacity <= j && filled_between(
        after,
        pair_at(after, j).key as int % capacity,
        j,
    ) by {
        if j == to {
            assert forall|i: int| key as int % capacity <= i < to implies (#[trigger] after[i])
                is Some by {
                assert(slots[i] is Some);
            }
        } else {
            assert(holds_pair(slots[j]));
            let h = pair_at(slots, j).key as int % capacity;
            assert(filled_between(slots, h, j));
            assert forall|i: int| h <= i < j implies (#[trigger] after[i]) is Some by {
                assert(slots[i] is Some);
            }
        }
    }
    assert forall|i: int, j: int|
        0 <= i < after.len() && 0 <= j < after.len() && holds_pair(#[trigger] after[i])
            && holds_pair(#[trigger] after[j]) && pair_at(after, i).key == pair_at(
            after,
            j,
        ).key implies i == j by {
        let origin_i = if i == to {
            from
        } else {
            i
        };
        let origin_j = if j == to {
            from
        } else {
            j
        };
        assert(holds_pair(slots[origin_i]) && holds_pair(slots[origin_j]));
        assert(pair_at(slots, origin_i) == pair_at(after, i));
        assert(pair_at(slots, origin_j) == pair_at(after, j));
    }
    assert(slots_wf(after, capacity));
    assert forall|k: usize|
        #![trigger slots_map(after).dom().contains(k)]
        slots_map(after).dom().contains(k) == slots_map(slots).dom().contains(k) && (slots_map(
            after,
        ).dom().contains(k) ==> slots_map(after)[k] == slots_map(slots)[k]) by {
        lemma_slots_map(slots, k);
        lemma_slots_map(after, k);
        if exists|j: int| alive_at(slots, j, k) {
            let j = choose|j: int| alive_at(slots, j, k);
            let target = if j == from {
                to
            } else {
                j
            };
            assert(alive_at(after, target, k));
            assert(pair_at(after, target) == pair_at(slots, j));
        }
        if exists|j: int| alive_at(after, j, k) {
            let j = choose|j: int| alive_at(after, j, k);
            let origin = if j == to {
                from
            } else {
                j
            };
            assert(alive_at(slots, origin, k));
            assert(pair_at(after, j) == pair_at(slots, origin));
        }
    }
    assert(slots_map(after) =~= slots_map(slots));
}

/// No bucket holds a tombstone.
pub open spec fn no_tombstone<V>(slots: Seq<Option<TombstoneOrAlive<Pair<V>>>>) -> bool {
    forall|i: int| 0 <= i < slots.len() ==> (#[trigger] slots[i]) is None || holds_pair(slots[i])
}

/// A pair that is put where the search for its key has ended: the buckets stay in order,
/// and hold the pair besides what they held.
proof fn lemma_put<V>(slots: Seq<Option<TombstoneOrAlive<Pair<V>>>>, place: int, pair: Pair<V>)
    requires
        slots_wf(slots, slots.len() as int),
        pair.key as int % (slots.len() as int) <= place < slots.len(),
        filled_between(slots, pair.key as int % (slots.len() as int), place),
        slots_map(slots).contains_key(pair.key) ==> alive_at(slots, place, pair.key),
        !slots_map(slots).contains_key(pair.key) ==> !holds_pair(slots[place]),
    ensures
        ({
            let after = slots.update(place, Some(TombstoneOrAlive::Alive(pair)));
            &&& slots_wf(after, slots.len() as int)
            &&& slots_map(after) == slots_map(slots).insert(pair.key, pair.val)
        }),
{
    let capacity = slots.len() as int;
    let after = slots.update(place, Some(TombstoneOrAlive::Alive(pair)));
    lemma_slots_map(slots, pair.key);
    assert forall|j: int| 0 <= j < after.len() && holds_pair(#[trigger] after[j]) implies pair_at(
        after,
        j,
    ).key as int % capacity <= j && filled_between(
        after,
        pair_at(after, j).key as int % capacity,
        j,
    ) by {
        if j == place {
            assert forall|i: int| pair.key as int % capacity <= i < place implies (
            #[trigger] after[i]) is Some by {
                assert(slots[i] is Some);
            }
        } else {
            assert(holds_pair(slots[j]));
            let h = pair_at(slots, j).key as int % capacity;
            assert(filled_between(slots, h, j));
            assert forall|i: int| h <= i < j implies (#[trigger] after[i]) is Some by {
                if i != place {
                    assert(slots[i] is Some);
                }
            }
        }
    }
    assert forall|i: int, j: int|
        0 <= i < after.len() && 0 <= j < after.len() && holds_pair(#[trigger] after[i])
            && holds_pair(#[trigger] after[j]) && pair_at(after, i).key == pair_at(
            after,
            j,
        ).key implies i == j by {
        if i != j {
            if i == place {
                assert(alive_at(slots, j, pair.key));
            } else if j == place {
                assert(alive_at(slots, i, pair.key));
            } else {
                assert(holds_pair(slots[i]) && holds_pair(slots[j]));
            }
        }
    }
    assert(slots_wf(after, capacity));
    let wanted = slots_map(slots).insert(pair.key, pair.val);
    assert forall|k: usize|
        #![trigger slots_map(after).dom().contains(k)]
        slots_map(after).dom().contains(k) == wanted.dom().contains(k) && (slots_map(
            after,
        ).dom().contains(k) ==> slots_map(after)[k] == wanted[k]) by {
        lemma_slots_map(slots, k);
        lemma_slots_map(after, k);
        if k == pair.key {
            assert(alive_at(after, place, k));
        } else {
            if exists|j: int| alive_at(slots, j, k) {
                let j = choose|j: int| alive_at(slots, j, k);
                assert(j != place);
                assert(alive_at(after, j, k));
                assert(pair_at(after, j) == pair_at(slots, j));
            }
            if exists|j: int| alive_at(after, j, k) {
                let j = choose|j: int| alive_at(after, j, k);
                assert(j != place);
                assert(alive_at(slots, j, k));
                assert(pair_at(after, j) == pair_at(slots, j));
            }
        }
    }
    assert(slots_map(after) =~= wanted);
}

/// A pair that leaves a tombstone: the buckets stay in order, and hold what they held but
/// for the key of the pair.
proof fn lemma_removed<V>(slots: Seq<Option<TombstoneOrAlive<Pair<V>>>>, place: int)
    requires
        slots_wf(slots, slots.len() as int),
        0 <= place < slots.len(),
        holds_pair(slots[place]),
    ensures
        ({
            let after = slots.update(place, Some(TombstoneOrAlive::<Pair<V>>::Tombstone));
            &&& slots_wf(after, slots.len() as int)
            &&& slots_map(after) == slots_map(slots).remove(pair_at(slots, place).key)
        }),
{
    let capacity = slots.len() as int;
    let key = pair_at(slots, place).key;
    let after = slots.update(place, Some(TombstoneOrAlive::<Pair<V>>::Tombstone));
    assert forall|j: int| 0 <= j < after.len() && holds_pair(#[trigger] after[j]) implies pair_at(
        after,
        j,
    ).key as int % capacity <= j && filled_between(
        after,
        pair_at(after, j).key as int % capacity,
        j,
    ) by {
        assert(holds_pair(slots[j]));
        let h = pair_at(slots, j).key as int % capacity;
        assert(filled_between(slots, h, j));
        assert forall|i: int| h <= i < j implies (#[trigger] after[i]) is Some by {
            if i != place {
                assert(slots[i] is Some);
            }
        }
    }
    assert forall|i: int, j: int|
        0 <= i < after.len() && 0 <= j < after.len() && holds_pair(#[trigger] after[i])
            && holds_pair(#[trigger] after[j]) && pair_at(after, i).key == pair_at(
            after,
            j,
        ).key implies i == j by {
        assert(holds_pair(slots[i]) && holds_pair(slots[j]));
    }
    assert(slots_wf(after, capacity));
    let wanted = slots_map(slots).remove(key);
    assert forall|k: usize|
        #![trigger slots_map(after).dom().contains(k)]
        slots_map(after).dom().contains(k) == wanted.dom().contains(k) && (slots_map(
            after,
        ).dom().contains(k) ==> slots_map(after)[k] == wanted[k]) by {
        lemma_slots_map(slots, k);
        lemma_slots_map(after, k);
        if exists|j: int| alive_at(after, j, k) {
            let j = choose|j: int| alive_at(after, j, k);
            assert(j != place);
            assert(alive_at(slots, j, k));
            assert(pair_at(after, j) == pair_at(slots, j));
            if k == key {
                assert(holds_pair(slots[j]) && holds_pair(slots[place]));
            }
        }
        if k != key && exists|j: int| alive_at(slots, j, k) {
            let j = choose|j: int| alive_at(slots, j, k);
            assert(j != place);
            assert(alive_at(after, j, k));
            assert(pair_at(after, j) == pair_at(slots, j));
        }
    }
    assert(slots_map(after) =~= wanted);
}

/// The pairs of the first `count` buckets, in the order of the buckets.
pub open spec fn alive_pairs<V>(
    slots: Seq<Option<TombstoneOrAlive<Pair<V>>>>,
    count: nat,
) -> Seq<Pair<V>>
    decreases count,
{
    if count == 0 {
        Seq::empty()
    } else if holds_pair(slots[count - 1]) {
        alive_pairs(slots, (count - 1) as nat).push(pair_at(slots, count - 1))
    } else {
        alive_pairs(slots, (count - 1) as nat)
    }
}

/// How far behind the bucket of a key among `capacity` buckets its bucket lies among
/// `ratio` times as many.
pub open spec fn shift(key: usize, capacity: int, ratio: int) -> int {
    key as int % (capacity * ratio) - key as int % capacity
}

/// Each pair of the larger table has come from one of the first `done` buckets of the
/// smaller one, and lies no further behind the bucket of its key than it did there.
spec fn moved_over<V>(
    rows: Seq<Option<TombstoneOrAlive<Pair<V>>>>,
    larger: Seq<Option<TombstoneOrAlive<Pair<V>>>>,
    ratio: int,
    done: int,
) -> bool {
    forall|s: int|
        0 <= s < larger.len() && holds_pair(#[trigger] larger[s]) ==> exists|j: int|
            0 <= j < done && #[trigger] alive_at(rows, j, pair_at(larger, s).key) && s <= shift(
                pair_at(larger, s).key,
                rows.len() as int,
                ratio,
            ) + j
}

/// The bucket of a key among `ratio` times as many buckets lies a whole number of times
/// the old number of buckets behind its old bucket.
proof fn lemma_shift(key: usize, capacity: int, ratio: int)
    requires
        capacity > 0,
        ratio > 0,
    ensures
        shift(key, capacity, ratio) == capacity * ((key as int / capacity) % ratio),
        0 <= (key as int / capacity) % ratio < ratio,
        0 <= key as int % (capacity * ratio) < capacity * ratio,
{
    vstd::arithmetic::div_mod::lemma_mod_breakdown(key as int, capacity, ratio);
}

/// The pair of bucket `j` of the smaller table finds room in the larger one: the bucket as
/// far behind the bucket of its key as `j` was is empty.
proof fn lemma_room<V>(
    rows: Seq<Option<TombstoneOrAlive<Pair<V>>>>,
    larger: Seq<Option<TombstoneOrAlive<Pair<V>>>>,
    ratio: int,
    j: int,
    key: usize,
)
    requires
        ratio > 0,
        slots_wf(rows, rows.len() as int),
        slots_wf(larger, rows.len() * ratio),
        no_tombstone(larger),
        moved_over(rows, larger, ratio, j),
        alive_at(rows, j, key),
    ensures
        ({
            let place = shift(key, rows.len() as int, ratio) + j;
            &&& key as int % (larger.len() as int) <= place < larger.len()
            &&& larger[place] is None
        }),
{
    let c = rows.len() as int;
    let q = (key as int / c) % ratio;
    let place = shift(key, c, ratio) + j;
    lemma_shift(key, c, ratio);
    assert(holds_pair(rows[j]));
    assert(key as int % c <= j);
    assert(c * q + c <= c * ratio) by (nonlinear_arith)
        requires
            0 <= q < ratio,
            c > 0,
    ;
    if larger[place] is Some {
        assert(holds_pair(larger[place]));
        let other = pair_at(larger, place).key;
        let q2 = (other as int / c) % ratio;
        lemma_shift(other, c, ratio);
        let j2 = choose|j2: int|
            0 <= j2 < j && #[trigger] alive_at(rows, j2, other) && place <= shift(other, c, ratio)
                + j2;
        assert(other as int % (c * ratio) <= place);
        assert(holds_pair(rows[j2]));
        assert(other as int % c <= j2);
        assert(c * q2 <= place < c * q + c);
        assert(c * q + j <= c * q2 + j2);
        assert(false) by (nonlinear_arith)
            requires
                c > 0,
                c * q2 < c * q + c,
                c * q < c * q2,
        ;
    }
}

impl<V> View for OpenAddrHashMap<V> {
    type V = Map<usize, V>;

    /// The value of each key that the table holds.
    closed spec fn view(&self) -> Map<usize, V> {
        slots_map(self.buckets@)
    }
}

impl<V> OpenAddrHashMap<V> {
    /// What each bucket holds.
    pub closed spec fn slots(&self) -> Seq<Option<TombstoneOrAlive<Pair<V>>>> {
        self.buckets@
    }

    /// The table has its buckets, each pair can be found from the bucket of its key, no key
    /// occurs twice, and the stored size is the number of pairs.
    pub closed spec fn wf(&self) -> bool {
        &&& slots_wf(self.buckets@, self.capacity as int)
        &&& self.size == count_alive(self.buckets@, self.capacity as nat)
    }

    /// A search for the key ends inside the table.
    pub open spec fn can_find(&self, key: usize) -> bool {
        search_ends(self.slots(), key)
    }

    /// The number of buckets.
    pub closed spec fn spec_capacity(&self) -> nat {
        self.capacity as nat
    }

    /// The number of pairs.
    pub closed spec fn spec_size(&self) -> nat {
        self.size as nat
    }

    /// The factor by which `extend` makes the table larger.
    pub closed spec fn spec_ratio(&self) -> nat {
        self.extend_ratio as nat
    }

    /// The view of a table is the map of its buckets, of which there are as many as its
    /// capacity says, and its size is the number of their pairs. Each of the pairs gives a
    /// key of the table its value, and each key of the table has its pair.
    pub proof fn lemma_view(&self)
        requires
            self.wf(),
        ensures
            self@ == slots_map(self.slots()),
            slots_wf(self.slots(), self.spec_capacity() as int),
            self.spec_size() == count_alive(self.slots(), self.spec_capacity()),
            alive_pairs(self.slots(), self.slots().len()).len() == self.spec_size(),
            forall|i: int|
                0 <= i < alive_pairs(self.slots(), self.slots().len()).len()
                    ==> self@.contains_key(
                    (#[trigger] alive_pairs(self.slots(), self.slots().len())[i]).key,
                ) && self@[alive_pairs(self.slots(), self.slots().len())[i].key] == alive_pairs(
                    self.slots(),
                    self.slots().len(),
                )[i].val,
            forall|key: usize| #[trigger]
                self@.contains_key(key) ==> exists|i: int|
                    0 <= i < alive_pairs(self.slots(), self.slots().len()).len() && (
                    #[trigger] alive_pairs(self.slots(), self.slots().len())[i]).key == key,
    {
        let slots = self.slots();
        let all = alive_pairs(self.slots(), self.slots().len());
        lemma_alive_count(slots, slots.len());
        assert forall|i: int| 0 <= i < all.len() implies self@.contains_key((#[trigger] all[i]).key)
            && self@[all[i].key] == all[i].val by {
            let j = lemma_alive_place(slots, slots.len(), i);
            lemma_slots_map(slots, all[i].key);
            assert(alive_at(slots, j, all[i].key));
        }
        assert forall|key: usize| #[trigger] self@.contains_key(key) implies exists|i: int|
            0 <= i < all.len() && (#[trigger] all[i]).key == key by {
            lemma_slots_map(slots, key);
            let j = choose|j: int| alive_at(slots, j, key);
            let i = lemma_alive_index(slots, slots.len(), j);
            assert(all[i].key == key);
            assert(alive_pairs(self.slots(), self.slots().len())[i].key == key);
        }
    }
}

/// There are as many pairs in the listing of the first `count` buckets as are counted.
proof fn lemma_alive_count<V>(slots: Seq<Option<TombstoneOrAlive<Pair<V>>>>, count: nat)
    requires
        count <= slots.len(),
    ensures
        alive_pairs(slots, count).len() == count_alive(slots, count),
    decreases count,
{
    if count > 0 {
        lemma_alive_count(slots, (count - 1) as nat);
    }
}

/// Each pair in the listing of the first `count` buckets lies in one of those buckets.
proof fn lemma_alive_place<V>(
    slots: Seq<Option<TombstoneOrAlive<Pair<V>>>>,
    count: nat,
    i: int,
) -> (j: int)
    requires
        count <= slots.len(),
        0 <= i < alive_pairs(slots, count).len(),
    ensures
        0 <= j < count,
        holds_pair(slots[j]),
        pair_at(slots, j) == alive_pairs(slots, count)[i],
    decreases count,
{
    let before = alive_pairs(slots, (count - 1) as nat);
    if i < before.len() {
        lemma_alive_place(slots, (count - 1) as nat, i)
    } else {
        count - 1
    }
}

/// Each pair in one of the first `count` buckets is in their listing.
proof fn lemma_alive_index<V>(
    slots: Seq<Option<TombstoneOrAlive<Pair<V>>>>,
    count: nat,
    j: int,
) -> (i: int)
    requires
        count <= slots.len(),
        0 <= j < count,
        holds_pair(slots[j]),
    ensures
        0 <= i < alive_pairs(slots, count).len(),
        alive_pairs(slots, count)[i] == pair_at(slots, j),
    decreases count,
{
    let before = alive_pairs(slots, (count - 1) as nat);
    if j < count - 1 {
        let i = lemma_alive_index(slots, (count - 1) as nat, j);
        assert(alive_pairs(slots, count)[i] == before[i]);
        i
    } else {
        before.len() as int
    }
}

impl<V: Clone> OpenAddrHashMap<V> {
    pub fn new() -> (map: Self)
        ensures
            map.wf(),
            map@ == Map::<usize, V>::empty(),
            map.spec_capacity() == BUCKETS_SIZE,
            map.spec_size() == 0,
            map.spec_ratio() == 2,
            forall|key: usize| map.can_find(key),
    {
        let buckets = Self::empty_buckets(BUCKETS_SIZE);
        let map = Self { size: 0, capacity: BUCKETS_SIZE, extend_ratio: 2, buckets };
        proof {
            lemma_count_bounds(map.buckets@, 0, map.capacity as nat);
            assert(map@ =~= Map::<usize, V>::empty());
            assert forall|key: usize| map.can_find(key) by {
                let e = key as int % 10;
                assert(map.buckets@[e] is None);
            }
        }
        map
    }

    /// As many buckets as asked for, all of them empty.
    fn empty_buckets(count: usize) -> (buckets: Vec<Option<TombstoneOrAlive<Pair<V>>>>)
        ensures
            buckets@.len() == count,
            forall|i: int| 0 <= i < count ==> (#[trigger] buckets@[i]) is None,
    {
        let mut buckets: Vec<Option<TombstoneOrAlive<Pair<V>>>> = Vec::new();
        let mut i: usize = 0;
        while i < count
            invariant
                i <= count,
                buckets@.len() == i,
                forall|k: int| 0 <= k < i ==> (#[trigger] buckets@[k]) is None,
            decreases count - i,
        {
            buckets.push(None);
            i += 1;
        }
        buckets
    }

    fn hash_func(&self, key: usize) -> (idx: usize)
        requires
            self.capacity > 0,
        ensures
            idx == key as int % self.capacity as int,
            idx < self.capacity,
    {
        key % self.capacity
    }

    pub fn size(&self) -> (n: usize)
        ensures
            n == self.spec_size(),
    {
        self.size
    }

    pub fn capacity(&self) -> (n: usize)
        ensures
            n == self.spec_capacity(),
    {
        self.capacity
    }

    /// The factor by which `extend` makes the table larger.
    pub fn extend_ratio(&self) -> (n: usize)
        ensures
            n == self.spec_ratio(),
    {
        self.extend_ratio
    }

    /// Whether a search for the key ends inside the table.
    pub fn can_search(&self, key: usize) -> (ok: bool)
        requires
            self.wf(),
        ensures
            ok == self.can_find(key),
    {
        let mut idx = self.hash_func(key);
        while idx < self.capacity
            invariant
                self.wf(),
                key as int % self.capacity as int <= idx <= self.capacity,
                forall|i: int|
                    key as int % self.capacity as int <= i < idx ==> (#[trigger] self.buckets@[i])
                        is Some && !alive_at(self.buckets@, i, key),
            decreases self.capacity - idx,
        {
            match &self.buckets[idx] {
                None => {
                    return true;
                },
                Some(TombstoneOrAlive::Alive(p)) => {
                    if p.key == key {
                        assert(alive_at(self.buckets@, idx as int, key));
                        return true;
                    }
                },
                Some(TombstoneOrAlive::Tombstone) => {},
            }
            idx += 1;
        }
        false
    }

    /// The bucket where the key lies, or where a pair with it would be put: the first
    /// tombstone on the way if there is one, else the empty bucket that ends the search.
    /// A pair that is found behind a tombstone moves there, and leaves a tombstone.
    fn find_bucket(&mut self, key: usize) -> (idx: usize)
        requires
            old(self).wf(),
            old(self).can_find(key),
        ensures
            final(self).wf(),
            final(self)@ == old(self)@,
            final(self).capacity == old(self).capacity,
            final(self).extend_ratio == old(self).extend_ratio,
            final(self).size == old(self).size,
            key as int % final(self).capacity as int <= idx < final(self).capacity,
            filled_between(final(self).buckets@, key as int % final(self).capacity as int, idx as int),
            old(self)@.contains_key(key) ==> alive_at(final(self).buckets@, idx as int, key),
            !old(self)@.contains_key(key) ==> !holds_pair(final(self).buckets@[idx as int])
                && final(self).buckets@ == old(self).buckets@,
            no_tombstone(old(self).buckets@) ==> final(self).buckets@ == old(self).buckets@,
    {
        let ghost slots = self.buckets@;
        let ghost end = choose|e: int|
            key as int % (slots.len() as int) <= e < slots.len() && ((#[trigger] slots[e]) is None
                || alive_at(slots, e, key));
        let home = self.hash_func(key);
        let mut idx = home;
        let mut first_tombstone: usize = 0;
        let mut meet_tombstone = false;
        loop
            invariant
                self.wf(),
                *self == *old(self),
                slots == self.buckets@,
                home == key as int % self.capacity as int,
                home <= idx <= end < self.capacity,
                slots[end] is None || alive_at(slots, end, key),
                forall|i: int|
                    home <= i < idx ==> (#[trigger] slots[i]) is Some && !alive_at(slots, i, key),
                meet_tombstone ==> home <= first_tombstone < idx && slots[first_tombstone as int]
                    == Some(TombstoneOrAlive::<Pair<V>>::Tombstone),
            decreases self.capacity - idx,
        {
            let kind: u8 = match &self.buckets[idx] {
                None => 0,
                Some(TombstoneOrAlive::Tombstone) => 1,
                Some(TombstoneOrAlive::Alive(p)) => if p.key == key {
                    3
                } else {
                    2
                },
            };
            if kind == 3 {
                proof {
                    lemma_slots_map(slots, key);
                    assert(alive_at(slots, idx as int, key));
                }
                if meet_tombstone {
                    self.buckets.push(Some(TombstoneOrAlive::Tombstone));
                    let moved = self.buckets.swap_remove(idx);
                    self.buckets.set(first_tombstone, moved);
                    proof {
                        let tomb = Some(TombstoneOrAlive::<Pair<V>>::Tombstone);
                        let mid = slots.update(idx as int, tomb);
                        let after = mid.update(first_tombstone as int, slots[idx as int]);
                        assert(self.buckets@ =~= after);
                        lemma_count_update(slots, idx as int, tomb, self.capacity as nat);
                        lemma_count_update(
                            mid,
                            first_tombstone as int,
                            slots[idx as int],
                            self.capacity as nat,
                        );
                        lemma_moved(slots, first_tombstone as int, idx as int, key);
                    }
                    return first_tombstone;
                }
                return idx;
            } else if kind == 0 {
                proof {
                    lemma_slots_map(slots, key);
                    assert forall|j: int| !alive_at(slots, j, key) by {
                        if alive_at(slots, j, key) {
                            assert(holds_pair(slots[j]));
                            assert(filled_between(slots, home as int, j));
                            if j > idx {
                                assert(slots[idx as int] is Some);
                            }
                        }
                    }
                }
                if meet_tombstone {
                    return first_tombstone;
                }
                return idx;
            } else {
                if kind == 1 && !meet_tombstone {
                    meet_tombstone = true;
                    first_tombstone = idx;
                }
                proof {
                    assert(!alive_at(slots, idx as int, key));
                }
                idx += 1;
            }
        }
    }

    /// The value of `key`, if the table holds the key. The pair may move forward to a
    /// tombstone by this.
    pub fn get(&mut self, key: usize) -> (result: Option<&V>)
        requires
            old(self).wf(),
            old(self).can_find(key),
        ensures
            final(self).wf(),
            final(self)@ == old(self)@,
            final(self).spec_capacity() == old(self).spec_capacity(),
            final(self).spec_ratio() == old(self).spec_ratio(),
            final(self).spec_size() == old(self).spec_size(),
            match result {
                None => !old(self)@.contains_key(key),
                Some(val) => old(self)@.contains_key(key) && *val == old(self)@[key],
            },
    {
        let idx = self.find_bucket(key);
        proof {
            lemma_slots_map(self.buckets@, key);
        }
        match &self.buckets[idx] {
            Some(TombstoneOrAlive::Alive(p)) => {
                assert(alive_at(self.buckets@, idx as int, p.key));
                Some(&p.val)
            },
            _ => None,
        }
    }

    /// Gives `key` the value `val`. The table does not grow by this; see `extend`.
    pub fn put(&mut self, key: usize, val: V)
        requires
            old(self).wf(),
            old(self).can_find(key),
            old(self).spec_size() < usize::MAX,
        ensures
            final(self).wf(),
            final(self)@ == old(self)@.insert(key, val),
            final(self).spec_capacity() == old(self).spec_capacity(),
            final(self).spec_ratio() == old(self).spec_ratio(),
            final(self).spec_size() == old(self).spec_size() + if old(self)@.contains_key(key) {
                0nat
            } else {
                1nat
            },
            final(self).can_find(key),
            no_tombstone(old(self).slots()) ==> no_tombstone(final(self).slots()) && exists|
                place: int,
            |
                key as int % (old(self).slots().len() as int) <= place < old(self).slots().len()
                    && final(self).slots() == old(self).slots().update(
                    place,
                    Some(TombstoneOrAlive::Alive(Pair { key, val })),
                ),
    {
        let ghost start = self.buckets@;
        let idx = self.find_bucket(key);
        let ghost before = self.buckets@;
        let pair = Some(TombstoneOrAlive::Alive(Pair { key, val }));
        proof {
            lemma_slots_map(before, key);
            lemma_count_update(before, idx as int, pair, self.capacity as nat);
            lemma_put(before, idx as int, Pair { key, val });
        }
        let present = match &self.buckets[idx] {
            Some(TombstoneOrAlive::Alive(_)) => true,
            _ => false,
        };
        self.buckets.set(idx, pair);
        if !present {
            self.size += 1;
        }
        proof {
            assert(alive_at(self.buckets@, idx as int, key));
            assert(holds_pair(self.buckets@[idx as int]));
            if no_tombstone(start) {
                assert(self.buckets@ == start.update(idx as int, pair));
                assert forall|i: int| 0 <= i < self.buckets@.len() implies (
                #[trigger] self.buckets@[i]) is None || holds_pair(self.buckets@[i]) by {
                    if i != idx {
                        assert(start[i] is None || holds_pair(start[i]));
                    }
                }
            }
        }
    }

    /// Takes `key` out of the table, and leaves a tombstone where its pair was.
    pub fn remove(&mut self, key: usize)
        requires
            old(self).wf(),
            old(self).can_find(key),
        ensures
            final(self).wf(),
            final(self)@ == old(self)@.remove(key),
            final(self).spec_capacity() == old(self).spec_capacity(),
            final(self).spec_ratio() == old(self).spec_ratio(),
            final(self).spec_size() == old(self).spec_size() - if old(self)@.contains_key(key) {
                1nat
            } else {
                0nat
            },
    {
        let idx = self.find_bucket(key);
        let ghost before = self.buckets@;
        let present = match &self.buckets[idx] {
            Some(TombstoneOrAlive::Alive(_)) => true,
            _ => false,
        };
        proof {
            lemma_slots_map(before, key);
            if !present {
                assert(self@.remove(key) =~= self@);
            }
        }
        if present {
            proof {
                lemma_count_bounds(before, idx as int, self.capacity as nat);
                lemma_count_update(
                    before,
                    idx as int,
                    Some(TombstoneOrAlive::<Pair<V>>::Tombstone),
                    self.capacity as nat,
                );
                lemma_removed(before, idx as int);
            }
            self.buckets.set(idx, Some(TombstoneOrAlive::Tombstone));
            self.size -= 1;
        }
    }

    /// Makes the table larger by its factor: the pairs stay, and go to the buckets that
    /// their keys fall into among the new number of buckets, in the order of their old
    /// buckets. No tombstone is left.
    pub fn extend(&mut self)
        requires
            old(self).wf(),
            old(self).spec_ratio() > 0,
            old(self).spec_capacity() * old(self).spec_ratio() <= usize::MAX,
        ensures
            final(self).wf(),
            final(self)@ == old(self)@,
            final(self).spec_capacity() == old(self).spec_capacity() * old(self).spec_ratio(),
            final(self).spec_ratio() == old(self).spec_ratio(),
            final(self).spec_size() == old(self).spec_size(),
            no_tombstone(final(self).slots()),
    {
        let ghost rows = self.buckets@;
        let ghost ratio = self.extend_ratio as int;
        let mut buckets_temp: Vec<Option<TombstoneOrAlive<Pair<V>>>> = Vec::new();
        core::mem::swap(&mut self.buckets, &mut buckets_temp);

        assert(self.capacity * self.extend_ratio >= self.capacity) by (nonlinear_arith)
            requires
                self.extend_ratio > 0,
        ;
        self.capacity = self.capacity * self.extend_ratio;
        self.buckets = Self::empty_buckets(self.capacity);
        self.size = 0;
        proof {
            lemma_count_bounds(self.buckets@, 0, self.capacity as nat);
            assert(self@ =~= Map::<usize, V>::empty());
        }

        for slot in it: buckets_temp
            invariant
                it.seq() == rows,
                ratio > 0,
                rows.len() <= usize::MAX,
                slots_wf(rows, rows.len() as int),
                self.wf(),
                self.capacity == rows.len() * ratio,
                self.extend_ratio == ratio,
                no_tombstone(self.buckets@),
                self.size == count_alive(rows, it.index() as nat),
                moved_over(rows, self.buckets@, ratio, it.index() as int),
                forall|k: usize| #[trigger]
                    self@.contains_key(k) <==> exists|j: int|
                        0 <= j < it.index() && alive_at(rows, j, k),
                forall|k: usize| #[trigger]
                    self@.contains_key(k) ==> self@[k] == slots_map(rows)[k],
        {
            let ghost j = it.index() as int;
            let ghost larger = self.buckets@;
            let ghost held = self@;
            match slot {
                Some(TombstoneOrAlive::Alive(p)) => {
                    let ghost key = p.key;
                    proof {
                        assert(alive_at(rows, j, key));
                        lemma_room(rows, larger, ratio, j, key);
                        let room = shift(key, rows.len() as int, ratio) + j;
                        assert(larger[room] is None);
                        lemma_count_bounds(rows, 0, j as nat);
                        assert(self.size <= j < rows.len());
                        lemma_slots_map(rows, key);
                        assert(!held.contains_key(key)) by {
                            if exists|j2: int| 0 <= j2 < j && alive_at(rows, j2, key) {
                                let j2 = choose|j2: int| 0 <= j2 < j && alive_at(rows, j2, key);
                                assert(holds_pair(rows[j2]) && holds_pair(rows[j]));
                            }
                        }
                    }
                    self.put(p.key, p.val);
                    proof {
                        let after = self.buckets@;
                        let room = shift(key, rows.len() as int, ratio) + j;
                        let place = choose|place: int|
                            key as int % (larger.len() as int) <= place < larger.len() && after
                                == larger.update(place, Some(TombstoneOrAlive::Alive(p)));
                        assert(holds_pair(after[place]));
                        assert(filled_between(after, key as int % (larger.len() as int), place));
                        if place > room {
                            assert(after[room] is Some);
                        }
                        assert forall|s: int|
                            0 <= s < after.len() && holds_pair(
                                #[trigger] after[s],
                            ) implies exists|j2: int|
                            0 <= j2 < j + 1 && #[trigger] alive_at(rows, j2, pair_at(after, s).key)
                                && s <= shift(pair_at(after, s).key, rows.len() as int, ratio)
                                + j2 by {
                            if s == place {
                                assert(alive_at(rows, j, pair_at(after, s).key));
                            } else {
                                assert(holds_pair(larger[s]));
                                let j2 = choose|j2: int|
                                    0 <= j2 < j && #[trigger] alive_at(
                                        rows,
                                        j2,
                                        pair_at(larger, s).key,
                                    ) && s <= shift(pair_at(larger, s).key, rows.len() as int, ratio)
                                        + j2;
                                assert(alive_at(rows, j2, pair_at(after, s).key));
                            }
                        }
                        assert forall|k: usize| #[trigger]
                            self@.contains_key(k) <==> exists|j2: int|
                                0 <= j2 < j + 1 && alive_at(rows, j2, k) by {
                            if k == key {
                                assert(alive_at(rows, j, k));
                            } else {
                                assert(held.contains_key(k) <==> exists|j2: int|
                                    0 <= j2 < j && alive_at(rows, j2, k));
                                if exists|j2: int| 0 <= j2 < j + 1 && alive_at(rows, j2, k) {
                                    let j2 = choose|j2: int| 0 <= j2 < j + 1 && alive_at(rows, j2, k);
                                    assert(j2 != j);
                                }
                            }
                        }
                        assert forall|k: usize| #[trigger] self@.contains_key(k) implies self@[k]
                            == slots_map(rows)[k] by {
                            if k != key {
                                assert(held.contains_key(k));
                            }
                        }
                    }
                },
                _ => {
                    proof {
                        assert(!holds_pair(rows[j]));
                        assert forall|k: usize| #[trigger]
                            self@.contains_key(k) <==> exists|j2: int|
                                0 <= j2 < j + 1 && alive_at(rows, j2, k) by {
                            if exists|j2: int| 0 <= j2 < j + 1 && alive_at(rows, j2, k) {
                                let j2 = choose|j2: int| 0 <= j2 < j + 1 && alive_at(rows, j2, k);
                                assert(j2 != j);
                            }
                        }
                        assert forall|s: int|
                            0 <= s < larger.len() && holds_pair(
                                #[trigger] larger[s],
                            ) implies exists|j2: int|
                            0 <= j2 < j + 1 && #[trigger] alive_at(rows, j2, pair_at(larger, s).key)
                                && s <= shift(pair_at(larger, s).key, rows.len() as int, ratio)
                                + j2 by {
                            let j2 = choose|j2: int|
                                0 <= j2 < j && #[trigger] alive_at(rows, j2, pair_at(larger, s).key)
                                    && s <= shift(pair_at(larger, s).key, rows.len() as int, ratio)
                                    + j2;
                            assert(0 <= j2 < j + 1);
                        }
                    }
                },
            }
        }
        proof {
            let wanted = slots_map(rows);
            assert forall|k: usize|
                #![trigger self@.dom().contains(k)]
                self@.dom().contains(k) == wanted.dom().contains(k) && (self@.dom().contains(k)
                    ==> self@[k] == wanted[k]) by {
                lemma_slots_map(rows, k);
                assert(self@.contains_key(k) <==> exists|j: int|
                    0 <= j < rows.len() && alive_at(rows, j, k));
                if self@.contains_key(k) {
                    assert(self@[k] == wanted[k]);
                }
            }
            assert(self@ =~= wanted);
        }
    }

    /// The pairs of the table, in the order of the buckets.
    pub fn entry_set(&self) -> (result: Vec<&Pair<V>>)
        ensures
            result@.len() == alive_pairs(self.slots(), self.slots().len()).len(),
            forall|i: int|
                0 <= i < result@.len() ==> *#[trigger] result@[i] == alive_pairs(
                    self.slots(),
                    self.slots().len(),
                )[i],
    {
        let mut result: Vec<&Pair<V>> = Vec::new();
        let mut b: usize = 0;
        while b < self.buckets.len()
            invariant
                b <= self.buckets@.len(),
                result@.len() == alive_pairs(self.buckets@, b as nat).len(),
                forall|i: int|
                    0 <= i < result@.len() ==> *#[trigger] result@[i] == alive_pairs(
                        self.buckets@,
                        b as nat,
                    )[i],
            decreases self.buckets@.len() - b,
        {
            if let Some(TombstoneOrAlive::Alive(p)) = &self.buckets[b] {
                result.push(p);
            }
            b += 1;
        }
        result
    }

    /// The keys of the table, in the order of the buckets.
    pub fn key_set(&self) -> (result: Vec<usize>)
        ensures
            result@ == alive_pairs(self.slots(), self.slots().len()).map_values(
                |pair: Pair<V>| pair.key,
            ),
    {
        let entries = self.entry_set();
        let ghost pairs = alive_pairs(self.slots(), self.slots().len());
        let mut result: Vec<usize> = Vec::new();
        let mut i: usize = 0;
        while i < entries.len()
            invariant
                i <= entries@.len(),
                entries@.len() == pairs.len(),
                forall|k: int| 0 <= k < entries@.len() ==> *#[trigger] entries@[k] == pairs[k],
                result@.len() == i,
                forall|k: int| 0 <= k < i ==> #[trigger] result@[k] == pairs[k].key,
            decreases entries@.len() - i,
        {
            result.push(entries[i].key);
            i += 1;
        }
        assert(result@ =~= pairs.map_values(|pair: Pair<V>| pair.key));
        result
    }

    /// The values of the table, in the order of the buckets.
    pub fn value_set(&self) -> (result: Vec<&V>)
        ensures
            result@.len() == alive_pairs(self.slots(), self.slots().len()).len(),
            forall|i: int|
                0 <= i < result@.len() ==> *#[trigger] result@[i] == alive_pairs(
                    self.slots(),
                    self.slots().len(),
                )[i].val,
    {
        let entries = self.entry_set();
        let ghost pairs = alive_pairs(self.slots(), self.slots().len());
        let mut result: Vec<&V> = Vec::new();
        let mut i: usize = 0;
        while i < entries.len()
            invariant
                i <= entries@.len(),
                entries@.len() == pairs.len(),
                forall|k: int| 0 <= k < entries@.len() ==> *#[trigger] entries@[k] == pairs[k],
                result@.len() == i,
                forall|k: int| 0 <= k < i ==> *#[trigger] result@[k] == pairs[k].val,
            decreases entries@.len() - i,
        {
            result.push(&entries[i].val);
            i += 1;
        }
        result
    }
}

} // verus!
