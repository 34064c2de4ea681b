use crate::direction::Direction;
use crate::order::Order;
use std::collections::VecDeque;
use vstd::prelude::*;

verus! {

/// The mathematical value of one rung of a ladder: the order's key as a
/// character sequence together with the order itself.
pub type Entry = (Seq<char>, Order);

/// Price priority for one side of the book: on the ask side a lower price
/// is at least as good, on the bid side a higher one.
pub open spec fn price_leq(dir: Direction, p1: u64, p2: u64) -> bool {
    match dir {
        Direction::Ask => p1 <= p2,
        Direction::Bid => p1 >= p2,
    }
}

/// A ladder is sorted when every earlier rung has at-least-as-good a price.
pub open spec fn sorted_by_price(dir: Direction, v: Seq<Entry>) -> bool {
    forall|j1: int, j2: int|
        0 <= j1 <= j2 < v.len() ==> price_leq(dir, v[j1].1.price, v[j2].1.price)
}

/// No two rungs carry the same key.
pub open spec fn distinct_keys(v: Seq<Entry>) -> bool {
    forall|j1: int, j2: int| 0 <= j1 < j2 < v.len() ==> v[j1].0 != v[j2].0
}

/// Every resting order has positive volume.
pub open spec fn positive_volumes(v: Seq<Entry>) -> bool {
    forall|j: int| 0 <= j < v.len() ==> v[j].1.volume > 0
}

/// The order resting under `k`, scanning from the head of the ladder.
pub open spec fn lookup(v: Seq<Entry>, k: Seq<char>) -> Option<Order>
    decreases v.len(),
{
    if v.len() == 0 {
        None
    } else if v[0].0 == k {
        Some(v[0].1)
    } else {
        lookup(v.drop_first(), k)
    }
}

/// Whether some order rests under `k`.
pub open spec fn contains_key(v: Seq<Entry>, k: Seq<char>) -> bool {
    lookup(v, k) is Some
}

/// The rank of the first rung carrying `k` (meaningful only when present).
pub open spec fn key_index(v: Seq<Entry>, k: Seq<char>) -> int
    decreases v.len(),
{
    if v.len() == 0 {
        0
    } else if v[0].0 == k {
        0
    } else {
        1 + key_index(v.drop_first(), k)
    }
}

/// The ladder after a cancel: unchanged when `k` is absent, else with the
/// rung carrying `k` taken out.
pub open spec fn remove_key(v: Seq<Entry>, k: Seq<char>) -> Seq<Entry> {
    if contains_key(v, k) {
        v.remove(key_index(v, k))
    } else {
        v
    }
}

/// `lookup`, `key_index` and position-wise membership agree.
pub proof fn lemma_lookup(v: Seq<Entry>, k: Seq<char>)
    ensures
        contains_key(v, k) <==> (exists|j: int| 0 <= j < v.len() && v[j].0 == k),
        contains_key(v, k) ==> 0 <= key_index(v, k) < v.len() && v[key_index(v, k)].0 == k
            && lookup(v, k) == Some(v[key_index(v, k)].1),
        forall|j: int| 0 <= j < key_index(v, k) && contains_key(v, k) ==> v[j].0 != k,
    decreases v.len(),
{
    if v.len() == 0 {
    } else if v[0].0 == k {
    } else {
        lemma_lookup(v.drop_first(), k);
        assert forall|j: int| 0 <= j < v.len() && v[j].0 == k implies contains_key(v, k) by {
            assert(v.drop_first()[j - 1] == v[j]);
        }
        assert forall|j: int| 0 <= j < key_index(v, k) && contains_key(v, k) implies v[j].0
            != k by {
            if j > 0 {
                assert(v.drop_first()[j - 1] == v[j]);
            }
        }
    }
}

/// Under distinct keys, the rung found by `lookup` is the one at any
/// matching rank.
pub proof fn lemma_lookup_at(v: Seq<Entry>, k: Seq<char>, j: int)
    requires
        distinct_keys(v),
        0 <= j < v.len(),
        v[j].0 == k,
    ensures
        key_index(v, k) == j,
        lookup(v, k) == Some(v[j].1),
{
    lemma_lookup(v, k);
    let j0 = key_index(v, k);
    if j0 != j {
        assert(v[j0].0 == v[j].0);
    }
}

/// A ladder none of whose rungs carries `k` does not contain `k`.
pub proof fn lemma_lookup_absent(v: Seq<Entry>, k: Seq<char>)
    requires
        forall|j: int| 0 <= j < v.len() ==> v[j].0 != k,
    ensures
        !contains_key(v, k),
{
    lemma_lookup(v, k);
}

/// Two ladders whose rungs carry the same keys rank for rank contain the
/// same keys.
pub proof fn lemma_same_keys_same_contains(v1: Seq<Entry>, v2: Seq<Entry>)
    requires
        v1.len() == v2.len(),
        forall|j: int| 0 <= j < v1.len() ==> v1[j].0 == v2[j].0,
    ensures
        forall|k: Seq<char>| #[trigger] contains_key(v1, k) ==> contains_key(v2, k),
        forall|k: Seq<char>| #[trigger] contains_key(v2, k) ==> contains_key(v1, k),
{
    assert forall|k: Seq<char>| #[trigger] contains_key(v1, k) implies contains_key(v2, k) by {
        lemma_lookup(v1, k);
        lemma_lookup(v2, k);
        let j = choose|j: int| 0 <= j < v1.len() && v1[j].0 == k;
        assert(v2[j].0 == k);
    }
    assert forall|k: Seq<char>| #[trigger] contains_key(v2, k) implies contains_key(v1, k) by {
        lemma_lookup(v1, k);
        lemma_lookup(v2, k);
        let j = choose|j: int| 0 <= j < v2.len() && v2[j].0 == k;
        assert(v1[j].0 == k);
    }
}

/// One side of the order book: a keyed ladder of resting orders held in
/// strict price-time priority.
///
/// Storage couples three indices: a slab of slots holding the order
/// payloads (freed slots are reused from a LIFO free list), an association
/// list from key to slot, and a deque of occupied slot ids sorted by price
/// priority.  Slot ids never cross the public surface.
pub struct Side {
    /// Which direction this ladder holds; fixed at construction.
    pub direction: Direction,
    by_key: Vec<(String, usize)>,
    slots: Vec<Option<(String, Order)>>,
    sorting: VecDeque<usize>,
    free_slots: Vec<usize>,
}

impl View for Side {
    type V = Seq<Entry>;

    /// The ladder as seen from the head: key and order of each rung in
    /// priority order.
    closed spec fn view(&self) -> Seq<Entry> {
        Seq::new(
            self.sorting@.len(),
            |j: int|
                (
                    self.slots@[self.sorting@[j] as int].unwrap().0@,
                    self.slots@[self.sorting@[j] as int].unwrap().1,
                ),
        )
    }
}

impl Side {
    /// Which direction this ladder holds, for use in contracts.
    pub closed spec fn dir(&self) -> Direction {
        self.direction
    }

    /// Slot `id` exists and holds a resting order.
    pub closed spec fn slot_occupied(&self, id: int) -> bool {
        0 <= id < self.slots@.len() && self.slots@[id] is Some
    }

    /// How many slots the slab has allocated, occupied or free.
    pub closed spec fn slab_size(&self) -> nat {
        self.slots@.len()
    }

    /// How many slab slots are free for reuse.
    pub closed spec fn free_count(&self) -> nat {
        self.free_slots@.len()
    }

    /// The internal invariant of a side.  It ties the three indices
    /// together: `sorting` lists exactly the occupied slots, each exactly
    /// once, in price order with positive volumes; `by_key` maps each
    /// distinct key to exactly one occupied slot whose stored key matches;
    /// `free_slots` lists exactly the unoccupied slots.
    pub closed spec fn wf(&self) -> bool {
        &&& forall|j: int|
            0 <= j < self.sorting@.len() ==> self.slot_occupied(#[trigger] self.sorting@[j] as int)
        &&& forall|j1: int, j2: int|
            0 <= j1 < j2 < self.sorting@.len() ==> self.sorting@[j1] != self.sorting@[j2]
        &&& forall|i: int|
            0 <= i < self.slots@.len() && (#[trigger] self.slots@[i]) is Some ==> exists|j: int|
                0 <= j < self.sorting@.len() && #[trigger] self.sorting@[j] == i
        &&& forall|e: int|
            0 <= e < self.by_key@.len() ==> self.slot_occupied(#[trigger] self.by_key@[e].1 as int)
                && self.by_key@[e].0@ == self.slots@[self.by_key@[e].1 as int].unwrap().0@
        &&& forall|e1: int, e2: int|
            0 <= e1 < e2 < self.by_key@.len() ==> self.by_key@[e1].1 != self.by_key@[e2].1
        &&& forall|e1: int, e2: int|
            0 <= e1 < e2 < self.by_key@.len() ==> self.by_key@[e1].0@ != self.by_key@[e2].0@
        &&& forall|i: int|
            0 <= i < self.slots@.len() && (#[trigger] self.slots@[i]) is Some ==> exists|e: int|
                0 <= e < self.by_key@.len() && #[trigger] self.by_key@[e].1 == i
        &&& forall|f: int|
            0 <= f < self.free_slots@.len() ==> #[trigger] self.free_slots@[f] < self.slots@.len()
                && self.slots@[self.free_slots@[f] as int] is None
        &&& forall|f1: int, f2: int|
            0 <= f1 < f2 < self.free_slots@.len() ==> self.free_slots@[f1]
                != self.free_slots@[f2]
        &&& forall|i: int|
            0 <= i < self.slots@.len() && (#[trigger] self.slots@[i]) is None ==> exists|f: int|
                0 <= f < self.free_slots@.len() && #[trigger] self.free_slots@[f] == i
        &&& self.sorting@.len() + self.free_slots@.len() == self.slots@.len()
        &&& sorted_by_price(self.direction, self@)
        &&& positive_volumes(self@)
    }

    /// A well-formed side is sorted, has positive volumes, and carries
    /// each key on at most one rung.
    pub proof fn lemma_wf_view(&self)
        requires
            self.wf(),
        ensures
            sorted_by_price(self.dir(), self@),
            positive_volumes(self@),
            distinct_keys(self@),
    {
        assert forall|j1: int, j2: int| 0 <= j1 < j2 < self@.len() implies self@[j1].0
            != self@[j2].0 by {
            let i1 = self.sorting@[j1] as int;
            let i2 = self.sorting@[j2] as int;
            assert(i1 != i2);
            let e1 = choose|e: int|
                0 <= e < self.by_key@.len() && #[trigger] self.by_key@[e].1 == i1;
            let e2 = choose|e: int|
                0 <= e < self.by_key@.len() && #[trigger] self.by_key@[e].1 == i2;
            assert(e1 != e2);
            assert(self.by_key@[e1].0@ != self.by_key@[e2].0@);
        }
    }

    /// The slab never leaks: every slot is either resting or free.
    pub proof fn lemma_slot_accounting(&self)
        requires
            self.wf(),
        ensures
            self.slab_size() == self@.len() + self.free_count(),
    {
    }

    /// An empty ladder for the given direction.
    pub fn new(dir: Direction) -> (s: Side)
        ensures
            s.wf(),
            s.dir() == dir,
            s@ == Seq::<Entry>::empty(),
            s.slab_size() == 0,
            s.free_count() == 0,
    {
        let s = Side {
            direction: dir,
            by_key: Vec::new(),
            slots: Vec::new(),
            sorting: VecDeque::new(),
            free_slots: Vec::new(),
        };
        proof {
            assert(s@ =~= Seq::<Entry>::empty());
        }
        s
    }

    /// How many orders rest on this side.
    pub fn len(&self) -> (r: usize)
        ensures
            r == self@.len(),
    {
        self.sorting.len()
    }

    /// Whether no order rests on this side.
    pub fn is_empty(&self) -> (r: bool)
        ensures
            r == (self@.len() == 0),
    {
        self.sorting.len() == 0
    }

    /// The order resting under `key`, if any.
    pub fn get_order(&self, key: &String) -> (r: Option<Order>)
        requires
            self.wf(),
        ensures
            r == lookup(self@, key@),
    {
        let mut e: usize = 0;
        while e < self.by_key.len()
            invariant
                self.wf(),
                e <= self.by_key@.len(),
                forall|e2: int| 0 <= e2 < e ==> self.by_key@[e2].0@ != key@,
            decreases self.by_key@.len() - e,
        {
            if self.by_key[e].0 == *key {
                let id = self.by_key[e].1;
                let p = self.slots[id].as_ref().unwrap();
                proof {
                    let j = choose|j: int|
                        0 <= j < self.sorting@.len() && #[trigger] self.sorting@[j] == id;
                    self.lemma_wf_view();
                    assert(self@[j].0 == key@);
                    lemma_lookup_at(self@, key@, j);
                }
                return Some(p.1);
            }
            e += 1;
        }
        proof {
            assert forall|j: int| 0 <= j < self@.len() implies self@[j].0 != key@ by {
                let id = self.sorting@[j] as int;
                let e2 = choose|e2: int|
                    0 <= e2 < self.by_key@.len() && #[trigger] self.by_key@[e2].1 == id;
                assert(self.by_key@[e2].0@ == self@[j].0);
            }
            lemma_lookup_absent(self@, key@);
        }
        None
    }

    /// The rank at which an order with this price must be inserted: the
    /// first rank whose price is strictly worse, so that among equal
    /// prices the new order trails every resting one.
    fn find_index_for_order(&self, order: Order) -> (r: usize)
        requires
            self.wf(),
        ensures
            r <= self@.len(),
            forall|j: int|
                0 <= j < r ==> price_leq(self.dir(), self@[j].1.price, order.price),
            forall|j: int|
                r <= j < self@.len() ==> !price_leq(self.dir(), self@[j].1.price, order.price),
    {
        proof {
            assert forall|j1: int, j2: int| 0 <= j1 <= j2 < self.sorting@.len() implies price_leq(
                self.direction,
                ladder_prices(self.slots@, self.sorting@)[j1],
                ladder_prices(self.slots@, self.sorting@)[j2],
            ) by {
                assert(ladder_prices(self.slots@, self.sorting@)[j1] == self@[j1].1.price);
                assert(ladder_prices(self.slots@, self.sorting@)[j2] == self@[j2].1.price);
            }
        }
        let r = deque_binary_search_by(&self.sorting, &self.slots, self.direction, order.price);
        proof {
            assert forall|j: int| 0 <= j < r implies price_leq(
                self.dir(),
                self@[j].1.price,
                order.price,
            ) by {
                assert(ladder_prices(self.slots@, self.sorting@)[j] == self@[j].1.price);
            }
            assert forall|j: int| r <= j < self@.len() implies !price_leq(
                self.dir(),
                self@[j].1.price,
                order.price,
            ) by {
                assert(ladder_prices(self.slots@, self.sorting@)[j] == self@[j].1.price);
            }
        }
        r
    }

    /// Rest a new order on this side under `key`, which must not already
    /// be resting here.  Returns the rank the order was inserted at
    /// (0 = head).  A freed slab slot is reused when one exists; the slab
    /// grows only when none does.
    pub fn insert(&mut self, key: String, order: Order) -> (r: usize)
        requires
            old(self).wf(),
            order.volume > 0,
            !contains_key(old(self)@, key@),
        ensures
            final(self).wf(),
            final(self).dir() == old(self).dir(),
            r <= old(self)@.len(),
            final(self)@ == old(self)@.insert(r as int, (key@, order)),
            forall|j: int|
                0 <= j < r ==> price_leq(old(self).dir(), old(self)@[j].1.price, order.price),
            forall|j: int|
                r <= j < old(self)@.len() ==> !price_leq(
                    old(self).dir(),
                    old(self)@[j].1.price,
                    order.price,
                ),
            final(self).slab_size() == (if old(self).free_count() == 0 {
                old(self).slab_size() + 1
            } else {
                old(self).slab_size()
            }),
            final(self).free_count() == (if old(self).free_count() == 0 {
                0nat
            } else {
                (old(self).free_count() - 1) as nat
            }),
    {
        let sorting_index = self.find_index_for_order(order);
        let ghost prev = *self;
        let id: usize = match self.free_slots.pop() {
            Some(i) => {
                self.slots[i] = Some((key.clone(), order));
                i
            },
            None => {
                self.slots.push(Some((key.clone(), order)));
                self.slots.len() - 1
            },
        };
        proof {
            // the reused or fresh slot is not referenced anywhere else
            assert forall|j: int| 0 <= j < prev.sorting@.len() implies prev.sorting@[j]
                != id by {
                assert(prev.slot_occupied(prev.sorting@[j] as int));
            }
            assert forall|e: int| 0 <= e < prev.by_key@.len() implies prev.by_key@[e].1
                != id by {
                assert(prev.slot_occupied(prev.by_key@[e].1 as int));
            }
        }
        self.sorting.insert(sorting_index, id);
        self.by_key.push((key, id));
        proof {
            self.lemma_insert_restores(prev, sorting_index as int, id);
        }
        sorting_index
    }

    /// The bookkeeping facts behind `insert`: after placing a fresh
    /// occupied slot `id` at rank `r`, the side is well-formed again and
    /// its ladder is the old one with the new rung inserted at `r`.
    proof fn lemma_insert_restores(&self, prev: Side, r: int, id: usize)
        requires
            prev.wf(),
            0 <= r <= prev.sorting@.len(),
            id < self.slots@.len(),
            self.direction == prev.direction,
            self.sorting@ == prev.sorting@.insert(r, id),
            self.by_key@ == prev.by_key@.push(
                (self.slots@[id as int].unwrap().0, id),
            ),
            self.slots@[id as int] is Some,
            self.slots@[id as int].unwrap().1.volume > 0,
            forall|j: int| 0 <= j < prev.sorting@.len() ==> prev.sorting@[j] != id,
            forall|e: int| 0 <= e < prev.by_key@.len() ==> prev.by_key@[e].1 != id,
            forall|i: int|
                0 <= i < prev.slots@.len() && i != id ==> self.slots@[i] == prev.slots@[i],
            prev.slots@.len() <= self.slots@.len() <= prev.slots@.len() + 1,
            self.slots@.len() == prev.slots@.len() + 1 ==> id == prev.slots@.len(),
            self.slots@.len() == prev.slots@.len() ==> prev.free_slots@.len() > 0
                && prev.free_slots@[prev.free_slots@.len() - 1] == id && self.free_slots@
                == prev.free_slots@.drop_last(),
            self.slots@.len() == prev.slots@.len() + 1 ==> prev.free_slots@.len() == 0
                && self.free_slots@ == prev.free_slots@,
            !contains_key(prev@, self.slots@[id as int].unwrap().0@),
            forall|j: int|
                0 <= j < r ==> price_leq(
                    prev.direction,
                    prev@[j].1.price,
                    self.slots@[id as int].unwrap().1.price,
                ),
            forall|j: int|
                r <= j < prev@.len() ==> !price_leq(
                    prev.direction,
                    prev@[j].1.price,
                    self.slots@[id as int].unwrap().1.price,
                ),
        ensures
            self.wf(),
            self@ == prev@.insert(r, (self.slots@[id as int].unwrap().0@, self.slots@[id as int].unwrap().1)),
    {
        let key = self.slots@[id as int].unwrap().0@;
        let order = self.slots@[id as int].unwrap().1;
        let entry = (key, order);
        lemma_lookup(prev@, key);

        // the new ladder is the old one with the new rung at r
        assert forall|j: int| 0 <= j < self.sorting@.len() implies self@[j] == prev@.insert(
            r,
            entry,
        )[j] by {
            if j < r {
                assert(self.sorting@[j] == prev.sorting@[j]);
            } else if j == r {
                assert(self.sorting@[j] == id);
            } else {
                assert(self.sorting@[j] == prev.sorting@[j - 1]);
            }
        }
        assert(self@ =~= prev@.insert(r, entry));

        // every occupied slot is listed in sorting
        assert forall|i: int|
            0 <= i < self.slots@.len() && (#[trigger] self.slots@[i]) is Some implies exists|j: int|
            0 <= j < self.sorting@.len() && #[trigger] self.sorting@[j] == i by {
            if i == id {
                assert(self.sorting@[r] == id);
            } else {
                assert(prev.slots@[i] is Some);
                let j = choose|j: int|
                    0 <= j < prev.sorting@.len() && #[trigger] prev.sorting@[j] == i;
                if j < r {
                    assert(self.sorting@[j] == i);
                } else {
                    assert(self.sorting@[j + 1] == i);
                }
            }
        }

        // every occupied slot is listed in by_key
        assert forall|i: int|
            0 <= i < self.slots@.len() && (#[trigger] self.slots@[i]) is Some implies exists|e: int|
            0 <= e < self.by_key@.len() && #[trigger] self.by_key@[e].1 == i by {
            if i == id {
                assert(self.by_key@[self.by_key@.len() - 1].1 == i);
            } else {
                assert(prev.slots@[i] is Some);
                let e = choose|e: int|
                    0 <= e < prev.by_key@.len() && #[trigger] prev.by_key@[e].1 == i;
                assert(self.by_key@[e].1 == i);
            }
        }

        // the new key differs from every resting key
        assert forall|e: int| 0 <= e < prev.by_key@.len() implies prev.by_key@[e].0@ != key by {
            let i = prev.by_key@[e].1 as int;
            assert(prev.slot_occupied(i));
            let j = choose|j: int| 0 <= j < prev.sorting@.len() && #[trigger] prev.sorting@[j] == i;
            assert(prev@[j].0 == prev.by_key@[e].0@);
        }

        // every freed slot is still free and listed
        assert forall|i: int|
            0 <= i < self.slots@.len() && (#[trigger] self.slots@[i]) is None implies exists|f: int|
            0 <= f < self.free_slots@.len() && #[trigger] self.free_slots@[f] == i by {
            assert(prev.slots@[i] is None);
            let f = choose|f: int|
                0 <= f < prev.free_slots@.len() && #[trigger] prev.free_slots@[f] == i;
            assert(f < prev.free_slots@.len() - 1 || prev.free_slots@[f] == id);
            assert(self.free_slots@[f] == i);
        }

        // price order is preserved around the new rung
        assert forall|j1: int, j2: int| 0 <= j1 <= j2 < self@.len() implies price_leq(
            self.direction,
            self@[j1].1.price,
            self@[j2].1.price,
        ) by {
            let v = prev@.insert(r, entry);
            if j1 == j2 {
            } else if j2 < r {
                assert(v[j1] == prev@[j1] && v[j2] == prev@[j2]);
            } else if j1 > r {
                assert(v[j1] == prev@[j1 - 1] && v[j2] == prev@[j2 - 1]);
            } else if j1 == r && j2 > r {
                assert(v[j2] == prev@[j2 - 1]);
                assert(!price_leq(prev.direction, prev@[j2 - 1].1.price, order.price));
            } else if j2 == r && j1 < r {
                assert(v[j1] == prev@[j1]);
            } else {
                assert(j1 < r && j2 > r);
                assert(v[j1] == prev@[j1] && v[j2] == prev@[j2 - 1]);
                assert(!price_leq(prev.direction, prev@[j2 - 1].1.price, order.price));
            }
        }
    }

    /// Cancel the order resting under `key`: its rung leaves the ladder,
    /// its slab slot is freed for reuse, and both key maps forget it.
    /// A no-op when `key` is not resting here.
    pub fn remove(&mut self, key: &String)
        requires
            old(self).wf(),
        ensures
            final(self).wf(),
            final(self).dir() == old(self).dir(),
            final(self)@ == remove_key(old(self)@, key@),
            final(self).slab_size() == old(self).slab_size(),
            final(self).free_count() == old(self).free_count() + (if contains_key(
                old(self)@,
                key@,
            ) {
                1nat
            } else {
                0nat
            }),
    {
        let ghost prev = *old(self);
        let mut e: usize = 0;
        let n = self.by_key.len();
        while e < n
            invariant
                *self == prev,
                prev == *old(self),
                prev.wf(),
                n == self.by_key@.len(),
                e <= n,
                forall|e2: int| 0 <= e2 < e ==> self.by_key@[e2].0@ != key@,
            decreases n - e,
        {
            if self.by_key[e].0 == *key {
                let id = self.by_key[e].1;
                proof {
                    assert(self.slot_occupied(id as int));
                }
                let ghost jj = choose|j: int|
                    0 <= j < self.sorting@.len() && #[trigger] self.sorting@[j] == id;
                let mut pos: usize = 0;
                let slen = self.sorting.len();
                loop
                    invariant_except_break
                        *self == prev,
                        prev == *old(self),
                        prev.wf(),
                        slen == self.sorting@.len(),
                        0 <= jj < slen,
                        self.sorting@[jj] == id,
                        pos <= jj,
                    ensures
                        *self == prev,
                        prev == *old(self),
                        0 <= pos < self.sorting@.len(),
                        self.sorting@[pos as int] == id,
                    decreases jj - pos,
                {
                    if self.sorting[pos] == id {
                        break ;
                    }
                    proof {
                        assert(pos < jj);
                    }
                    pos += 1;
                }
                proof {
                    self.lemma_wf_view();
                    assert(self@[pos as int].0 == key@);
                    lemma_lookup_at(self@, key@, pos as int);
                }
                self.by_key.remove(e);
                let _removed = self.sorting.remove(pos);
                self.slots[id] = None;
                self.free_slots.push(id);
                proof {
                    self.lemma_remove_restores(prev, e as int, pos as int, id);
                }
                return ;
            }
            e += 1;
        }
        proof {
            assert forall|j: int| 0 <= j < self@.len() implies self@[j].0 != key@ by {
                let id = self.sorting@[j] as int;
                let e2 = choose|e2: int|
                    0 <= e2 < self.by_key@.len() && #[trigger] self.by_key@[e2].1 == id;
                assert(self.by_key@[e2].0@ == self@[j].0);
            }
            lemma_lookup_absent(self@, key@);
        }
    }

    /// The bookkeeping facts behind `remove`: after taking rung `pos`
    /// (slot `id`, key map entry `e`) out of every index and freeing the
    /// slot, the side is well-formed again and its ladder is the old one
    /// without that rung.
    proof fn lemma_remove_restores(&self, prev: Side, e: int, pos: int, id: usize)
        requires
            prev.wf(),
            0 <= e < prev.by_key@.len(),
            0 <= pos < prev.sorting@.len(),
            prev.sorting@[pos] == id,
            prev.by_key@[e].1 == id,
            self.direction == prev.direction,
            self.by_key@ == prev.by_key@.remove(e),
            self.sorting@ == prev.sorting@.remove(pos),
            self.slots@ == prev.slots@.update(id as int, None::<(String, Order)>),
            self.free_slots@ == prev.free_slots@.push(id),
        ensures
            self.wf(),
            self@ == prev@.remove(pos),
    {
        assert forall|j: int| 0 <= j < self.sorting@.len() implies self@[j] == prev@.remove(
            pos,
        )[j] && self.sorting@[j] != id by {
            if j < pos {
                assert(self.sorting@[j] == prev.sorting@[j]);
            } else {
                assert(self.sorting@[j] == prev.sorting@[j + 1]);
            }
        }
        assert(self@ =~= prev@.remove(pos));

        assert forall|e2: int| 0 <= e2 < self.by_key@.len() implies self.by_key@[e2]
            == prev.by_key@[if e2 < e {
            e2
        } else {
            e2 + 1
        }] && self.by_key@[e2].1 != id by {}

        // every still-occupied slot keeps a rung and a key map entry
        assert forall|i: int|
            0 <= i < self.slots@.len() && (#[trigger] self.slots@[i]) is Some implies (exists|j: int|
            0 <= j < self.sorting@.len() && #[trigger] self.sorting@[j] == i) && (exists|e2: int|
            0 <= e2 < self.by_key@.len() && #[trigger] self.by_key@[e2].1 == i) by {
            assert(i != id);
            assert(prev.slots@[i] is Some);
            let j = choose|j: int| 0 <= j < prev.sorting@.len() && #[trigger] prev.sorting@[j] == i;
            assert(j != pos);
            if j < pos {
                assert(self.sorting@[j] == i);
            } else {
                assert(self.sorting@[j - 1] == i);
            }
            let e2 = choose|e2: int|
                0 <= e2 < prev.by_key@.len() && #[trigger] prev.by_key@[e2].1 == i;
            assert(e2 != e);
            if e2 < e {
                assert(self.by_key@[e2].1 == i);
            } else {
                assert(self.by_key@[e2 - 1].1 == i);
            }
        }

        // every unoccupied slot is listed as free
        assert forall|i: int|
            0 <= i < self.slots@.len() && (#[trigger] self.slots@[i]) is None implies exists|f: int|
            0 <= f < self.free_slots@.len() && #[trigger] self.free_slots@[f] == i by {
            if i == id {
                assert(self.free_slots@[self.free_slots@.len() - 1] == i);
            } else {
                assert(prev.slots@[i] is None);
                let f = choose|f: int|
                    0 <= f < prev.free_slots@.len() && #[trigger] prev.free_slots@[f] == i;
                assert(self.free_slots@[f] == i);
            }
        }

        // the freed slot was occupied, so it is new to the free list
        assert forall|f: int| 0 <= f < prev.free_slots@.len() implies prev.free_slots@[f]
            != id by {
            assert(prev.slots@[prev.free_slots@[f] as int] is None);
        }

        // the shorter ladder keeps its price order
        assert forall|j1: int, j2: int| 0 <= j1 <= j2 < self@.len() implies price_leq(
            self.direction,
            self@[j1].1.price,
            self@[j2].1.price,
        ) by {
            let k1 = if j1 < pos { j1 } else { j1 + 1 };
            let k2 = if j2 < pos { j2 } else { j2 + 1 };
            assert(self@[j1] == prev@[k1] && self@[j2] == prev@[k2]);
            assert(price_leq(prev.direction, prev@[k1].1.price, prev@[k2].1.price));
        }
    }

    /// Drop the best `n` orders (all of them when fewer rest).  The
    /// matcher uses this to consume fully-filled heads in one sweep.
    pub fn remove_first_n(&mut self, n: usize)
        requires
            old(self).wf(),
        ensures
            final(self).wf(),
            final(self).dir() == old(self).dir(),
            final(self)@ == old(self)@.skip(
                if n <= old(self)@.len() {
                    n as int
                } else {
                    old(self)@.len() as int
                },
            ),
            final(self).slab_size() == old(self).slab_size(),
            final(self).free_count() == old(self).free_count() + (if n <= old(self)@.len() {
                n as nat
            } else {
                old(self)@.len()
            }),
    {
        let m = if n < self.len() {
            n
        } else {
            self.len()
        };
        let mut i: usize = 0;
        while i < m
            invariant
                self.wf(),
                i <= m,
                m <= old(self)@.len(),
                m == (if n <= old(self)@.len() {
                    n as int
                } else {
                    old(self)@.len() as int
                }),
                self.dir() == old(self).dir(),
                self@ == old(self)@.skip(i as int),
                self.slab_size() == old(self).slab_size(),
                self.free_count() == old(self).free_count() + i,
            decreases m - i,
        {
            let key = self.get_key(0).clone();
            proof {
                self.lemma_wf_view();
                lemma_lookup_at(self@, key@, 0);
            }
            self.remove(&key);
            proof {
                assert(old(self)@.skip(i as int).remove(0) =~= old(self)@.skip(i + 1));
            }
            i += 1;
        }
    }

    /// Rewrite the volume of the head order in place; a no-op on an empty
    /// side.  The price and key do not move, so the ladder order is
    /// untouched: the matcher relies on this to leave a partially-filled
    /// head in the book.
    pub fn set_first_volume(&mut self, volume: u64)
        requires
            old(self).wf(),
            volume > 0,
        ensures
            final(self).wf(),
            final(self).dir() == old(self).dir(),
            final(self).slab_size() == old(self).slab_size(),
            final(self).free_count() == old(self).free_count(),
            old(self)@.len() == 0 ==> final(self)@ == old(self)@,
            old(self)@.len() > 0 ==> final(self)@ == old(self)@.update(
                0,
                (old(self)@[0].0, (Order { volume, ..old(self)@[0].1 })),
            ),
    {
        if self.sorting.len() == 0 {
            return ;
        }
        let ghost prev = *self;
        let id = self.sorting[0];
        let p = self.slots[id].as_ref().unwrap();
        let k = p.0.clone();
        let o = p.1;
        self.slots[id] = Some((k, Order { price: o.price, volume, timestamp: o.timestamp }));
        proof {
            assert forall|j: int| 0 <= j < self.sorting@.len() && j != 0 implies self.sorting@[j]
                != id by {}
            assert forall|j: int| 0 <= j < self@.len() implies self@[j] == prev@.update(
                0,
                (prev@[0].0, (Order { volume, ..prev@[0].1 })),
            )[j] by {
                if j != 0 {
                    assert(self.sorting@[j] != id);
                }
            }
            assert(self@ =~= prev@.update(0, (prev@[0].0, (Order { volume, ..prev@[0].1 }))));
            assert forall|e: int| 0 <= e < self.by_key@.len() implies self.slot_occupied(
                #[trigger] self.by_key@[e].1 as int,
            ) && self.by_key@[e].0@ == self.slots@[self.by_key@[e].1 as int].unwrap().0@ by {}
            assert forall|j1: int, j2: int| 0 <= j1 <= j2 < self@.len() implies price_leq(
                self.direction,
                self@[j1].1.price,
                self@[j2].1.price,
            ) by {
                assert(self@[j1].1.price == prev@[j1].1.price);
                assert(self@[j2].1.price == prev@[j2].1.price);
            }
        }
    }

    /// The key of the order at the given rank, counted from the head.
    pub fn get_key(&self, position: usize) -> (r: &String)
        requires
            self.wf(),
            position < self@.len(),
        ensures
            r@ == self@[position as int].0,
    {
        let id = self.sorting[position];
        let p = self.slots[id].as_ref().unwrap();
        &p.0
    }

    /// The order at the given rank, counted from the head.
    pub fn get_order_by_index(&self, index: usize) -> (r: Option<Order>)
        requires
            self.wf(),
            index < self@.len(),
        ensures
            r == Some(self@[index as int].1),
    {
        let id = self.sorting[index];
        let p = self.slots[id].as_ref().unwrap();
        Some(p.1)
    }
}

/// The price of each rung listed by `sorting`, read out of the slab.
pub open spec fn ladder_prices(slots: Seq<Option<(String, Order)>>, sorting: Seq<usize>) -> Seq<
    u64,
> {
    Seq::new(sorting.len(), |j: int| slots[sorting[j] as int].unwrap().1.price)
}

/// Upper-bound binary search over a price-sorted deque of slot ids: the
/// first rank whose price is strictly worse than `price` for `direction`,
/// so that an insertion there trails every equal-priced rung.
pub fn deque_binary_search_by(
    sorting: &VecDeque<usize>,
    slots: &Vec<Option<(String, Order)>>,
    direction: Direction,
    price: u64,
) -> (r: usize)
    requires
        forall|j: int|
            0 <= j < sorting@.len() ==> (#[trigger] sorting@[j]) < slots@.len()
                && slots@[sorting@[j] as int] is Some,
        forall|j1: int, j2: int|
            0 <= j1 <= j2 < sorting@.len() ==> price_leq(
                direction,
                ladder_prices(slots@, sorting@)[j1],
                ladder_prices(slots@, sorting@)[j2],
            ),
    ensures
        r <= sorting@.len(),
        forall|j: int|
            0 <= j < r ==> price_leq(direction, ladder_prices(slots@, sorting@)[j], price),
        forall|j: int|
            r <= j < sorting@.len() ==> !price_leq(
                direction,
                ladder_prices(slots@, sorting@)[j],
                price,
            ),
{
    let mut lo: usize = 0;
    let mut hi: usize = sorting.len();
    while lo < hi
        invariant
            lo <= hi <= sorting@.len(),
            forall|j: int|
                0 <= j < sorting@.len() ==> (#[trigger] sorting@[j]) < slots@.len()
                    && slots@[sorting@[j] as int] is Some,
            forall|j1: int, j2: int|
                0 <= j1 <= j2 < sorting@.len() ==> price_leq(
                    direction,
                    ladder_prices(slots@, sorting@)[j1],
                    ladder_prices(slots@, sorting@)[j2],
                ),
            forall|j: int|
                0 <= j < lo ==> price_leq(direction, ladder_prices(slots@, sorting@)[j], price),
            forall|j: int|
                hi <= j < sorting@.len() ==> !price_leq(
                    direction,
                    ladder_prices(slots@, sorting@)[j],
                    price,
                ),
        decreases hi - lo,
    {
        let mid = lo + (hi - lo) / 2;
        let id = sorting[mid];
        let p = slots[id].as_ref().unwrap().1.price;
        let goes_after = match direction {
            Direction::Ask => p <= price,
            Direction::Bid => p >= price,
        };
        proof {
            assert(ladder_prices(slots@, sorting@)[mid as int] == p);
            assert(goes_after == price_leq(direction, p, price));
            if goes_after {
                assert forall|j: int| 0 <= j < mid + 1 implies price_leq(
                    direction,
                    ladder_prices(slots@, sorting@)[j],
                    price,
                ) by {
                    assert(price_leq(
                        direction,
                        ladder_prices(slots@, sorting@)[j],
                        ladder_prices(slots@, sorting@)[mid as int],
                    ));
                }
            } else {
                assert forall|j: int| mid <= j < sorting@.len() implies !price_leq(
                    direction,
                    ladder_prices(slots@, sorting@)[j],
                    price,
                ) by {
                    assert(price_leq(
                        direction,
                        ladder_prices(slots@, sorting@)[mid as int],
                        ladder_prices(slots@, sorting@)[j],
                    ));
                }
            }
        }
        if goes_after {
            lo = mid + 1;
        } else {
            hi = mid;
        }
    }
    lo
}

} // verus!

