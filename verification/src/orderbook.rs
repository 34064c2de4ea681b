use crate::direction::Direction;
use crate::order::Order;
use crate::matching::apply_residual;
use crate::matching::match_sides;
use crate::matching::spec_match;
use crate::matching::trade_views;
use crate::trade::Trade;
use crate::side::contains_key;
use crate::side::key_index;
use crate::side::lemma_lookup;
use crate::side::lemma_lookup_at;
use crate::side::lemma_same_keys_same_contains;
use crate::side::lookup;
use crate::side::remove_key;
use crate::side::Entry;
use crate::side::Side;
use vstd::prelude::*;

verus! {

/// The whole book: both ladders and an index recording which side each
/// resting key is on, so that cancels and queries route without searching
/// both sides.
pub struct Orderbook {
    /// The ask ladder, best (lowest) price first.
    pub asks: Side,
    /// The bid ladder, best (highest) price first.
    pub bids: Side,
    /// Which side each resting key is on, one entry per resting order.
    pub order_side: Vec<(String, Direction)>,
}

impl Orderbook {
    /// The internal invariant of the book: both sides are well-formed and
    /// carry their own direction, and `order_side` lists exactly the keys
    /// resting in the book, each once, each on the side it names and on
    /// no other.
    pub open spec fn wf(&self) -> bool {
        &&& self.asks.wf()
        &&& self.bids.wf()
        &&& self.asks.dir() == Direction::Ask
        &&& self.bids.dir() == Direction::Bid
        &&& forall|e1: int, e2: int|
            0 <= e1 < e2 < self.order_side@.len() ==> (#[trigger] self.order_side@[e1]).0@ != (
            #[trigger] self.order_side@[e2]).0@
        &&& forall|e: int|
            0 <= e < self.order_side@.len() ==> ((#[trigger] self.order_side@[e]).1
                == Direction::Ask ==> contains_key(self.asks@, self.order_side@[e].0@)
                && !contains_key(self.bids@, self.order_side@[e].0@)) && (self.order_side@[e].1
                == Direction::Bid ==> contains_key(self.bids@, self.order_side@[e].0@)
                && !contains_key(self.asks@, self.order_side@[e].0@))
        &&& forall|k: Seq<char>|
            #[trigger] contains_key(self.asks@, k) ==> exists|e: int|
                0 <= e < self.order_side@.len() && (#[trigger] self.order_side@[e]).0@ == k
                    && self.order_side@[e].1 == Direction::Ask
        &&& forall|k: Seq<char>|
            #[trigger] contains_key(self.bids@, k) ==> exists|e: int|
                0 <= e < self.order_side@.len() && (#[trigger] self.order_side@[e]).0@ == k
                    && self.order_side@[e].1 == Direction::Bid
    }

    /// What a query for `k` must answer: the side and order resting under
    /// `k`, or nothing.
    pub open spec fn book_get(self, k: Seq<char>) -> Option<(Direction, Order)> {
        if contains_key(self.asks@, k) {
            Some((Direction::Ask, lookup(self.asks@, k).unwrap()))
        } else if contains_key(self.bids@, k) {
            Some((Direction::Bid, lookup(self.bids@, k).unwrap()))
        } else {
            None
        }
    }

    /// A key rests somewhere in the book.
    pub open spec fn book_contains(self, k: Seq<char>) -> bool {
        contains_key(self.asks@, k) || contains_key(self.bids@, k)
    }

    /// An empty book.
    pub fn new() -> (r: Orderbook)
        ensures
            r.wf(),
            r.asks@ == Seq::<Entry>::empty(),
            r.bids@ == Seq::<Entry>::empty(),
    {
        Orderbook {
            asks: Side::new(Direction::Ask),
            bids: Side::new(Direction::Bid),
            order_side: Vec::new(),
        }
    }

    /// The side and order resting under `key`, if any.
    pub fn get_order(&self, key: &String) -> (r: Option<(Direction, Order)>)
        requires
            self.wf(),
        ensures
            r == self.book_get(key@),
    {
        let mut e: usize = 0;
        let n = self.order_side.len();
        while e < n
            invariant
                self.wf(),
                n == self.order_side@.len(),
                e <= n,
                forall|e2: int| 0 <= e2 < e ==> self.order_side@[e2].0@ != key@,
            decreases n - e,
        {
            if self.order_side[e].0 == *key {
                let dir = self.order_side[e].1;
                match dir {
                    Direction::Ask => {
                        let o = self.asks.get_order(key);
                        return Some((Direction::Ask, o.unwrap()));
                    },
                    Direction::Bid => {
                        let o = self.bids.get_order(key);
                        return Some((Direction::Bid, o.unwrap()));
                    },
                }
            }
            e += 1;
        }
        proof {
            if contains_key(self.asks@, key@) || contains_key(self.bids@, key@) {
                assert(false);
            }
        }
        None
    }

    /// Rest a new order on the side `order.0` under `key`, which must not
    /// currently rest anywhere in the book.  Returns the rank the order
    /// took on its ladder (0 = head).
    pub fn insert(&mut self, key: String, order: (Direction, Order)) -> (r: usize)
        requires
            old(self).wf(),
            order.1.volume > 0,
            !old(self).book_contains(key@),
        ensures
            final(self).wf(),
            order.0 == Direction::Ask ==> final(self).asks@ == old(self).asks@.insert(
                r as int,
                (key@, order.1),
            ) && final(self).bids@ == old(self).bids@ && r <= old(self).asks@.len(),
            order.0 == Direction::Bid ==> final(self).bids@ == old(self).bids@.insert(
                r as int,
                (key@, order.1),
            ) && final(self).asks@ == old(self).asks@ && r <= old(self).bids@.len(),
    {
        let (dir, ord) = order;
        self.order_side.push((key.clone(), dir));
        let r = match dir {
            Direction::Ask => self.asks.insert(key, ord),
            Direction::Bid => self.bids.insert(key, ord),
        };
        proof {
            self.lemma_insert_registry(*old(self), key@, dir, r as int);
        }
        r
    }

    /// The registry facts behind `insert`: recording a fresh key for one
    /// side and inserting its rung there leaves the book well-formed.
    proof fn lemma_insert_registry(&self, prev: Orderbook, k: Seq<char>, dir: Direction, r: int)
        requires
            prev.wf(),
            !prev.book_contains(k),
            self.order_side@ == prev.order_side@.push((self.order_side@.last().0, dir)),
            self.order_side@.last().0@ == k,
            dir == Direction::Ask ==> 0 <= r <= prev.asks@.len() && self.asks@
                == prev.asks@.insert(r, (k, self.asks@[r].1)) && self.bids == prev.bids,
            dir == Direction::Bid ==> 0 <= r <= prev.bids@.len() && self.bids@
                == prev.bids@.insert(r, (k, self.bids@[r].1)) && self.asks == prev.asks,
            self.asks.wf(),
            self.bids.wf(),
            self.asks.dir() == Direction::Ask,
            self.bids.dir() == Direction::Bid,
        ensures
            self.wf(),
    {
        let na = self.asks@;
        let nb = self.bids@;
        let pa = prev.asks@;
        let pb = prev.bids@;

        // membership in the grown ladder: the old keys and the new one
        assert forall|k2: Seq<char>| #[trigger] contains_key(na, k2) implies contains_key(pa, k2)
            || (k2 == k && dir == Direction::Ask) by {
            lemma_lookup(na, k2);
            lemma_lookup(pa, k2);
            if dir == Direction::Ask {
                let j = choose|j: int| 0 <= j < na.len() && na[j].0 == k2;
                if j != r {
                    let j0 = if j < r {
                        j
                    } else {
                        j - 1
                    };
                    assert(pa[j0].0 == k2);
                }
            }
        }
        assert forall|k2: Seq<char>| #[trigger] contains_key(nb, k2) implies contains_key(pb, k2)
            || (k2 == k && dir == Direction::Bid) by {
            lemma_lookup(nb, k2);
            lemma_lookup(pb, k2);
            if dir == Direction::Bid {
                let j = choose|j: int| 0 <= j < nb.len() && nb[j].0 == k2;
                if j != r {
                    let j0 = if j < r {
                        j
                    } else {
                        j - 1
                    };
                    assert(pb[j0].0 == k2);
                }
            }
        }
        assert forall|k2: Seq<char>| contains_key(pa, k2) implies #[trigger] contains_key(
            na,
            k2,
        ) by {
            lemma_lookup(na, k2);
            lemma_lookup(pa, k2);
            if dir == Direction::Ask {
                let j = choose|j: int| 0 <= j < pa.len() && pa[j].0 == k2;
                let j1 = if j < r {
                    j
                } else {
                    j + 1
                };
                assert(na[j1].0 == k2);
            }
        }
        assert forall|k2: Seq<char>| contains_key(pb, k2) implies #[trigger] contains_key(
            nb,
            k2,
        ) by {
            lemma_lookup(nb, k2);
            lemma_lookup(pb, k2);
            if dir == Direction::Bid {
                let j = choose|j: int| 0 <= j < pb.len() && pb[j].0 == k2;
                let j1 = if j < r {
                    j
                } else {
                    j + 1
                };
                assert(nb[j1].0 == k2);
            }
        }
        if dir == Direction::Ask {
            lemma_lookup(na, k);
            assert(na[r].0 == k);
        } else {
            lemma_lookup(nb, k);
            assert(nb[r].0 == k);
        }

        // the new key now rests exactly on its own side
        if dir == Direction::Ask {
            assert(contains_key(na, k));
            assert(!contains_key(nb, k));
        } else {
            assert(contains_key(nb, k));
            assert(!contains_key(na, k));
        }

        // each registry entry still sits on exactly the side it names
        assert forall|e: int| 0 <= e < self.order_side@.len() implies ((
        #[trigger] self.order_side@[e]).1 == Direction::Ask ==> contains_key(
            na,
            self.order_side@[e].0@,
        ) && !contains_key(nb, self.order_side@[e].0@)) && (self.order_side@[e].1
            == Direction::Bid ==> contains_key(nb, self.order_side@[e].0@) && !contains_key(
            na,
            self.order_side@[e].0@,
        )) by {
            if e < prev.order_side@.len() {
                assert(self.order_side@[e] == prev.order_side@[e]);
                assert(self.order_side@[e].0@ != k);
            } else {
                assert(self.order_side@[e].0@ == k && self.order_side@[e].1 == dir);
            }
        }

        // every key resting on a side has its registry entry
        assert forall|k2: Seq<char>| #[trigger] contains_key(na, k2) implies exists|e: int|
            0 <= e < self.order_side@.len() && (#[trigger] self.order_side@[e]).0@ == k2
                && self.order_side@[e].1 == Direction::Ask by {
            if contains_key(pa, k2) {
                let e = choose|e: int|
                    0 <= e < prev.order_side@.len() && (#[trigger] prev.order_side@[e]).0@ == k2
                        && prev.order_side@[e].1 == Direction::Ask;
                assert(self.order_side@[e] == prev.order_side@[e]);
            } else {
                assert(k2 == k && dir == Direction::Ask);
                assert(self.order_side@[self.order_side@.len() - 1].0@ == k2);
            }
        }
        assert forall|k2: Seq<char>| #[trigger] contains_key(nb, k2) implies exists|e: int|
            0 <= e < self.order_side@.len() && (#[trigger] self.order_side@[e]).0@ == k2
                && self.order_side@[e].1 == Direction::Bid by {
            if contains_key(pb, k2) {
                let e = choose|e: int|
                    0 <= e < prev.order_side@.len() && (#[trigger] prev.order_side@[e]).0@ == k2
                        && prev.order_side@[e].1 == Direction::Bid;
                assert(self.order_side@[e] == prev.order_side@[e]);
            } else {
                assert(k2 == k && dir == Direction::Bid);
                assert(self.order_side@[self.order_side@.len() - 1].0@ == k2);
            }
        }

        // registry keys stay pairwise distinct: the new key rested nowhere
        assert forall|e1: int, e2: int| 0 <= e1 < e2 < self.order_side@.len() implies (
        #[trigger] self.order_side@[e1]).0@ != (#[trigger] self.order_side@[e2]).0@ by {
            if e2 == self.order_side@.len() - 1 {
                assert(self.order_side@[e1] == prev.order_side@[e1]);
            }
        }
    }

    /// Rest a new order on the ask side; a convenience for `insert`.
    pub fn insert_ask(&mut self, key: String, order: Order) -> (r: usize)
        requires
            old(self).wf(),
            order.volume > 0,
            !old(self).book_contains(key@),
        ensures
            final(self).wf(),
            final(self).asks@ == old(self).asks@.insert(r as int, (key@, order)),
            final(self).bids@ == old(self).bids@,
            r <= old(self).asks@.len(),
    {
        self.insert(key, (Direction::Ask, order))
    }

    /// Rest a new order on the bid side; a convenience for `insert`.
    pub fn insert_bid(&mut self, key: String, order: Order) -> (r: usize)
        requires
            old(self).wf(),
            order.volume > 0,
            !old(self).book_contains(key@),
        ensures
            final(self).wf(),
            final(self).bids@ == old(self).bids@.insert(r as int, (key@, order)),
            final(self).asks@ == old(self).asks@,
            r <= old(self).bids@.len(),
    {
        self.insert(key, (Direction::Bid, order))
    }

    /// Cancel the order resting under `key`, wherever it rests; a no-op
    /// when the key is unknown.
    pub fn remove(&mut self, key: &String)
        requires
            old(self).wf(),
        ensures
            final(self).wf(),
            final(self).asks@ == remove_key(old(self).asks@, key@),
            final(self).bids@ == remove_key(old(self).bids@, key@),
    {
        let ghost prev = *old(self);
        let mut e: usize = 0;
        let n = self.order_side.len();
        while e < n
            invariant
                *self == prev,
                prev == *old(self),
                prev.wf(),
                n == self.order_side@.len(),
                e <= n,
                forall|e2: int| 0 <= e2 < e ==> self.order_side@[e2].0@ != key@,
            decreases n - e,
        {
            if self.order_side[e].0 == *key {
                let dir = self.order_side[e].1;
                self.order_side.remove(e);
                match dir {
                    Direction::Ask => self.asks.remove(key),
                    Direction::Bid => self.bids.remove(key),
                }
                proof {
                    self.lemma_remove_registry(prev, key@, dir, e as int);
                }
                return ;
            }
            e += 1;
        }
        proof {
            if contains_key(self.asks@, key@) || contains_key(self.bids@, key@) {
                assert(false);
            }
        }
    }

    /// The registry facts behind `remove`: dropping a key's registry
    /// entry and its rung leaves the book well-formed, and the side that
    /// did not carry the key is untouched.
    proof fn lemma_remove_registry(&self, prev: Orderbook, k: Seq<char>, dir: Direction, e: int)
        requires
            prev.wf(),
            0 <= e < prev.order_side@.len(),
            prev.order_side@[e].0@ == k,
            prev.order_side@[e].1 == dir,
            self.order_side@ == prev.order_side@.remove(e),
            dir == Direction::Ask ==> self.asks@ == remove_key(prev.asks@, k) && self.bids
                == prev.bids,
            dir == Direction::Bid ==> self.bids@ == remove_key(prev.bids@, k) && self.asks
                == prev.asks,
            self.asks.wf(),
            self.bids.wf(),
            self.asks.dir() == Direction::Ask,
            self.bids.dir() == Direction::Bid,
        ensures
            self.wf(),
            self.asks@ == remove_key(prev.asks@, k),
            self.bids@ == remove_key(prev.bids@, k),
    {
        let na = self.asks@;
        let nb = self.bids@;
        let pa = prev.asks@;
        let pb = prev.bids@;

        // the side not named by the registry never carried the key
        if dir == Direction::Ask {
            assert(!contains_key(pb, k));
            assert(contains_key(pa, k));
            lemma_lookup(pa, k);
        } else {
            assert(!contains_key(pa, k));
            assert(contains_key(pb, k));
            lemma_lookup(pb, k);
        }

        // membership after removing the rung: every other key survives
        assert forall|k2: Seq<char>| #[trigger] contains_key(na, k2) implies contains_key(
            pa,
            k2,
        ) by {
            lemma_lookup(na, k2);
            lemma_lookup(pa, k2);
            if dir == Direction::Ask {
                let i = key_removed_witness(pa, k, k2);
                assert(pa[i].0 == k2);
            }
        }
        assert forall|k2: Seq<char>| #[trigger] contains_key(nb, k2) implies contains_key(
            pb,
            k2,
        ) by {
            lemma_lookup(nb, k2);
            lemma_lookup(pb, k2);
            if dir == Direction::Bid {
                let i = key_removed_witness(pb, k, k2);
                assert(pb[i].0 == k2);
            }
        }
        assert forall|k2: Seq<char>|
            contains_key(pa, k2) && k2 != k implies #[trigger] contains_key(na, k2) by {
            lemma_lookup(na, k2);
            lemma_lookup(pa, k2);
            if dir == Direction::Ask {
                lemma_lookup(pa, k);
                let j = choose|j: int| 0 <= j < pa.len() && pa[j].0 == k2;
                let r = key_index(pa, k);
                if j < r {
                    assert(na[j].0 == k2);
                } else {
                    assert(j != r);
                    assert(na[j - 1].0 == k2);
                }
            }
        }
        assert forall|k2: Seq<char>|
            contains_key(pb, k2) && k2 != k implies #[trigger] contains_key(nb, k2) by {
            lemma_lookup(nb, k2);
            lemma_lookup(pb, k2);
            if dir == Direction::Bid {
                lemma_lookup(pb, k);
                let j = choose|j: int| 0 <= j < pb.len() && pb[j].0 == k2;
                let r = key_index(pb, k);
                if j < r {
                    assert(nb[j].0 == k2);
                } else {
                    assert(j != r);
                    assert(nb[j - 1].0 == k2);
                }
            }
        }

        // the removed key rests on neither side now
        assert(!contains_key(na, k) && !contains_key(nb, k)) by {
            if dir == Direction::Ask {
                prev.asks.lemma_wf_view();
                lemma_lookup(pa, k);
                lemma_lookup(na, k);
                if contains_key(na, k) {
                    let j = choose|j: int| 0 <= j < na.len() && na[j].0 == k;
                    let r = key_index(pa, k);
                    let j0 = if j < r {
                        j
                    } else {
                        j + 1
                    };
                    assert(pa[j0].0 == k && pa[r].0 == k && j0 != r);
                }
            } else {
                prev.bids.lemma_wf_view();
                lemma_lookup(pb, k);
                lemma_lookup(nb, k);
                if contains_key(nb, k) {
                    let j = choose|j: int| 0 <= j < nb.len() && nb[j].0 == k;
                    let r = key_index(pb, k);
                    let j0 = if j < r {
                        j
                    } else {
                        j + 1
                    };
                    assert(pb[j0].0 == k && pb[r].0 == k && j0 != r);
                }
            }
        }

        // surviving registry entries keep naming the right side
        assert forall|e2: int| 0 <= e2 < self.order_side@.len() implies ((
        #[trigger] self.order_side@[e2]).1 == Direction::Ask ==> contains_key(
            na,
            self.order_side@[e2].0@,
        ) && !contains_key(nb, self.order_side@[e2].0@)) && (self.order_side@[e2].1
            == Direction::Bid ==> contains_key(nb, self.order_side@[e2].0@) && !contains_key(
            na,
            self.order_side@[e2].0@,
        )) by {
            let p = if e2 < e {
                e2
            } else {
                e2 + 1
            };
            assert(self.order_side@[e2] == prev.order_side@[p]);
            assert(prev.order_side@[p].0@ != k);
        }

        // every key still resting has its registry entry
        assert forall|k2: Seq<char>| #[trigger] contains_key(na, k2) implies exists|e2: int|
            0 <= e2 < self.order_side@.len() && (#[trigger] self.order_side@[e2]).0@ == k2
                && self.order_side@[e2].1 == Direction::Ask by {
            assert(contains_key(pa, k2));
            let p = choose|p: int|
                0 <= p < prev.order_side@.len() && (#[trigger] prev.order_side@[p]).0@ == k2
                    && prev.order_side@[p].1 == Direction::Ask;
            assert(k2 != k);
            assert(p != e);
            let e2 = if p < e {
                p
            } else {
                p - 1
            };
            assert(self.order_side@[e2] == prev.order_side@[p]);
        }
        assert forall|k2: Seq<char>| #[trigger] contains_key(nb, k2) implies exists|e2: int|
            0 <= e2 < self.order_side@.len() && (#[trigger] self.order_side@[e2]).0@ == k2
                && self.order_side@[e2].1 == Direction::Bid by {
            assert(contains_key(pb, k2));
            let p = choose|p: int|
                0 <= p < prev.order_side@.len() && (#[trigger] prev.order_side@[p]).0@ == k2
                    && prev.order_side@[p].1 == Direction::Bid;
            assert(k2 != k);
            assert(p != e);
            let e2 = if p < e {
                p
            } else {
                p - 1
            };
            assert(self.order_side@[e2] == prev.order_side@[p]);
        }
    }
}

impl Orderbook {
    /// Resolve all crossing between the two sides: run the matcher and
    /// return the trades it produced.  Afterwards the book holds exactly
    /// the residual ladders of `spec_match`, so either a side is empty or
    /// the best ask is strictly above the best bid.
    pub fn resolve_matches(&mut self) -> (trades: Vec<Trade>)
        requires
            old(self).wf(),
        ensures
            final(self).wf(),
            trade_views(trades@) == spec_match(old(self).asks@, old(self).bids@).trades,
            final(self).asks@ == spec_match(old(self).asks@, old(self).bids@).asks,
            final(self).bids@ == spec_match(old(self).asks@, old(self).bids@).bids,
            final(self).asks@.len() == 0 || final(self).bids@.len() == 0
                || final(self).asks@[0].1.price > final(self).bids@[0].1.price,
    {
        match_sides(self)
    }

    /// Write the matcher's verdict back into the book: drop the consumed
    /// heads of both sides, then restore the surviving volume of a
    /// partially-filled head, and forget the dropped keys.
    pub(crate) fn commit_match(
        &mut self,
        asks_dropped: usize,
        ask_modified: Option<u64>,
        bids_dropped: usize,
        bid_modified: Option<u64>,
    )
        requires
            old(self).wf(),
            asks_dropped <= old(self).asks@.len(),
            bids_dropped <= old(self).bids@.len(),
            ask_modified is Some ==> asks_dropped < old(self).asks@.len()
                && ask_modified.unwrap() > 0,
            bid_modified is Some ==> bids_dropped < old(self).bids@.len()
                && bid_modified.unwrap() > 0,
        ensures
            final(self).wf(),
            final(self).asks@ == apply_residual(
                old(self).asks@,
                asks_dropped as int,
                ask_modified,
            ),
            final(self).bids@ == apply_residual(
                old(self).bids@,
                bids_dropped as int,
                bid_modified,
            ),
    {
        let mut i: usize = 0;
        while i < asks_dropped
            invariant
                self.wf(),
                i <= asks_dropped <= old(self).asks@.len(),
                self.asks@ == old(self).asks@.skip(i as int),
                self.bids@ == old(self).bids@,
            decreases asks_dropped - i,
        {
            let k = self.asks.get_key(0).clone();
            proof {
                self.asks.lemma_wf_view();
                lemma_lookup_at(self.asks@, k@, 0);
            }
            self.remove(&k);
            proof {
                assert(old(self).asks@.skip(i as int).remove(0) =~= old(self).asks@.skip(i + 1));
            }
            i += 1;
        }
        let mut i2: usize = 0;
        while i2 < bids_dropped
            invariant
                self.wf(),
                i2 <= bids_dropped <= old(self).bids@.len(),
                self.asks@ == old(self).asks@.skip(asks_dropped as int),
                self.bids@ == old(self).bids@.skip(i2 as int),
            decreases bids_dropped - i2,
        {
            let k = self.bids.get_key(0).clone();
            proof {
                self.bids.lemma_wf_view();
                lemma_lookup_at(self.bids@, k@, 0);
            }
            self.remove(&k);
            proof {
                assert(old(self).bids@.skip(i2 as int).remove(0) =~= old(self).bids@.skip(i2 + 1));
            }
            i2 += 1;
        }
        if let Some(v) = ask_modified {
            let ghost before = *self;
            self.asks.set_first_volume(v);
            proof {
                lemma_same_keys_same_contains(before.asks@, self.asks@);
                assert(self.wf());
            }
        }
        if let Some(v) = bid_modified {
            let ghost before = *self;
            self.bids.set_first_volume(v);
            proof {
                lemma_same_keys_same_contains(before.bids@, self.bids@);
                assert(self.wf());
            }
        }
    }
}

impl Default for Orderbook {
    /// An empty book.
    fn default() -> (r: Orderbook)
        ensures
            r.wf(),
            r.asks@ == Seq::<Entry>::empty(),
            r.bids@ == Seq::<Entry>::empty(),
    {
        Orderbook::new()
    }
}

/// For a key `k2` resting in `v` after the rung carrying `k` was taken
/// out, a rank in `v` itself that carries `k2`.
proof fn key_removed_witness(v: Seq<Entry>, k: Seq<char>, k2: Seq<char>) -> (i: int)
    requires
        contains_key(v, k),
        contains_key(remove_key(v, k), k2),
    ensures
        0 <= i < v.len(),
        v[i].0 == k2,
{
    lemma_lookup(v, k);
    let nv = remove_key(v, k);
    lemma_lookup(nv, k2);
    let j = choose|j: int| 0 <= j < nv.len() && nv[j].0 == k2;
    let r = key_index(v, k);
    if j < r {
        j
    } else {
        j + 1
    }
}

} // verus!
