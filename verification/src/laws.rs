use crate::direction::Direction;
use crate::matching::spec_match;
use crate::matching::spec_trade;
use crate::order::Order;
use crate::orderbook::Orderbook;
use crate::side::contains_key;
use crate::side::positive_volumes;
use crate::side::price_leq;
use crate::side::sorted_by_price;
use crate::side::Entry;
use crate::trade::TradeModel;
use vstd::prelude::*;

verus! {

/// Price-time priority of insertion: a new order placed at the upper
/// bound of its price keeps the ladder sorted, and every resting order
/// of equal price stays ahead of it, so ties are served first-in
/// first-out.  `Side::insert` returns exactly such a rank.
pub proof fn lemma_fifo_placement(v: Seq<Entry>, e: Entry, r: int, dir: Direction)
    requires
        sorted_by_price(dir, v),
        0 <= r <= v.len(),
        forall|j: int| 0 <= j < r ==> price_leq(dir, v[j].1.price, e.1.price),
        forall|j: int| r <= j < v.len() ==> !price_leq(dir, v[j].1.price, e.1.price),
    ensures
        sorted_by_price(dir, v.insert(r, e)),
        forall|j: int|
            0 <= j < v.len() && v[j].1.price == e.1.price ==> j < r && v.insert(r, e)[j] == v[j],
{
    let nv = v.insert(r, e);
    assert forall|j1: int, j2: int| 0 <= j1 <= j2 < nv.len() implies price_leq(
        dir,
        nv[j1].1.price,
        nv[j2].1.price,
    ) by {
        if j1 < r && j2 > r {
            assert(nv[j1] == v[j1] && nv[j2] == v[j2 - 1]);
            assert(!price_leq(dir, v[j2 - 1].1.price, e.1.price));
        } else if j1 == r && j2 > r {
            assert(nv[j2] == v[j2 - 1]);
            assert(!price_leq(dir, v[j2 - 1].1.price, e.1.price));
        } else if j1 < j2 && j2 == r {
            assert(nv[j1] == v[j1]);
        } else if j1 < j2 {
            if j2 < r {
                assert(nv[j1] == v[j1] && nv[j2] == v[j2]);
            } else {
                assert(nv[j1] == v[j1 - 1] && nv[j2] == v[j2 - 1]);
            }
        }
    }
}

/// At most one side of a well-formed book carries any key: a resting key
/// identifies exactly one order book-wide.
pub proof fn lemma_key_uniqueness(ob: &Orderbook, k: Seq<char>)
    requires
        ob.wf(),
    ensures
        !(contains_key(ob.asks@, k) && contains_key(ob.bids@, k)),
{
    if contains_key(ob.asks@, k) {
        let e = choose|e: int|
            0 <= e < ob.order_side@.len() && (#[trigger] ob.order_side@[e]).0@ == k
                && ob.order_side@[e].1 == Direction::Ask;
        assert(!contains_key(ob.bids@, ob.order_side@[e].0@));
    }
}

/// After matching, the book is non-crossing: either one residual side is
/// empty or the best ask price is strictly above the best bid price.
pub proof fn lemma_match_non_crossing(asks: Seq<Entry>, bids: Seq<Entry>)
    ensures
        spec_match(asks, bids).asks.len() == 0 || spec_match(asks, bids).bids.len() == 0
            || spec_match(asks, bids).asks[0].1.price > spec_match(asks, bids).bids[0].1.price,
    decreases asks.len() + bids.len(),
{
    if asks.len() == 0 || bids.len() == 0 {
    } else {
        let a = asks[0];
        let b = bids[0];
        if a.1.price > b.1.price {
        } else if a.1.volume < b.1.volume {
            lemma_match_non_crossing(
                asks.drop_first(),
                bids.update(0, (b.0, (Order { volume: (b.1.volume - a.1.volume) as u64, ..b.1 }))),
            );
        } else if a.1.volume > b.1.volume {
            lemma_match_non_crossing(
                asks.update(0, (a.0, (Order { volume: (a.1.volume - b.1.volume) as u64, ..a.1 }))),
                bids.drop_first(),
            );
        } else {
            lemma_match_non_crossing(asks.drop_first(), bids.drop_first());
        }
    }
}

/// The volume resting on a ladder, summed from the head.
pub open spec fn total_volume(v: Seq<Entry>) -> int
    decreases v.len(),
{
    if v.len() == 0 {
        0
    } else {
        v[0].1.volume + total_volume(v.drop_first())
    }
}

/// The volume filled by a list of trades.
pub open spec fn total_trade_volume(ts: Seq<TradeModel>) -> int
    decreases ts.len(),
{
    if ts.len() == 0 {
        0
    } else {
        ts[0].volume + total_trade_volume(ts.drop_first())
    }
}

proof fn lemma_total_volume_update0(v: Seq<Entry>, e: Entry)
    requires
        v.len() > 0,
    ensures
        total_volume(v.update(0, e)) == total_volume(v) - v[0].1.volume + e.1.volume,
{
    assert(v.update(0, e).drop_first() =~= v.drop_first());
}

proof fn lemma_total_trade_volume_cons(t: TradeModel, rest: Seq<TradeModel>)
    ensures
        total_trade_volume(seq![t] + rest) == t.volume + total_trade_volume(rest),
{
    assert((seq![t] + rest)[0] == t);
    assert((seq![t] + rest).drop_first() =~= rest);
}

/// Volume is conserved by matching, separately on each side: what was
/// resting equals what was filled plus what still rests.
pub proof fn lemma_volume_conservation(asks: Seq<Entry>, bids: Seq<Entry>)
    ensures
        total_trade_volume(spec_match(asks, bids).trades) + total_volume(spec_match(asks, bids).asks)
            == total_volume(asks),
        total_trade_volume(spec_match(asks, bids).trades) + total_volume(spec_match(asks, bids).bids)
            == total_volume(bids),
    decreases asks.len() + bids.len(),
{
    if asks.len() == 0 || bids.len() == 0 {
    } else {
        let a = asks[0];
        let b = bids[0];
        if a.1.price > b.1.price {
        } else if a.1.volume < b.1.volume {
            let nb = bids.update(0, (b.0, (Order { volume: (b.1.volume - a.1.volume) as u64, ..b.1 })));
            lemma_volume_conservation(asks.drop_first(), nb);
            let rest = spec_match(asks.drop_first(), nb);
            lemma_total_trade_volume_cons(spec_trade(a, b, a.1.volume), rest.trades);
            lemma_total_volume_update0(bids, (b.0, (Order { volume: (b.1.volume - a.1.volume) as u64, ..b.1 })));
        } else if a.1.volume > b.1.volume {
            let na = asks.update(0, (a.0, (Order { volume: (a.1.volume - b.1.volume) as u64, ..a.1 })));
            lemma_volume_conservation(na, bids.drop_first());
            let rest = spec_match(na, bids.drop_first());
            lemma_total_trade_volume_cons(spec_trade(a, b, b.1.volume), rest.trades);
            lemma_total_volume_update0(asks, (a.0, (Order { volume: (a.1.volume - b.1.volume) as u64, ..a.1 })));
        } else {
            lemma_volume_conservation(asks.drop_first(), bids.drop_first());
            let rest = spec_match(asks.drop_first(), bids.drop_first());
            lemma_total_trade_volume_cons(spec_trade(a, b, a.1.volume), rest.trades);
        }
    }
}

/// Every emitted trade sells a key that was resting on the ask side and
/// buys a key that was resting on the bid side.
pub proof fn lemma_trade_side_identity(asks: Seq<Entry>, bids: Seq<Entry>)
    ensures
        forall|i: int|
            0 <= i < spec_match(asks, bids).trades.len() ==> (exists|j: int|
                0 <= j < asks.len() && asks[j].0 == (#[trigger] spec_match(
                    asks,
                    bids,
                ).trades[i]).sell_key) && (exists|j: int|
                0 <= j < bids.len() && bids[j].0 == spec_match(asks, bids).trades[i].buy_key),
    decreases asks.len() + bids.len(),
{
    if asks.len() == 0 || bids.len() == 0 {
    } else {
        let a = asks[0];
        let b = bids[0];
        if a.1.price > b.1.price {
        } else {
            let na = if a.1.volume > b.1.volume {
                asks.update(0, (a.0, (Order { volume: (a.1.volume - b.1.volume) as u64, ..a.1 })))
            } else {
                asks.drop_first()
            };
            let nb = if a.1.volume < b.1.volume {
                bids.update(0, (b.0, (Order { volume: (b.1.volume - a.1.volume) as u64, ..b.1 })))
            } else {
                bids.drop_first()
            };
            lemma_trade_side_identity(na, nb);
            let rest = spec_match(na, nb);
            let vol = if a.1.volume < b.1.volume {
                a.1.volume
            } else {
                b.1.volume
            };
            let t0 = spec_trade(a, b, vol);
            assert(spec_match(asks, bids).trades == seq![t0] + rest.trades);
            assert forall|i: int| 0 <= i < spec_match(asks, bids).trades.len() implies (exists|
                j: int,
            |
                0 <= j < asks.len() && asks[j].0 == (#[trigger] spec_match(
                    asks,
                    bids,
                ).trades[i]).sell_key) && (exists|j: int|
                0 <= j < bids.len() && bids[j].0 == spec_match(asks, bids).trades[i].buy_key) by {
                if i == 0 {
                    assert(spec_match(asks, bids).trades[0] == t0);
                    assert(asks[0].0 == t0.sell_key);
                    assert(bids[0].0 == t0.buy_key);
                } else {
                    assert(spec_match(asks, bids).trades[i] == rest.trades[i - 1]);
                    let js = choose|j: int|
                        0 <= j < na.len() && na[j].0 == rest.trades[i - 1].sell_key;
                    if a.1.volume > b.1.volume {
                        assert(asks[js].0 == na[js].0);
                    } else {
                        assert(asks[js + 1].0 == na[js].0);
                    }
                    let jb = choose|j: int|
                        0 <= j < nb.len() && nb[j].0 == rest.trades[i - 1].buy_key;
                    if a.1.volume < b.1.volume {
                        assert(bids[jb].0 == nb[jb].0);
                    } else {
                        assert(bids[jb + 1].0 == nb[jb].0);
                    }
                }
            }
        }
    }
}

/// When every resting order has positive volume, so does every emitted
/// trade: a fill is the smaller of two positive heads.
pub proof fn lemma_trade_volumes_positive(asks: Seq<Entry>, bids: Seq<Entry>)
    requires
        positive_volumes(asks),
        positive_volumes(bids),
    ensures
        forall|i: int|
            0 <= i < spec_match(asks, bids).trades.len() ==> (#[trigger] spec_match(
                asks,
                bids,
            ).trades[i]).volume > 0,
    decreases asks.len() + bids.len(),
{
    if asks.len() == 0 || bids.len() == 0 {
    } else {
        let a = asks[0];
        let b = bids[0];
        if a.1.price > b.1.price {
        } else {
            let na = if a.1.volume > b.1.volume {
                asks.update(0, (a.0, (Order { volume: (a.1.volume - b.1.volume) as u64, ..a.1 })))
            } else {
                asks.drop_first()
            };
            let nb = if a.1.volume < b.1.volume {
                bids.update(0, (b.0, (Order { volume: (b.1.volume - a.1.volume) as u64, ..b.1 })))
            } else {
                bids.drop_first()
            };
            assert forall|j: int| 0 <= j < na.len() implies na[j].1.volume > 0 by {
                if !(a.1.volume > b.1.volume) {
                    assert(na[j] == asks[j + 1]);
                }
            }
            assert forall|j: int| 0 <= j < nb.len() implies nb[j].1.volume > 0 by {
                if !(a.1.volume < b.1.volume) {
                    assert(nb[j] == bids[j + 1]);
                }
            }
            lemma_trade_volumes_positive(na, nb);
            let rest = spec_match(na, nb);
            let vol = if a.1.volume < b.1.volume {
                a.1.volume
            } else {
                b.1.volume
            };
            assert(spec_match(asks, bids).trades == seq![spec_trade(a, b, vol)] + rest.trades);
            assert forall|i: int| 0 <= i < spec_match(asks, bids).trades.len() implies (
            #[trigger] spec_match(asks, bids).trades[i]).volume > 0 by {
                if i == 0 {
                    assert(spec_match(asks, bids).trades[0] == spec_trade(a, b, vol));
                } else {
                    assert(spec_match(asks, bids).trades[i] == rest.trades[i - 1]);
                }
            }
        }
    }
}

/// The aggressor, trade price and trade timestamp are a function of the
/// two heads alone: the later arrival aggresses at the resting price and
/// its own timestamp; at equal timestamps there is no aggressor and the
/// price is the midpoint, rounded down.
pub proof fn lemma_aggressor_determinism(a: Entry, b: Entry, vol: u64)
    ensures
        spec_trade(a, b, vol).sell_key == a.0,
        spec_trade(a, b, vol).buy_key == b.0,
        spec_trade(a, b, vol).volume == vol,
        a.1.timestamp.0 < b.1.timestamp.0 ==> spec_trade(a, b, vol).aggressor_side == Some(
            Direction::Bid,
        ) && spec_trade(a, b, vol).timestamp == b.1.timestamp && spec_trade(a, b, vol).price
            == a.1.price,
        a.1.timestamp.0 > b.1.timestamp.0 ==> spec_trade(a, b, vol).aggressor_side == Some(
            Direction::Ask,
        ) && spec_trade(a, b, vol).timestamp == a.1.timestamp && spec_trade(a, b, vol).price
            == b.1.price,
        a.1.timestamp.0 == b.1.timestamp.0 ==> spec_trade(a, b, vol).aggressor_side == None::<
            Direction,
        > && spec_trade(a, b, vol).timestamp == a.1.timestamp && spec_trade(a, b, vol).price == ((
        a.1.price + b.1.price) / 2) as u64,
{
}

} // verus!
