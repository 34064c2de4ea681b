use crate::direction::Direction;
use crate::order::Order;
use crate::orderbook::Orderbook;
use crate::side::Entry;
use crate::trade::Trade;
use crate::trade::TradeModel;
use vstd::prelude::*;

verus! {

/// What one round of matching decided: the heads do not cross, or one
/// side's head survives with leftover volume, or both are consumed.
#[derive(Clone, Copy, Debug, PartialEq, Eq, Structural)]
pub enum MatchResult {
    Unmatched,
    /// `left` is the side whose head still has volume resting.
    Partial { left: Direction, volume: u64 },
    Full { volume: u64 },
}

/// The matching rule for a pair of heads: no trade unless the ask price
/// is at or below the bid price; otherwise the traded volume is the
/// smaller head, and the side with the larger head is left resting.
pub open spec fn spec_match_orders(bid: Order, ask: Order) -> MatchResult {
    if ask.price > bid.price {
        MatchResult::Unmatched
    } else if ask.volume < bid.volume {
        MatchResult::Partial { left: Direction::Bid, volume: ask.volume }
    } else if ask.volume > bid.volume {
        MatchResult::Partial { left: Direction::Ask, volume: bid.volume }
    } else {
        MatchResult::Full { volume: ask.volume }
    }
}

/// Decide how the two heads match.  Resting orders always have positive
/// volume; a non-positive head is a corrupted book, excluded here.
pub fn match_orders(bid: &Order, ask: &Order) -> (r: MatchResult)
    requires
        bid.volume > 0,
        ask.volume > 0,
    ensures
        r == spec_match_orders(*bid, *ask),
{
    if ask.price > bid.price {
        return MatchResult::Unmatched;
    }
    if ask.volume < bid.volume {
        MatchResult::Partial { left: Direction::Bid, volume: ask.volume }
    } else if ask.volume > bid.volume {
        MatchResult::Partial { left: Direction::Ask, volume: bid.volume }
    } else {
        MatchResult::Full { volume: ask.volume }
    }
}

/// The trade emitted for ask head `a` and bid head `b` with fill `vol`:
/// the later arrival is the aggressor and trades at the resting side's
/// price with its own timestamp; at equal timestamps there is no
/// aggressor and the price is the midpoint, rounded down.
pub open spec fn spec_trade(a: Entry, b: Entry, vol: u64) -> TradeModel {
    if a.1.timestamp.0 < b.1.timestamp.0 {
        TradeModel {
            buy_key: b.0,
            sell_key: a.0,
            price: a.1.price,
            volume: vol,
            timestamp: b.1.timestamp,
            aggressor_side: Some(Direction::Bid),
        }
    } else if a.1.timestamp.0 > b.1.timestamp.0 {
        TradeModel {
            buy_key: b.0,
            sell_key: a.0,
            price: b.1.price,
            volume: vol,
            timestamp: a.1.timestamp,
            aggressor_side: Some(Direction::Ask),
        }
    } else {
        TradeModel {
            buy_key: b.0,
            sell_key: a.0,
            price: (((a.1.price + b.1.price) / 2) as u64),
            volume: vol,
            timestamp: a.1.timestamp,
            aggressor_side: None,
        }
    }
}

/// What the whole matching loop produces from two ladders: the trade
/// stream and both residual ladders.  As long as the heads cross, the
/// smaller head is consumed in full and the larger survives with the
/// difference; the loop stops when a side empties or the heads no longer
/// cross.
pub ghost struct MatchOutcome {
    pub trades: Seq<TradeModel>,
    pub asks: Seq<Entry>,
    pub bids: Seq<Entry>,
}

pub open spec fn spec_match(asks: Seq<Entry>, bids: Seq<Entry>) -> MatchOutcome
    decreases asks.len() + bids.len(),
{
    if asks.len() == 0 || bids.len() == 0 {
        MatchOutcome { trades: Seq::empty(), asks, bids }
    } else {
        let a = asks[0];
        let b = bids[0];
        if a.1.price > b.1.price {
            MatchOutcome { trades: Seq::empty(), asks, bids }
        } else if a.1.volume < b.1.volume {
            let rest = spec_match(
                asks.drop_first(),
                bids.update(0, (b.0, (Order { volume: (b.1.volume - a.1.volume) as u64, ..b.1 }))),
            );
            MatchOutcome {
                trades: seq![spec_trade(a, b, a.1.volume)] + rest.trades,
                asks: rest.asks,
                bids: rest.bids,
            }
        } else if a.1.volume > b.1.volume {
            let rest = spec_match(
                asks.update(0, (a.0, (Order { volume: (a.1.volume - b.1.volume) as u64, ..a.1 }))),
                bids.drop_first(),
            );
            MatchOutcome {
                trades: seq![spec_trade(a, b, b.1.volume)] + rest.trades,
                asks: rest.asks,
                bids: rest.bids,
            }
        } else {
            let rest = spec_match(asks.drop_first(), bids.drop_first());
            MatchOutcome {
                trades: seq![spec_trade(a, b, a.1.volume)] + rest.trades,
                asks: rest.asks,
                bids: rest.bids,
            }
        }
    }
}

/// A ladder after the matcher's deferred write-back: the fully-consumed
/// heads dropped, and, when a head was only partially filled, its
/// surviving volume written in place.
pub open spec fn apply_residual(v: Seq<Entry>, dropped: int, modified: Option<u64>) -> Seq<Entry> {
    let s = v.skip(dropped);
    match modified {
        None => s,
        Some(vol) => s.update(0, (s[0].0, (Order { volume: vol, ..s[0].1 }))),
    }
}

/// The mathematical values of a list of trades.
pub open spec fn trade_views(ts: Seq<Trade>) -> Seq<TradeModel> {
    ts.map_values(|t: Trade| t@)
}

/// Build the trade for ask head `(sell_key, a)` and bid head
/// `(buy_key, b)` with fill `vol`, exactly as `spec_trade` states it.
fn make_trade(sell_key: &String, buy_key: &String, a: &Order, b: &Order, vol: u64) -> (t: Trade)
    ensures
        t@ == spec_trade((sell_key@, *a), (buy_key@, *b), vol),
{
    if a.timestamp.0 < b.timestamp.0 {
        Trade {
            buy_key: buy_key.clone(),
            sell_key: sell_key.clone(),
            price: a.price,
            volume: vol,
            timestamp: b.timestamp,
            aggressor_side: Some(Direction::Bid),
        }
    } else if a.timestamp.0 > b.timestamp.0 {
        Trade {
            buy_key: buy_key.clone(),
            sell_key: sell_key.clone(),
            price: b.price,
            volume: vol,
            timestamp: a.timestamp,
            aggressor_side: Some(Direction::Ask),
        }
    } else {
        let mid = (((a.price as u128) + (b.price as u128)) / 2) as u64;
        Trade {
            buy_key: buy_key.clone(),
            sell_key: sell_key.clone(),
            price: mid,
            volume: vol,
            timestamp: a.timestamp,
            aggressor_side: None,
        }
    }
}

/// Resolve all crossing between the two sides of `ob`: repeatedly match
/// the best ask against the best bid, emit the trades, and write the
/// residual state back.  The book afterwards holds exactly the residual
/// ladders of `spec_match`, so it is non-crossing.
pub fn match_sides(ob: &mut Orderbook) -> (trades: Vec<Trade>)
    requires
        old(ob).wf(),
    ensures
        final(ob).wf(),
        trade_views(trades@) == spec_match(old(ob).asks@, old(ob).bids@).trades,
        final(ob).asks@ == spec_match(old(ob).asks@, old(ob).bids@).asks,
        final(ob).bids@ == spec_match(old(ob).asks@, old(ob).bids@).bids,
        final(ob).asks@.len() == 0 || final(ob).bids@.len() == 0 || final(ob).asks@[0].1.price
            > final(ob).bids@[0].1.price,
{
    let ghost asks0 = ob.asks@;
    let ghost bids0 = ob.bids@;
    let mut trades: Vec<Trade> = Vec::new();
    let mut asks_dropped: usize = 0;
    let mut bids_dropped: usize = 0;
    let mut ask_modified: Option<u64> = None;
    let mut bid_modified: Option<u64> = None;
    let alen = ob.asks.len();
    let blen = ob.bids.len();
    proof {
        assert(trade_views(trades@) =~= Seq::<TradeModel>::empty());
        assert(apply_residual(asks0, 0, None::<u64>) =~= asks0);
        assert(apply_residual(bids0, 0, None::<u64>) =~= bids0);
        assert(Seq::<TradeModel>::empty() + spec_match(asks0, bids0).trades =~= spec_match(
            asks0,
            bids0,
        ).trades);
    }
    loop
        invariant_except_break
            *ob == *old(ob),
            ob.wf(),
            asks0 == ob.asks@,
            bids0 == ob.bids@,
            alen == asks0.len(),
            blen == bids0.len(),
            asks_dropped <= alen,
            bids_dropped <= blen,
            ask_modified is Some ==> asks_dropped < alen && ask_modified.unwrap() > 0,
            bid_modified is Some ==> bids_dropped < blen && bid_modified.unwrap() > 0,
            spec_match(asks0, bids0).trades == trade_views(trades@) + spec_match(
                apply_residual(asks0, asks_dropped as int, ask_modified),
                apply_residual(bids0, bids_dropped as int, bid_modified),
            ).trades,
            spec_match(asks0, bids0).asks == spec_match(
                apply_residual(asks0, asks_dropped as int, ask_modified),
                apply_residual(bids0, bids_dropped as int, bid_modified),
            ).asks,
            spec_match(asks0, bids0).bids == spec_match(
                apply_residual(asks0, asks_dropped as int, ask_modified),
                apply_residual(bids0, bids_dropped as int, bid_modified),
            ).bids,
        ensures
            *ob == *old(ob),
            asks0 == ob.asks@,
            bids0 == ob.bids@,
            asks_dropped <= alen,
            bids_dropped <= blen,
            ask_modified is Some ==> asks_dropped < alen && ask_modified.unwrap() > 0,
            bid_modified is Some ==> bids_dropped < blen && bid_modified.unwrap() > 0,
            spec_match(asks0, bids0).trades == trade_views(trades@),
            spec_match(asks0, bids0).asks == apply_residual(
                asks0,
                asks_dropped as int,
                ask_modified,
            ),
            spec_match(asks0, bids0).bids == apply_residual(
                bids0,
                bids_dropped as int,
                bid_modified,
            ),
            apply_residual(asks0, asks_dropped as int, ask_modified).len() == 0 || apply_residual(
                bids0,
                bids_dropped as int,
                bid_modified,
            ).len() == 0 || apply_residual(asks0, asks_dropped as int, ask_modified)[0].1.price
                > apply_residual(bids0, bids_dropped as int, bid_modified)[0].1.price,
        decreases (alen - asks_dropped) + (blen - bids_dropped),
    {
        let ghost eff_a = apply_residual(asks0, asks_dropped as int, ask_modified);
        let ghost eff_b = apply_residual(bids0, bids_dropped as int, bid_modified);
        let ghost tv = trade_views(trades@);
        if asks_dropped >= alen {
            proof {
                assert(eff_a.len() == 0);
                assert(spec_match(eff_a, eff_b).trades == Seq::<TradeModel>::empty());
                assert(tv + Seq::<TradeModel>::empty() =~= tv);
            }
            break ;
        }
        if bids_dropped >= blen {
            proof {
                assert(eff_b.len() == 0);
                assert(spec_match(eff_a, eff_b).trades == Seq::<TradeModel>::empty());
                assert(tv + Seq::<TradeModel>::empty() =~= tv);
            }
            break ;
        }
        let a_key = ob.asks.get_key(asks_dropped);
        let mut a_ord = ob.asks.get_order_by_index(asks_dropped).unwrap();
        match ask_modified {
            Some(v) => {
                a_ord.volume = v;
            },
            None => {},
        }
        let b_key = ob.bids.get_key(bids_dropped);
        let mut b_ord = ob.bids.get_order_by_index(bids_dropped).unwrap();
        match bid_modified {
            Some(v) => {
                b_ord.volume = v;
            },
            None => {},
        }
        proof {
            ob.asks.lemma_wf_view();
            ob.bids.lemma_wf_view();
            assert(eff_a[0] == (a_key@, a_ord));
            assert(eff_b[0] == (b_key@, b_ord));
            assert(a_ord.volume > 0 && b_ord.volume > 0);
        }
        let m = match_orders(&b_ord, &a_ord);
        match m {
            MatchResult::Unmatched => {
                proof {
                    assert(a_ord.price > b_ord.price);
                    assert(spec_match(eff_a, eff_b).trades == Seq::<TradeModel>::empty());
                    assert(spec_match(eff_a, eff_b).asks == eff_a);
                    assert(spec_match(eff_a, eff_b).bids == eff_b);
                    assert(tv + Seq::<TradeModel>::empty() =~= tv);
                }
                break ;
            },
            MatchResult::Full { volume } => {
                let t = make_trade(a_key, b_key, &a_ord, &b_ord, volume);
                trades.push(t);
                ask_modified = None;
                bid_modified = None;
                asks_dropped += 1;
                bids_dropped += 1;
                proof {
                    let rest = spec_match(eff_a.drop_first(), eff_b.drop_first());
                    assert(spec_match(eff_a, eff_b).trades == seq![
                        spec_trade(eff_a[0], eff_b[0], volume),
                    ] + rest.trades);
                    assert(spec_match(eff_a, eff_b).asks == rest.asks);
                    assert(spec_match(eff_a, eff_b).bids == rest.bids);
                    assert(eff_a.drop_first() =~= apply_residual(
                        asks0,
                        asks_dropped as int,
                        ask_modified,
                    ));
                    assert(eff_b.drop_first() =~= apply_residual(
                        bids0,
                        bids_dropped as int,
                        bid_modified,
                    ));
                    assert(t@ == spec_trade(eff_a[0], eff_b[0], volume));
                    assert(trade_views(trades@) =~= tv.push(t@));
                    assert(tv + (seq![t@] + rest.trades) =~= tv.push(t@) + rest.trades);
                }
            },
            MatchResult::Partial { left: Direction::Bid, volume } => {
                // the ask head is consumed; the bid head survives smaller
                let t = make_trade(a_key, b_key, &a_ord, &b_ord, volume);
                trades.push(t);
                let leftover = b_ord.volume - volume;
                ask_modified = None;
                bid_modified = Some(leftover);
                asks_dropped += 1;
                proof {
                    let newb = (eff_b[0].0, (Order { volume: leftover, ..eff_b[0].1 }));
                    let rest = spec_match(eff_a.drop_first(), eff_b.update(0, newb));
                    assert(spec_match(eff_a, eff_b).trades == seq![
                        spec_trade(eff_a[0], eff_b[0], volume),
                    ] + rest.trades);
                    assert(spec_match(eff_a, eff_b).asks == rest.asks);
                    assert(spec_match(eff_a, eff_b).bids == rest.bids);
                    assert(eff_a.drop_first() =~= apply_residual(
                        asks0,
                        asks_dropped as int,
                        ask_modified,
                    ));
                    assert(eff_b.update(0, newb) =~= apply_residual(
                        bids0,
                        bids_dropped as int,
                        bid_modified,
                    ));
                    assert(t@ == spec_trade(eff_a[0], eff_b[0], volume));
                    assert(trade_views(trades@) =~= tv.push(t@));
                    assert(tv + (seq![t@] + rest.trades) =~= tv.push(t@) + rest.trades);
                }
            },
            MatchResult::Partial { left: Direction::Ask, volume } => {
                // the bid head is consumed; the ask head survives smaller
                let t = make_trade(a_key, b_key, &a_ord, &b_ord, volume);
                trades.push(t);
                let leftover = a_ord.volume - volume;
                bid_modified = None;
                ask_modified = Some(leftover);
                bids_dropped += 1;
                proof {
                    let newa = (eff_a[0].0, (Order { volume: leftover, ..eff_a[0].1 }));
                    let rest = spec_match(eff_a.update(0, newa), eff_b.drop_first());
                    assert(spec_match(eff_a, eff_b).trades == seq![
                        spec_trade(eff_a[0], eff_b[0], volume),
                    ] + rest.trades);
                    assert(spec_match(eff_a, eff_b).asks == rest.asks);
                    assert(spec_match(eff_a, eff_b).bids == rest.bids);
                    assert(eff_a.update(0, newa) =~= apply_residual(
                        asks0,
                        asks_dropped as int,
                        ask_modified,
                    ));
                    assert(eff_b.drop_first() =~= apply_residual(
                        bids0,
                        bids_dropped as int,
                        bid_modified,
                    ));
                    assert(t@ == spec_trade(eff_a[0], eff_b[0], volume));
                    assert(trade_views(trades@) =~= tv.push(t@));
                    assert(tv + (seq![t@] + rest.trades) =~= tv.push(t@) + rest.trades);
                }
            },
        }
    }
    ob.commit_match(asks_dropped, ask_modified, bids_dropped, bid_modified);
    trades
}

} // verus!
