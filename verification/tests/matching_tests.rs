use orderbook::match_orders;
use orderbook::Direction;
use orderbook::MatchResult;
use orderbook::Order;
use orderbook::Orderbook;
use orderbook::Timestamp;

fn order_at(price: u64, volume: u64, ts: u64) -> Order {
    Order { price, volume, timestamp: Timestamp(ts) }
}

#[test]
fn test_single_order_match() {
    let a = Order::new(5, 10);
    let b = Order::new(10, 5);
    let c = Order::new(5, 5);
    let d = Order::new(10, 10);

    assert_eq!(match_orders(&a, &b), MatchResult::Unmatched);
    assert_eq!(
        match_orders(&b, &a),
        MatchResult::Partial { left: Direction::Ask, volume: 5 }
    );

    assert_eq!(match_orders(&a, &d), MatchResult::Unmatched);
    assert_eq!(match_orders(&d, &a), MatchResult::Full { volume: 10 });

    assert_eq!(
        match_orders(&a, &c),
        MatchResult::Partial { left: Direction::Bid, volume: 5 }
    );
}

#[test]
fn test_matching() {
    let mut ob = Orderbook::new();
    ob.insert("order1".to_string(), (Direction::Bid, order_at(10, 10, 0)));
    ob.insert("order2".to_string(), (Direction::Ask, order_at(10, 5, 1)));
    ob.insert("order3".to_string(), (Direction::Ask, order_at(5, 10, 2)));

    let trades = ob.resolve_matches();

    for t in trades {
        println!("{:?}", t)
    }
}

#[test]
fn no_cross_leaves_book_unchanged() {
    let mut ob = Orderbook::new();
    ob.insert_ask("x".to_string(), order_at(10, 5, 1));
    ob.insert_bid("y".to_string(), order_at(9, 5, 2));

    let trades = ob.resolve_matches();
    assert_eq!(trades.len(), 0);
    let (d, o) = ob.get_order(&"x".to_string()).unwrap();
    assert_eq!(d, Direction::Ask);
    assert_eq!(o.volume, 5);
    let (d, o) = ob.get_order(&"y".to_string()).unwrap();
    assert_eq!(d, Direction::Bid);
    assert_eq!(o.volume, 5);
}

#[test]
fn exact_full_match() {
    let mut ob = Orderbook::new();
    ob.insert_ask("x".to_string(), order_at(10, 5, 1));
    ob.insert_bid("y".to_string(), order_at(10, 5, 2));

    let trades = ob.resolve_matches();
    assert_eq!(trades.len(), 1);
    let t = &trades[0];
    assert_eq!(t.buy_key, "y");
    assert_eq!(t.sell_key, "x");
    assert_eq!(t.volume, 5);
    assert_eq!(t.price, 10);
    assert_eq!(t.timestamp, Timestamp(2));
    assert_eq!(t.aggressor_side, Some(Direction::Bid));
    assert_eq!(ob.get_order(&"x".to_string()), None);
    assert_eq!(ob.get_order(&"y".to_string()), None);
}

#[test]
fn partial_match_bid_aggresses() {
    let mut ob = Orderbook::new();
    ob.insert_ask("x".to_string(), order_at(10, 5, 1));
    ob.insert_bid("y".to_string(), order_at(10, 8, 2));

    let trades = ob.resolve_matches();
    assert_eq!(trades.len(), 1);
    let t = &trades[0];
    assert_eq!(t.volume, 5);
    assert_eq!(t.price, 10);
    assert_eq!(t.aggressor_side, Some(Direction::Bid));
    assert_eq!(t.timestamp, Timestamp(2));
    assert_eq!(ob.get_order(&"x".to_string()), None);
    let (d, o) = ob.get_order(&"y".to_string()).unwrap();
    assert_eq!(d, Direction::Bid);
    assert_eq!(o.volume, 3);
}

#[test]
fn walk_the_book() {
    let mut ob = Orderbook::new();
    ob.insert_ask("a1".to_string(), order_at(10, 3, 1));
    ob.insert_ask("a2".to_string(), order_at(11, 4, 2));
    ob.insert_bid("b1".to_string(), order_at(12, 5, 3));

    let trades = ob.resolve_matches();
    assert_eq!(trades.len(), 2);

    assert_eq!(trades[0].buy_key, "b1");
    assert_eq!(trades[0].sell_key, "a1");
    assert_eq!(trades[0].volume, 3);
    assert_eq!(trades[0].price, 10);
    assert_eq!(trades[0].aggressor_side, Some(Direction::Bid));
    assert_eq!(trades[0].timestamp, Timestamp(3));

    assert_eq!(trades[1].buy_key, "b1");
    assert_eq!(trades[1].sell_key, "a2");
    assert_eq!(trades[1].volume, 2);
    assert_eq!(trades[1].price, 11);
    assert_eq!(trades[1].aggressor_side, Some(Direction::Bid));
    assert_eq!(trades[1].timestamp, Timestamp(3));

    let (d, o) = ob.get_order(&"a2".to_string()).unwrap();
    assert_eq!(d, Direction::Ask);
    assert_eq!(o.volume, 2);
    assert_eq!(ob.get_order(&"b1".to_string()), None);
}

#[test]
fn simultaneous_timestamps_trade_at_midpoint() {
    let mut ob = Orderbook::new();
    ob.insert_ask("x".to_string(), order_at(10, 5, 7));
    ob.insert_bid("y".to_string(), order_at(12, 5, 7));

    let trades = ob.resolve_matches();
    assert_eq!(trades.len(), 1);
    let t = &trades[0];
    assert_eq!(t.volume, 5);
    assert_eq!(t.price, 11);
    assert_eq!(t.aggressor_side, None);
    assert_eq!(t.timestamp, Timestamp(7));
}

#[test]
fn ask_aggresses_when_it_arrives_later() {
    let mut ob = Orderbook::new();
    ob.insert_bid("y".to_string(), order_at(10, 5, 1));
    ob.insert_ask("x".to_string(), order_at(9, 5, 2));

    let trades = ob.resolve_matches();
    assert_eq!(trades.len(), 1);
    let t = &trades[0];
    // the resting bid sets the price; the later ask is the aggressor
    assert_eq!(t.price, 10);
    assert_eq!(t.aggressor_side, Some(Direction::Ask));
    assert_eq!(t.timestamp, Timestamp(2));
}

#[test]
fn volume_is_conserved_across_matching() {
    let mut ob = Orderbook::new();
    ob.insert_ask("a1".to_string(), order_at(10, 3, 1));
    ob.insert_ask("a2".to_string(), order_at(11, 4, 2));
    ob.insert_bid("b1".to_string(), order_at(12, 5, 3));
    ob.insert_bid("b2".to_string(), order_at(9, 2, 4));

    let inserted_asks: u64 = 3 + 4;
    let inserted_bids: u64 = 5 + 2;

    let trades = ob.resolve_matches();
    let traded: u64 = trades.iter().map(|t| t.volume).sum();

    let mut resting_asks: u64 = 0;
    let mut resting_bids: u64 = 0;
    for k in ["a1", "a2", "b1", "b2"] {
        if let Some((d, o)) = ob.get_order(&k.to_string()) {
            match d {
                Direction::Ask => resting_asks += o.volume,
                Direction::Bid => resting_bids += o.volume,
            }
        }
    }
    assert_eq!(traded + resting_asks, inserted_asks);
    assert_eq!(traded + resting_bids, inserted_bids);
}

#[test]
fn trade_cost_is_price_times_volume() {
    let mut ob = Orderbook::new();
    ob.insert_ask("x".to_string(), order_at(10, 5, 1));
    ob.insert_bid("y".to_string(), order_at(10, 5, 2));
    let trades = ob.resolve_matches();
    assert_eq!(trades[0].cost(), 50);
}

#[test]
fn odd_midpoint_rounds_down() {
    let mut ob = Orderbook::new();
    ob.insert_ask("x".to_string(), order_at(10, 1, 3));
    ob.insert_bid("y".to_string(), order_at(11, 1, 3));

    let trades = ob.resolve_matches();
    assert_eq!(trades.len(), 1);
    // (10 + 11) / 2 rounded down
    assert_eq!(trades[0].price, 10);
    assert_eq!(trades[0].aggressor_side, None);
}

#[test]
fn ask_head_absorbs_bids_then_empties() {
    let mut ob = Orderbook::new();
    ob.insert_ask("a1".to_string(), order_at(10, 10, 1));
    ob.insert_bid("b1".to_string(), order_at(10, 4, 2));
    ob.insert_bid("b2".to_string(), order_at(10, 6, 3));

    let trades = ob.resolve_matches();
    assert_eq!(trades.len(), 2);
    assert_eq!(trades[0].sell_key, "a1");
    assert_eq!(trades[0].buy_key, "b1");
    assert_eq!(trades[0].volume, 4);
    assert_eq!(trades[1].sell_key, "a1");
    assert_eq!(trades[1].buy_key, "b2");
    assert_eq!(trades[1].volume, 6);

    // the partially-filled head was fully consumed in the end: nothing
    // of it may survive the write-back
    assert_eq!(ob.get_order(&"a1".to_string()), None);
    assert_eq!(ob.get_order(&"b1".to_string()), None);
    assert_eq!(ob.get_order(&"b2".to_string()), None);
}
