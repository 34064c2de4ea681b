use orderbook::Direction;
use orderbook::Order;
use orderbook::Orderbook;
use orderbook::Timestamp;

fn order_at(price: u64, volume: u64, ts: u64) -> Order {
    Order { price, volume, timestamp: Timestamp(ts) }
}

#[test]
fn get_routes_by_key() {
    let mut ob = Orderbook::new();
    ob.insert("a".to_string(), (Direction::Ask, order_at(15, 10, 0)));
    ob.insert("b".to_string(), (Direction::Bid, order_at(20, 15, 1)));

    let (side, order) = ob.get_order(&"a".to_string()).unwrap();
    assert_eq!(order.volume, 10);
    assert_eq!(order.price, 15);
    assert_eq!(side, Direction::Ask);

    let (side, order) = ob.get_order(&"b".to_string()).unwrap();
    assert_eq!(order.volume, 15);
    assert_eq!(order.price, 20);
    assert_eq!(side, Direction::Bid);

    assert_eq!(ob.get_order(&"c".to_string()), None);
}

#[test]
fn a_key_rests_on_one_side_only() {
    let mut ob = Orderbook::new();
    ob.insert_ask("k".to_string(), order_at(15, 10, 0));
    let (side, _) = ob.get_order(&"k".to_string()).unwrap();
    assert_eq!(side, Direction::Ask);

    // cancel, then the same key may rest on the other side
    ob.remove(&"k".to_string());
    assert_eq!(ob.get_order(&"k".to_string()), None);
    ob.insert_bid("k".to_string(), order_at(14, 2, 1));
    let (side, order) = ob.get_order(&"k".to_string()).unwrap();
    assert_eq!(side, Direction::Bid);
    assert_eq!(order.volume, 2);
}

#[test]
fn remove_unknown_key_is_a_noop() {
    let mut ob = Orderbook::new();
    ob.insert_ask("a".to_string(), order_at(15, 10, 0));
    ob.remove(&"ghostly".to_string());
    assert!(ob.get_order(&"a".to_string()).is_some());
}

#[test]
fn insert_returns_ladder_position() {
    let mut ob = Orderbook::new();
    assert_eq!(ob.insert_ask("a".to_string(), order_at(20, 1, 0)), 0);
    // a better ask goes to the head
    assert_eq!(ob.insert_ask("b".to_string(), order_at(10, 1, 1)), 0);
    // an equal price trails the resting order
    assert_eq!(ob.insert_ask("c".to_string(), order_at(10, 1, 2)), 1);
    // the worst price goes to the back
    assert_eq!(ob.insert_ask("d".to_string(), order_at(30, 1, 3)), 3);
}

#[test]
fn order_cost_widens() {
    let o = order_at(u64::MAX, u64::MAX, 0);
    assert_eq!(o.cost(), (u64::MAX as u128) * (u64::MAX as u128));
    assert_eq!(Order::new(3, 7).cost(), 21);
}

#[test]
fn default_book_is_empty() {
    let mut ob = Orderbook::default();
    assert_eq!(ob.get_order(&"x".to_string()), None);
    assert_eq!(ob.resolve_matches().len(), 0);
}
