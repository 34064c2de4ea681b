use orderbook::Direction;
use orderbook::Order;
use orderbook::Side;
use orderbook::Timestamp;

fn order_at(price: u64, volume: u64, ts: u64) -> Order {
    Order { price, volume, timestamp: Timestamp(ts) }
}

#[test]
fn it_works() {
    let mut ob = Side::new(Direction::Bid);

    ob.insert("first".to_string(), Order::new(10, 10));
    ob.insert("second".to_string(), Order::new(50, 10));
    ob.insert("third".to_string(), Order::new(5, 10));
    ob.insert("fourth".to_string(), Order::new(20, 10));
    ob.insert("fifth".to_string(), Order::new(13, 10));

    ob.remove(&"fourth".to_string());

    for i in 0..ob.len() {
        println!("{:?}", (ob.get_key(i), ob.get_order_by_index(i)));
    }
}

#[test]
fn test_set_first_volume() {
    let mut side = Side::new(Direction::Ask);

    side.set_first_volume(5);

    assert_eq!(side.len(), 0);

    side.insert("0".to_string(), Order::new(10, 1));

    assert_eq!(side.len(), 1);

    let first = side.get_order_by_index(0).unwrap();
    assert_eq!(first.volume, 1);

    side.set_first_volume(2);
    let first = side.get_order_by_index(0).unwrap();
    assert_eq!(first.volume, 2);
}

#[test]
fn bid_side_sorts_descending() {
    let mut side = Side::new(Direction::Bid);
    side.insert("first".to_string(), Order::new(10, 10));
    side.insert("second".to_string(), Order::new(50, 10));
    side.insert("third".to_string(), Order::new(5, 10));
    side.insert("fourth".to_string(), Order::new(20, 10));
    side.insert("fifth".to_string(), Order::new(13, 10));
    side.remove(&"fourth".to_string());

    let keys: Vec<String> = (0..side.len()).map(|i| side.get_key(i).clone()).collect();
    assert_eq!(keys, vec!["second", "fifth", "first", "third"]);
    let prices: Vec<u64> = (0..side.len())
        .map(|i| side.get_order_by_index(i).unwrap().price)
        .collect();
    assert_eq!(prices, vec![50, 13, 10, 5]);
}

#[test]
fn ask_side_sorts_ascending() {
    let mut side = Side::new(Direction::Ask);
    side.insert("a".to_string(), order_at(30, 1, 0));
    side.insert("b".to_string(), order_at(10, 2, 1));
    side.insert("c".to_string(), order_at(20, 3, 2));

    let prices: Vec<u64> = (0..side.len())
        .map(|i| side.get_order_by_index(i).unwrap().price)
        .collect();
    assert_eq!(prices, vec![10, 20, 30]);
    assert_eq!(side.get_key(0), "b");
    assert_eq!(side.get_order(&"c".to_string()).unwrap().volume, 3);
    assert_eq!(side.get_order(&"nope".to_string()), None);
}

#[test]
fn fifo_at_equal_price() {
    let mut asks = Side::new(Direction::Ask);
    asks.insert("a1".to_string(), order_at(10, 5, 1));
    asks.insert("a2".to_string(), order_at(10, 5, 2));

    assert_eq!(asks.get_key(0), "a1");
    assert_eq!(asks.get_key(1), "a2");

    asks.remove(&"a1".to_string());
    asks.insert("a3".to_string(), order_at(10, 5, 3));

    assert_eq!(asks.len(), 2);
    assert_eq!(asks.get_key(0), "a2");
    assert_eq!(asks.get_key(1), "a3");
}

#[test]
fn remove_first_n_drops_heads() {
    let mut asks = Side::new(Direction::Ask);
    asks.insert("a".to_string(), order_at(10, 1, 0));
    asks.insert("b".to_string(), order_at(11, 2, 1));
    asks.insert("c".to_string(), order_at(12, 3, 2));

    asks.remove_first_n(2);
    assert_eq!(asks.len(), 1);
    assert_eq!(asks.get_key(0), "c");
    assert_eq!(asks.get_order(&"a".to_string()), None);

    asks.remove_first_n(5);
    assert_eq!(asks.len(), 0);
    assert!(asks.is_empty());
}

#[test]
fn removed_key_is_forgotten_and_slot_reused() {
    let mut side = Side::new(Direction::Ask);
    for i in 0..4u64 {
        side.insert(format!("k{}", i), order_at(10 + i, 1, i));
    }
    for i in 0..4u64 {
        side.remove(&format!("k{}", i));
    }
    assert!(side.is_empty());
    for i in 0..4u64 {
        assert_eq!(side.get_order(&format!("k{}", i)), None);
    }
    // freed slots are reused: the ladder works as before after refilling
    for i in 0..4u64 {
        side.insert(format!("r{}", i), order_at(20 + i, 2, 10 + i));
    }
    assert_eq!(side.len(), 4);
    assert_eq!(side.get_key(0), "r0");
    assert_eq!(side.get_order(&"r3".to_string()).unwrap().price, 23);
}
