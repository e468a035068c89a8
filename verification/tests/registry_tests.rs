use order_book::order::{Order, OrderError, OrderSide};
use order_book::registry::OrderBook;

fn order_for(sticker: &str, id: i64, price: i64, created_at: u64, side: OrderSide, creator: &str) -> Order {
    Order {
        id,
        sticker_id: String::from(sticker),
        creator_user_id: String::from(creator),
        fulfiller_user_id: None,
        is_fulfilled: false,
        price,
        order_side: side,
        created_at,
    }
}

#[test]
fn submit_rejects_non_positive_price() {
    let mut reg = OrderBook::new();
    let err = reg.submit(order_for("s1", 1, 0, 1, OrderSide::Bid, "alice"), 9).unwrap_err();
    assert_eq!(err, OrderError::InvalidPrice);
    let err = reg.submit(order_for("s1", 1, -5, 1, OrderSide::Bid, "alice"), 9).unwrap_err();
    assert_eq!(err, OrderError::InvalidPrice);
    // nothing was admitted
    assert_eq!(reg.peek(&String::from("s1"), OrderSide::Bid), None);
}

#[test]
fn submit_routes_by_instrument_and_matches() {
    let mut reg = OrderBook::new();
    let (t, f) = reg.submit(order_for("s1", 1, 50, 1, OrderSide::Bid, "alice"), 9).unwrap();
    assert!(t.is_empty());
    assert!(f.is_empty());
    // a different instrument cannot cross with the first
    let (t, _) = reg.submit(order_for("s2", 2, 40, 2, OrderSide::Ask, "bob"), 9).unwrap();
    assert!(t.is_empty());
    assert_eq!(reg.peek(&String::from("s1"), OrderSide::Bid).unwrap().id, 1);
    assert_eq!(reg.peek(&String::from("s2"), OrderSide::Ask).unwrap().id, 2);
    // the same instrument crosses at the maker's price
    let (t, f) = reg.submit(order_for("s1", 3, 40, 3, OrderSide::Ask, "carol"), 9).unwrap();
    assert_eq!(t.len(), 1);
    assert_eq!(t[0].bid_order_id, 1);
    assert_eq!(t[0].ask_order_id, 3);
    assert_eq!(t[0].execution_price, 50);
    assert_eq!(t[0].matched_at, 9);
    assert_eq!(t[0].sticker_id, "s1");
    assert_eq!(f.len(), 2);
    assert_eq!(reg.peek(&String::from("s1"), OrderSide::Bid), None);
    assert_eq!(reg.peek(&String::from("s1"), OrderSide::Ask), None);
    // the other instrument's book is untouched
    assert_eq!(reg.peek(&String::from("s2"), OrderSide::Ask).unwrap().id, 2);
}

#[test]
fn submit_rejects_duplicate_id_within_instrument() {
    let mut reg = OrderBook::new();
    reg.submit(order_for("s1", 1, 30, 1, OrderSide::Bid, "alice"), 9).unwrap();
    let err = reg.submit(order_for("s1", 1, 31, 2, OrderSide::Bid, "bob"), 9).unwrap_err();
    assert_eq!(err, OrderError::DuplicateOrderId);
    // the same identifier under another instrument is fine
    reg.submit(order_for("s2", 1, 30, 3, OrderSide::Bid, "carol"), 9).unwrap();
}

#[test]
fn cancel_through_registry() {
    let mut reg = OrderBook::new();
    reg.submit(order_for("s1", 1, 30, 1, OrderSide::Bid, "alice"), 9).unwrap();
    assert_eq!(
        reg.cancel(&String::from("missing"), 1).unwrap_err(),
        OrderError::OrderNotFound
    );
    assert_eq!(reg.cancel(&String::from("s1"), 2).unwrap_err(), OrderError::OrderNotFound);
    reg.cancel(&String::from("s1"), 1).unwrap();
    assert_eq!(reg.cancel(&String::from("s1"), 1).unwrap_err(), OrderError::OrderNotFound);
    assert_eq!(reg.peek(&String::from("s1"), OrderSide::Bid), None);
}

#[test]
fn peek_on_unknown_instrument_is_none() {
    let reg = OrderBook::new();
    assert_eq!(reg.peek(&String::from("nowhere"), OrderSide::Bid), None);
    assert_eq!(reg.peek(&String::from("nowhere"), OrderSide::Ask), None);
}
