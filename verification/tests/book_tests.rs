use order_book::book::StickerOrderBook;
use order_book::order::{Order, OrderError, OrderSide};
use rand::distributions::{Alphanumeric, DistString};

fn _create_test_order(id: i64, price: i64, created_at: u64, order_type: OrderSide) -> Order {
    Order {
        id,
        sticker_id: Alphanumeric.sample_string(&mut rand::thread_rng(), 16),
        creator_user_id: Alphanumeric.sample_string(&mut rand::thread_rng(), 16),
        fulfiller_user_id: None,
        is_fulfilled: false,
        price,
        order_side: order_type,
        created_at,
    }
}

#[test]
fn order_book_test_basic_add_sell_order_price1() {
    let id1 = 1;
    let id2 = 2;
    assert_ne!(id1, id2);
    let now = 1_000;
    let order1: Order = _create_test_order(id1, 25, now, OrderSide::Ask);
    let order2: Order = _create_test_order(id2, 15, now, OrderSide::Ask);
    let mut order_book = StickerOrderBook::new();
    order_book.add_order(order1).unwrap();
    order_book.add_order(order2).unwrap();
    let res1 = order_book.next_ask_order();
    let res2 = order_book.next_ask_order();
    let res3 = order_book.next_ask_order();
    assert!(res1.is_some());
    assert!(res2.is_some());
    assert_eq!(res3, None);
    if let Some(first_option) = res1 {
        assert_eq!(first_option.id, id2);
    } else {
        panic!("first_option should not be null");
    }
    if let Some(second_option) = res2 {
        assert_eq!(second_option.id, id1);
    } else {
        panic!("second_option should not be null");
    }
}

#[test]
fn order_book_test_basic_add_sell_order_time1() {
    let id1 = 1;
    let id2 = 2;
    let now = 1_000;
    let ten_minutes = 600;
    let future_time = now + ten_minutes;
    let order1: Order = _create_test_order(id1, 15, now, OrderSide::Ask);
    let order2: Order = _create_test_order(id2, 15, future_time, OrderSide::Ask);

    let mut order_book = StickerOrderBook::new();
    order_book.add_order(order1).unwrap();
    order_book.add_order(order2).unwrap();
    let res1 = order_book.next_ask_order();
    let res2 = order_book.next_ask_order();
    let res3 = order_book.next_ask_order();
    assert!(res1.is_some());
    assert!(res2.is_some());
    assert_eq!(res3, None);
    if let Some(first_option) = res1 {
        assert_eq!(first_option.id, id1);
    } else {
        panic!("first_option should not be null");
    }
    if let Some(second_option) = res2 {
        assert_eq!(second_option.id, id2);
    } else {
        panic!("second_option should not be null");
    }
}

#[test]
fn order_book_test_basic_add_buy_order_price1() {
    let id1 = 1;
    let id2 = 2;
    assert_ne!(id1, id2);
    let now = 1_000;
    let order1: Order = _create_test_order(id1, 25, now, OrderSide::Bid);
    let order2: Order = _create_test_order(id2, 15, now, OrderSide::Bid);

    let mut order_book = StickerOrderBook::new();
    order_book.add_order(order1).unwrap();
    order_book.add_order(order2).unwrap();
    let res1 = order_book.next_bid_order();
    let res2 = order_book.next_bid_order();
    let res3 = order_book.next_bid_order();
    assert!(res1.is_some());
    assert!(res2.is_some());
    assert_eq!(res3, None);
    if let Some(first_option) = res1 {
        assert_eq!(first_option.id, id1);
    } else {
        panic!("first_option should not be null");
    }
    if let Some(second_option) = res2 {
        assert_eq!(second_option.id, id2);
    } else {
        panic!("second_option should not be null");
    }
}

#[test]
fn order_book_test_basic_add_buy_order_time1() {
    let id1 = 1;
    let id2 = 2;
    let now = 1_000;
    let ten_minutes = 600;
    let future_time = now + ten_minutes;
    let order1: Order = _create_test_order(id1, 15, now, OrderSide::Bid);
    let order2: Order = _create_test_order(id2, 15, future_time, OrderSide::Bid);
    let mut order_book = StickerOrderBook::new();
    order_book.add_order(order1).unwrap();
    order_book.add_order(order2).unwrap();
    let res1 = order_book.next_bid_order();
    let res2 = order_book.next_bid_order();
    let res3 = order_book.next_bid_order();
    assert!(res1.is_some());
    assert!(res2.is_some());
    assert_eq!(res3, None);
    if let Some(first_option) = res1 {
        assert_eq!(first_option.id, id1);
    } else {
        panic!("first_option should not be null");
    }
    if let Some(second_option) = res2 {
        assert_eq!(second_option.id, id2);
    } else {
        panic!("second_option should not be null");
    }
}

fn fixed_order(id: i64, price: i64, created_at: u64, side: OrderSide, creator: &str) -> Order {
    Order {
        id,
        sticker_id: String::from("sticker-a"),
        creator_user_id: String::from(creator),
        fulfiller_user_id: None,
        is_fulfilled: false,
        price,
        order_side: side,
        created_at,
    }
}

#[test]
fn duplicate_id_is_rejected_without_mutation() {
    let mut book = StickerOrderBook::new();
    book.add_order(fixed_order(7, 30, 1, OrderSide::Bid, "alice")).unwrap();
    let err = book.add_order(fixed_order(7, 99, 2, OrderSide::Ask, "bob")).unwrap_err();
    assert_eq!(err, OrderError::DuplicateOrderId);
    // the rejected ask never entered the book
    assert_eq!(book.next_ask_order(), None);
    let bid = book.next_bid_order().expect("the first order must still rest");
    assert_eq!(bid.id, 7);
    assert_eq!(bid.price, 30);
}

#[test]
fn cancel_erases_presence_and_repeats_fail() {
    let mut book = StickerOrderBook::new();
    book.add_order(fixed_order(1, 20, 1, OrderSide::Bid, "alice")).unwrap();
    book.add_order(fixed_order(2, 21, 2, OrderSide::Bid, "bob")).unwrap();
    book.add_order(fixed_order(3, 40, 3, OrderSide::Ask, "carol")).unwrap();
    book.remove_order(2).unwrap();
    assert_eq!(book.remove_order(2).unwrap_err(), OrderError::OrderNotFound);
    loop {
        match book.next_bid_order() {
            Some(e) => assert_ne!(e.id, 2),
            None => break,
        }
    }
    loop {
        match book.next_ask_order() {
            Some(e) => assert_ne!(e.id, 2),
            None => break,
        }
    }
}

#[test]
fn cancel_of_unknown_id_fails() {
    let mut book = StickerOrderBook::new();
    assert_eq!(book.remove_order(99).unwrap_err(), OrderError::OrderNotFound);
}

#[test]
fn add_then_cancel_restores_previous_pops() {
    // Two books given the same orders; one also sees an add/cancel
    // pair. Their observable pop sequences stay identical.
    let mut plain = StickerOrderBook::new();
    let mut round = StickerOrderBook::new();
    for book in [&mut plain, &mut round] {
        book.add_order(fixed_order(1, 20, 1, OrderSide::Bid, "alice")).unwrap();
        book.add_order(fixed_order(2, 35, 2, OrderSide::Ask, "bob")).unwrap();
    }
    round.add_order(fixed_order(3, 22, 3, OrderSide::Bid, "carol")).unwrap();
    round.remove_order(3).unwrap();
    loop {
        let a = plain.next_bid_order();
        let b = round.next_bid_order();
        assert_eq!(a, b);
        if a.is_none() {
            break;
        }
    }
    loop {
        let a = plain.next_ask_order();
        let b = round.next_ask_order();
        assert_eq!(a, b);
        if a.is_none() {
            break;
        }
    }
}

#[test]
fn peek_best_does_not_remove() {
    let mut book = StickerOrderBook::new();
    book.add_order(fixed_order(1, 25, 1, OrderSide::Ask, "alice")).unwrap();
    book.add_order(fixed_order(2, 15, 2, OrderSide::Ask, "bob")).unwrap();
    let peeked = book.peek_best(OrderSide::Ask).expect("an ask rests");
    assert_eq!(peeked.id, 2);
    let peeked_again = book.peek_best(OrderSide::Ask).expect("still resting");
    assert_eq!(peeked_again.id, 2);
    assert_eq!(book.next_ask_order().unwrap().id, 2);
}

#[test]
fn match_bid_50_ask_40_produces_one_trade() {
    let mut book = StickerOrderBook::new();
    book.add_order(fixed_order(1, 50, 10, OrderSide::Bid, "alice")).unwrap();
    book.add_order(fixed_order(2, 40, 11, OrderSide::Ask, "bob")).unwrap();
    let (trades, filled) = book.match_order(99);
    assert_eq!(trades.len(), 1);
    assert_eq!(trades[0].bid_order_id, 1);
    assert_eq!(trades[0].ask_order_id, 2);
    // the bid rested earlier, so the maker's price, 50, executes
    assert_eq!(trades[0].execution_price, 50);
    assert_eq!(trades[0].matched_at, 99);
    assert_eq!(trades[0].sticker_id, "sticker-a");
    assert_eq!(filled.len(), 2);
    assert!(filled[0].is_fulfilled);
    assert!(filled[1].is_fulfilled);
    assert_eq!(filled[0].id, 1);
    assert_eq!(filled[1].id, 2);
    assert_eq!(filled[0].fulfiller_user_id.as_deref(), Some("bob"));
    assert_eq!(filled[1].fulfiller_user_id.as_deref(), Some("alice"));
    // both orders left the book
    assert_eq!(book.peek_best(OrderSide::Bid), None);
    assert_eq!(book.peek_best(OrderSide::Ask), None);
    assert_eq!(book.next_bid_order(), None);
    assert_eq!(book.next_ask_order(), None);
}

#[test]
fn match_uses_maker_price_when_ask_rests_first() {
    let mut book = StickerOrderBook::new();
    book.add_order(fixed_order(1, 40, 10, OrderSide::Ask, "alice")).unwrap();
    book.add_order(fixed_order(2, 50, 11, OrderSide::Bid, "bob")).unwrap();
    let (trades, _filled) = book.match_order(99);
    assert_eq!(trades.len(), 1);
    // the ask rested earlier, so the maker's price, 40, executes
    assert_eq!(trades[0].execution_price, 40);
    assert_eq!(trades[0].bid_order_id, 2);
    assert_eq!(trades[0].ask_order_id, 1);
}

#[test]
fn match_settles_every_cross_and_leaves_none() {
    let mut book = StickerOrderBook::new();
    book.add_order(fixed_order(1, 50, 1, OrderSide::Bid, "alice")).unwrap();
    book.add_order(fixed_order(2, 49, 2, OrderSide::Bid, "bob")).unwrap();
    book.add_order(fixed_order(3, 40, 3, OrderSide::Ask, "carol")).unwrap();
    book.add_order(fixed_order(4, 41, 4, OrderSide::Ask, "dave")).unwrap();
    book.add_order(fixed_order(5, 60, 5, OrderSide::Ask, "erin")).unwrap();
    let (trades, filled) = book.match_order(7);
    assert_eq!(trades.len(), 2);
    assert_eq!(trades[0].bid_order_id, 1);
    assert_eq!(trades[0].ask_order_id, 3);
    assert_eq!(trades[0].execution_price, 50);
    assert_eq!(trades[1].bid_order_id, 2);
    assert_eq!(trades[1].ask_order_id, 4);
    assert_eq!(trades[1].execution_price, 49);
    assert_eq!(filled.len(), 4);
    // no residual cross: the best bid, if any, sits under the best ask
    let best_bid = book.peek_best(OrderSide::Bid);
    let best_ask = book.peek_best(OrderSide::Ask);
    assert_eq!(best_bid, None);
    assert_eq!(best_ask.unwrap().price, 60);
}

#[test]
fn match_leaves_uncrossed_book_alone() {
    let mut book = StickerOrderBook::new();
    book.add_order(fixed_order(1, 30, 1, OrderSide::Bid, "alice")).unwrap();
    book.add_order(fixed_order(2, 35, 2, OrderSide::Ask, "bob")).unwrap();
    let (trades, filled) = book.match_order(7);
    assert!(trades.is_empty());
    assert!(filled.is_empty());
    assert_eq!(book.peek_best(OrderSide::Bid).unwrap().id, 1);
    assert_eq!(book.peek_best(OrderSide::Ask).unwrap().id, 2);
}

#[test]
fn equal_price_equal_time_pops_are_stable() {
    // At a full tie the yield order is unspecified but stable: two
    // identically built books agree.
    let mut one = StickerOrderBook::new();
    let mut two = StickerOrderBook::new();
    for book in [&mut one, &mut two] {
        book.add_order(fixed_order(1, 15, 5, OrderSide::Ask, "alice")).unwrap();
        book.add_order(fixed_order(2, 15, 5, OrderSide::Ask, "bob")).unwrap();
    }
    assert_eq!(one.next_ask_order(), two.next_ask_order());
    assert_eq!(one.next_ask_order(), two.next_ask_order());
    assert_eq!(one.next_ask_order(), None);
    assert_eq!(two.next_ask_order(), None);
}
