//! The top-level registry: one book per instrument, routed by the
//! instrument identifier. Exposes the boundary contract — submit an
//! order and settle any crosses at once, cancel an order, peek at the
//! best of a side.

use vstd::prelude::*;

use crate::book::{add_model, cancel_model, has_order_id, match_model, side_queue, BookView,
    StickerOrderBook};
use crate::order::{best_idx, Order, OrderError, OrderIndex, OrderSide, Trade};

verus! {

/// The empty per-instrument book state.
pub open spec fn empty_book_view() -> BookView {
    BookView {
        orders: Seq::<Order>::empty(),
        bids: Seq::<OrderIndex>::empty(),
        asks: Seq::<OrderIndex>::empty(),
    }
}

/// Some registry slot carries the instrument `key`.
pub open spec fn has_book(s: Seq<(String, StickerOrderBook)>, key: Seq<char>) -> bool {
    exists|j: int| 0 <= j < s.len() && (#[trigger] s[j]).0@ == key
}

/// The leftmost registry slot carrying the instrument `key`.
pub open spec fn book_idx(s: Seq<(String, StickerOrderBook)>, key: Seq<char>) -> int
    decreases s.len(),
{
    if s.len() == 0 {
        0
    } else if s[0].0@ == key {
        0
    } else {
        1 + book_idx(s.skip(1), key)
    }
}

/// `book_idx` finds the leftmost slot carrying `key`.
pub proof fn lemma_book_idx(s: Seq<(String, StickerOrderBook)>, key: Seq<char>)
    requires
        has_book(s, key),
    ensures
        0 <= book_idx(s, key) < s.len(),
        s[book_idx(s, key)].0@ == key,
        forall|k: int| 0 <= k < book_idx(s, key) ==> (#[trigger] s[k]).0@ != key,
    decreases s.len(),
{
    if s.len() > 0 && s[0].0@ != key {
        let j = choose|j: int| 0 <= j < s.len() && (#[trigger] s[j]).0@ == key;
        assert(s.skip(1)[j - 1] == s[j]);
        lemma_book_idx(s.skip(1), key);
        assert forall|k: int| 0 <= k < book_idx(s, key) implies (#[trigger] s[k]).0@ != key by {
            if k > 0 {
                assert(s.skip(1)[k - 1] == s[k]);
            }
        }
    }
}

/// The registry invariant: one slot per instrument, every book well
/// formed.
pub open spec fn reg_wf(s: Seq<(String, StickerOrderBook)>) -> bool {
    (forall|i: int, j: int|
        0 <= i < j < s.len() ==> (#[trigger] s[i]).0@ != (#[trigger] s[j]).0@) && (forall|i: int|
        0 <= i < s.len() ==> (#[trigger] s[i]).1.wf())
}

/// The registry of all instruments' books.
pub struct OrderBook {
    books: Vec<(String, StickerOrderBook)>,
}

impl View for OrderBook {
    type V = Seq<(String, StickerOrderBook)>;

    closed spec fn view(&self) -> Seq<(String, StickerOrderBook)> {
        self.books@
    }
}

/// The slot of the first book carrying `key`, if any.
fn find_book_pos(books: &Vec<(String, StickerOrderBook)>, key: &String) -> (r: Option<usize>)
    ensures
        match r {
            Some(i) => has_book(books@, key@) && i as int == book_idx(books@, key@) && i
                < books.len() && books@[i as int].0@ == key@,
            None => !has_book(books@, key@),
        },
{
    let mut i: usize = 0;
    while i < books.len()
        invariant
            i <= books.len(),
            forall|k: int| 0 <= k < i ==> (#[trigger] books@[k]).0@ != key@,
        decreases books.len() - i,
    {
        if books[i].0 == *key {
            proof {
                lemma_book_idx(books@, key@);
            }
            return Some(i);
        }
        i += 1;
    }
    None
}

impl OrderBook {
    /// The registry invariant, stated over the abstract state.
    pub open spec fn wf(&self) -> bool {
        reg_wf(self@)
    }

    /// An empty registry.
    pub fn new() -> (r: Self)
        ensures
            r@ == Seq::<(String, StickerOrderBook)>::empty(),
            r.wf(),
    {
        OrderBook { books: Vec::new() }
    }

    /// Admits an order into its instrument's book — created on first
    /// use — and settles any crosses at once. A non-positive price is
    /// rejected at this boundary before it reaches any book; a reused
    /// identifier within the instrument is rejected whole. On success
    /// the trades and the filled orders are returned.
    pub fn submit(&mut self, order: Order, now: u64) -> (r: Result<
        (Vec<Trade>, Vec<Order>),
        OrderError,
    >)
        requires
            old(self).wf(),
        ensures
            final(self).wf(),
            order.price <= 0 ==> r == Err::<(Vec<Trade>, Vec<Order>), OrderError>(
                OrderError::InvalidPrice,
            ) && final(self)@ == old(self)@,
            order.price > 0 && !has_book(old(self)@, order.sticker_id@) ==> ({
                let m = match_model(add_model(empty_book_view(), order), now);
                &&& final(self)@.len() == old(self)@.len() + 1
                &&& (forall|k: int|
                    0 <= k < old(self)@.len() ==> final(self)@[k] == old(self)@[k])
                &&& final(self)@.last().0@ == order.sticker_id@
                &&& final(self)@.last().1@ == m.book
                &&& match r {
                    Ok(t) => t.0@ == m.trades && t.1@ == m.filled,
                    Err(_) => false,
                }
            }),
            order.price > 0 && has_book(old(self)@, order.sticker_id@) ==> ({
                let i = book_idx(old(self)@, order.sticker_id@);
                let bv = old(self)@[i].1@;
                if has_order_id(bv.orders, order.id) {
                    r == Err::<(Vec<Trade>, Vec<Order>), OrderError>(OrderError::DuplicateOrderId)
                        && final(self)@ == old(self)@
                } else {
                    let m = match_model(add_model(bv, order), now);
                    &&& final(self)@.len() == old(self)@.len()
                    &&& (forall|k: int|
                        0 <= k < old(self)@.len() && k != i ==> final(self)@[k] == old(self)@[k])
                    &&& final(self)@[i].0 == old(self)@[i].0
                    &&& final(self)@[i].1@ == m.book
                    &&& match r {
                        Ok(t) => t.0@ == m.trades && t.1@ == m.filled,
                        Err(_) => false,
                    }
                }
            }),
    {
        if order.price <= 0 {
            return Err(OrderError::InvalidPrice);
        }
        let ghost s0 = self@;
        match find_book_pos(&self.books, &order.sticker_id) {
            None => {
                let key = order.sticker_id.clone();
                let mut book = StickerOrderBook::new();
                let added = book.add_order(order);
                proof {
                    assert(added is Ok);
                }
                let (trades, filled) = book.match_order(now);
                self.books.push((key, book));
                proof {
                    assert forall|i: int, j: int|
                        0 <= i < j < self@.len() implies (#[trigger] self@[i]).0@ != (
                    #[trigger] self@[j]).0@ by {
                        if j < s0.len() {
                            assert(self@[i] == s0[i] && self@[j] == s0[j]);
                        } else {
                            assert(self@[i] == s0[i]);
                            assert(!(0 <= i < s0.len() && (#[trigger] s0[i]).0@
                                == order.sticker_id@));
                        }
                    }
                    assert forall|i: int| 0 <= i < self@.len() implies (
                    #[trigger] self@[i]).1.wf() by {
                        if i < s0.len() {
                            assert(self@[i] == s0[i]);
                        }
                    }
                }
                Ok((trades, filled))
            },
            Some(i) => {
                let mut pair = self.books.remove(i);
                let added = pair.1.add_order(order);
                match added {
                    Err(e) => {
                        let ghost pair_v = pair;
                        self.books.insert(i, pair);
                        proof {
                            s0.remove_ensures(i as int);
                            assert(pair_v == s0[i as int]);
                            assert(self@ =~= s0);
                        }
                        Err(e)
                    },
                    Ok(()) => {
                        let (trades, filled) = pair.1.match_order(now);
                        self.books.insert(i, pair);
                        proof {
                            assert forall|k: int|
                                0 <= k < s0.len() && k != i implies (#[trigger] self@[k]) == s0[k]
                            by {
                                s0.remove_ensures(i as int);
                            }
                            assert(self@.len() == s0.len());
                            assert forall|a: int, b: int|
                                0 <= a < b < self@.len() implies (#[trigger] self@[a]).0@ != (
                            #[trigger] self@[b]).0@ by {
                                assert(self@[a].0@ == s0[a].0@);
                                assert(self@[b].0@ == s0[b].0@);
                            }
                            assert forall|k: int| 0 <= k < self@.len() implies (
                            #[trigger] self@[k]).1.wf() by {
                                if k != i {
                                    assert(self@[k] == s0[k]);
                                }
                            }
                        }
                        Ok((trades, filled))
                    },
                }
            },
        }
    }

    /// Cancels an order of an instrument. An unknown instrument or an
    /// unknown identifier within it is rejected, the registry
    /// unchanged.
    pub fn cancel(&mut self, sticker_id: &String, order_id: i64) -> (r: Result<(), OrderError>)
        requires
            old(self).wf(),
        ensures
            final(self).wf(),
            !has_book(old(self)@, sticker_id@) ==> r == Err::<(), OrderError>(
                OrderError::OrderNotFound,
            ) && final(self)@ == old(self)@,
            has_book(old(self)@, sticker_id@) ==> ({
                let i = book_idx(old(self)@, sticker_id@);
                let bv = old(self)@[i].1@;
                &&& (r is Ok <==> has_order_id(bv.orders, order_id))
                &&& r is Err ==> r == Err::<(), OrderError>(OrderError::OrderNotFound)
                    && final(self)@ == old(self)@
                &&& r is Ok ==> ({
                    &&& final(self)@.len() == old(self)@.len()
                    &&& (forall|k: int|
                        0 <= k < old(self)@.len() && k != i ==> final(self)@[k] == old(self)@[k])
                    &&& final(self)@[i].0 == old(self)@[i].0
                    &&& final(self)@[i].1@ == cancel_model(bv, order_id)
                })
            }),
    {
        let ghost s0 = self@;
        match find_book_pos(&self.books, sticker_id) {
            None => Err(OrderError::OrderNotFound),
            Some(i) => {
                let mut pair = self.books.remove(i);
                let removed = pair.1.remove_order(order_id);
                let ghost pair_v = pair;
                self.books.insert(i, pair);
                proof {
                    s0.remove_ensures(i as int);
                    if removed is Err {
                        assert(pair_v == s0[i as int]);
                        assert(self@ =~= s0);
                    }
                    assert forall|a: int, b: int|
                        0 <= a < b < self@.len() implies (#[trigger] self@[a]).0@ != (
                    #[trigger] self@[b]).0@ by {
                        assert(self@[a].0@ == s0[a].0@);
                        assert(self@[b].0@ == s0[b].0@);
                    }
                    assert forall|k: int| 0 <= k < self@.len() implies (
                    #[trigger] self@[k]).1.wf() by {
                        if k != i {
                            assert(self@[k] == s0[k]);
                        }
                    }
                }
                match removed {
                    Ok(()) => Ok(()),
                    Err(_) => Err(OrderError::OrderNotFound),
                }
            },
        }
    }

    /// The best still-live order of a side of an instrument, if the
    /// instrument has a book and that side is nonempty.
    pub fn peek(&self, sticker_id: &String, side: OrderSide) -> (r: Option<OrderIndex>)
        ensures
            !has_book(self@, sticker_id@) ==> r is None,
            has_book(self@, sticker_id@) ==> ({
                let q = side_queue(self@[book_idx(self@, sticker_id@)].1@, side);
                if q.len() == 0 {
                    r is None
                } else {
                    r == Some(q[best_idx(q, side)])
                }
            }),
    {
        match find_book_pos(&self.books, sticker_id) {
            None => None,
            Some(i) => self.books[i].1.peek_best(side),
        }
    }
}

} // verus!
