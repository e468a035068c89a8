//! The per-instrument book: the authoritative order list and the two
//! side queues derived from it, with add, cancel, peek, pop and the
//! crossing algorithm.
//!
//! The order list is the single source of truth; queue entries are
//! purged eagerly on cancel, so every queue entry always stands for a
//! live order of its side.

use vstd::prelude::*;

use crate::order::{best_idx, better, lemma_best_idx, spec_better, Order, OrderError, OrderIndex,
    OrderSide, Trade};

verus! {

/// The abstract state of one book: the order list and both queues.
#[verifier::ext_equal]
pub ghost struct BookView {
    pub orders: Seq<Order>,
    pub bids: Seq<OrderIndex>,
    pub asks: Seq<OrderIndex>,
}

/// Some order in `s` carries `id`.
pub open spec fn has_order_id(s: Seq<Order>, id: i64) -> bool {
    exists|j: int| 0 <= j < s.len() && (#[trigger] s[j]).id == id
}

/// The leftmost position in `s` whose order carries `id`.
pub open spec fn order_idx(s: Seq<Order>, id: i64) -> int
    decreases s.len(),
{
    if s.len() == 0 {
        0
    } else if s[0].id == id {
        0
    } else {
        1 + order_idx(s.skip(1), id)
    }
}

/// Some entry in `q` carries `id`.
pub open spec fn has_queue_id(q: Seq<OrderIndex>, id: i64) -> bool {
    exists|j: int| 0 <= j < q.len() && (#[trigger] q[j]).id == id
}

/// The leftmost position in `q` whose entry carries `id`.
pub open spec fn queue_idx(q: Seq<OrderIndex>, id: i64) -> int
    decreases q.len(),
{
    if q.len() == 0 {
        0
    } else if q[0].id == id {
        0
    } else {
        1 + queue_idx(q.skip(1), id)
    }
}

/// `order_idx` finds the leftmost order carrying `id`.
pub proof fn lemma_order_idx(s: Seq<Order>, id: i64)
    requires
        has_order_id(s, id),
    ensures
        0 <= order_idx(s, id) < s.len(),
        s[order_idx(s, id)].id == id,
        forall|k: int| 0 <= k < order_idx(s, id) ==> (#[trigger] s[k]).id != id,
    decreases s.len(),
{
    if s.len() > 0 && s[0].id != id {
        let j = choose|j: int| 0 <= j < s.len() && (#[trigger] s[j]).id == id;
        assert(s.skip(1)[j - 1] == s[j]);
        lemma_order_idx(s.skip(1), id);
        assert forall|k: int| 0 <= k < order_idx(s, id) implies (#[trigger] s[k]).id != id by {
            if k > 0 {
                assert(s.skip(1)[k - 1] == s[k]);
            }
        }
    }
}

/// `queue_idx` finds the leftmost entry carrying `id`.
pub proof fn lemma_queue_idx(q: Seq<OrderIndex>, id: i64)
    requires
        has_queue_id(q, id),
    ensures
        0 <= queue_idx(q, id) < q.len(),
        q[queue_idx(q, id)].id == id,
        forall|k: int| 0 <= k < queue_idx(q, id) ==> (#[trigger] q[k]).id != id,
    decreases q.len(),
{
    if q.len() > 0 && q[0].id != id {
        let j = choose|j: int| 0 <= j < q.len() && (#[trigger] q[j]).id == id;
        assert(q.skip(1)[j - 1] == q[j]);
        lemma_queue_idx(q.skip(1), id);
        assert forall|k: int| 0 <= k < queue_idx(q, id) implies (#[trigger] q[k]).id != id by {
            if k > 0 {
                assert(q.skip(1)[k - 1] == q[k]);
            }
        }
    }
}

/// No two orders in `s` share an identifier.
pub open spec fn orders_distinct(s: Seq<Order>) -> bool {
    forall|i: int, j: int|
        0 <= i < j < s.len() ==> (#[trigger] s[i]).id != (#[trigger] s[j]).id
}

/// No two entries in `q` share an identifier.
pub open spec fn queue_distinct(q: Seq<OrderIndex>) -> bool {
    forall|i: int, j: int|
        0 <= i < j < q.len() ==> (#[trigger] q[i]).id != (#[trigger] q[j]).id
}

/// `o` is the live order the queue entry `e` stands for.
pub open spec fn order_matches_entry(o: Order, e: OrderIndex) -> bool {
    o.id == e.id && o.price == e.price && o.created_at == e.timestamp
        && o.order_side == e.order_side
}

/// Some order in `s` is the one `e` stands for.
pub open spec fn entry_backed(s: Seq<Order>, e: OrderIndex) -> bool {
    exists|j: int| 0 <= j < s.len() && order_matches_entry(#[trigger] s[j], e)
}

/// A side queue is well formed: entries are pairwise distinct by
/// identifier, carry the queue's side, and each stands for a live
/// order of the list.
pub open spec fn queue_wf(s: Seq<Order>, q: Seq<OrderIndex>, side: OrderSide) -> bool {
    queue_distinct(q) && forall|i: int|
        0 <= i < q.len() ==> (#[trigger] q[i]).order_side == side && entry_backed(s, q[i])
}

/// The book invariant: identifiers unique in the order list, both side
/// queues well formed against it.
pub open spec fn book_wf(v: BookView) -> bool {
    orders_distinct(v.orders) && queue_wf(v.orders, v.bids, OrderSide::Bid)
        && queue_wf(v.orders, v.asks, OrderSide::Ask)
}

/// The queue of the given side.
pub open spec fn side_queue(v: BookView, side: OrderSide) -> Seq<OrderIndex> {
    match side {
        OrderSide::Bid => v.bids,
        OrderSide::Ask => v.asks,
    }
}

/// The sort key derived from an order.
pub open spec fn index_of_order(o: Order) -> OrderIndex {
    OrderIndex { id: o.id, price: o.price, timestamp: o.created_at, order_side: o.order_side }
}

/// The state after a successful add: the order at the end of the list,
/// its key at the end of its side's queue.
pub open spec fn add_model(v: BookView, o: Order) -> BookView {
    match o.order_side {
        OrderSide::Bid => BookView {
            orders: v.orders.push(o),
            bids: v.bids.push(index_of_order(o)),
            asks: v.asks,
        },
        OrderSide::Ask => BookView {
            orders: v.orders.push(o),
            bids: v.bids,
            asks: v.asks.push(index_of_order(o)),
        },
    }
}

/// `s` with the order carrying `id` removed, if any.
pub open spec fn orders_without(s: Seq<Order>, id: i64) -> Seq<Order> {
    if has_order_id(s, id) {
        s.remove(order_idx(s, id))
    } else {
        s
    }
}

/// `q` with the entry carrying `id` removed, if any.
pub open spec fn queue_without(q: Seq<OrderIndex>, id: i64) -> Seq<OrderIndex> {
    if has_queue_id(q, id) {
        q.remove(queue_idx(q, id))
    } else {
        q
    }
}

/// The state after a cancel: `id` purged from the list and both queues.
pub open spec fn cancel_model(v: BookView, id: i64) -> BookView {
    BookView {
        orders: orders_without(v.orders, id),
        bids: queue_without(v.bids, id),
        asks: queue_without(v.asks, id),
    }
}

/// What one run of the crossing algorithm produces: the trades, the
/// filled orders in the same order (bid before ask within each pair),
/// and the book state left behind.
#[verifier::ext_equal]
pub ghost struct MatchView {
    pub trades: Seq<Trade>,
    pub filled: Seq<Order>,
    pub book: BookView,
}

/// An order after its match: marked filled, the counterparty's creator
/// recorded, everything else untouched.
pub open spec fn filled_order(o: Order, counterparty: Order) -> Order {
    Order {
        id: o.id,
        sticker_id: o.sticker_id,
        creator_user_id: o.creator_user_id,
        fulfiller_user_id: Some(counterparty.creator_user_id),
        is_fulfilled: true,
        price: o.price,
        order_side: o.order_side,
        created_at: o.created_at,
    }
}

/// The trade one cross emits. The maker — whichever order rested
/// earlier — sets the execution price.
pub open spec fn trade_of(bo: Order, ao: Order, now: u64) -> Trade {
    Trade {
        bid_order_id: bo.id,
        ask_order_id: ao.id,
        sticker_id: bo.sticker_id,
        execution_price: if bo.created_at <= ao.created_at {
            bo.price
        } else {
            ao.price
        },
        matched_at: now,
    }
}

/// One run of the crossing algorithm: while both sides are nonempty
/// and the best bid's price reaches the best ask's, pop both, fill the
/// pair, drop both orders from the list, and emit one trade.
pub open spec fn match_model(v: BookView, now: u64) -> MatchView
    decreases v.bids.len(),
    via match_model_decreases
{
    if v.bids.len() == 0 || v.asks.len() == 0 {
        MatchView { trades: Seq::empty(), filled: Seq::empty(), book: v }
    } else {
        let bi = best_idx(v.bids, OrderSide::Bid);
        let ai = best_idx(v.asks, OrderSide::Ask);
        let b = v.bids[bi];
        let a = v.asks[ai];
        if b.price < a.price {
            MatchView { trades: Seq::empty(), filled: Seq::empty(), book: v }
        } else {
            let boi = order_idx(v.orders, b.id);
            let bo = v.orders[boi];
            let rest_orders = v.orders.remove(boi);
            let aoi = order_idx(rest_orders, a.id);
            let ao = rest_orders[aoi];
            let v1 = BookView {
                orders: rest_orders.remove(aoi),
                bids: v.bids.remove(bi),
                asks: v.asks.remove(ai),
            };
            let rest = match_model(v1, now);
            MatchView {
                trades: seq![trade_of(bo, ao, now)] + rest.trades,
                filled: seq![filled_order(bo, ao), filled_order(ao, bo)] + rest.filled,
                book: rest.book,
            }
        }
    }
}

#[via_fn]
proof fn match_model_decreases(v: BookView, now: u64) {
    if v.bids.len() > 0 && v.asks.len() > 0 {
        lemma_best_idx(v.bids, OrderSide::Bid);
        lemma_best_idx(v.asks, OrderSide::Ask);
    }
}

/// Uniqueness carries over to any removal.
proof fn lemma_orders_distinct_remove(s: Seq<Order>, k: int)
    requires
        orders_distinct(s),
        0 <= k < s.len(),
    ensures
        orders_distinct(s.remove(k)),
{
    s.remove_ensures(k);
}

/// Queue uniqueness carries over to any removal.
proof fn lemma_queue_distinct_remove(q: Seq<OrderIndex>, k: int)
    requires
        queue_distinct(q),
        0 <= k < q.len(),
    ensures
        queue_distinct(q.remove(k)),
{
    q.remove_ensures(k);
}

/// Removing an order of a different identifier keeps an entry backed.
proof fn lemma_entry_backed_remove(s: Seq<Order>, k: int, e: OrderIndex)
    requires
        entry_backed(s, e),
        0 <= k < s.len(),
        s[k].id != e.id,
    ensures
        entry_backed(s.remove(k), e),
{
    let j = choose|j: int| 0 <= j < s.len() && order_matches_entry(#[trigger] s[j], e);
    s.remove_ensures(k);
    if j < k {
        assert(s.remove(k)[j] == s[j]);
    } else {
        assert(s.remove(k)[j - 1] == s[j]);
    }
}

/// With unique identifiers, the backing order of an entry is the one
/// `order_idx` finds for the entry's identifier.
proof fn lemma_backed_at_order_idx(s: Seq<Order>, e: OrderIndex)
    requires
        orders_distinct(s),
        entry_backed(s, e),
    ensures
        has_order_id(s, e.id),
        0 <= order_idx(s, e.id) < s.len(),
        order_matches_entry(s[order_idx(s, e.id)], e),
{
    let j = choose|j: int| 0 <= j < s.len() && order_matches_entry(#[trigger] s[j], e);
    lemma_order_idx(s, e.id);
    let i = order_idx(s, e.id);
    if i < j {
        assert(s[i].id != s[j].id);
    } else if j < i {
        assert(s[j].id != s[i].id);
    }
}

/// The per-instrument order book.
pub struct StickerOrderBook {
    orders: Vec<Order>,
    bid_queue: Vec<OrderIndex>,
    ask_queue: Vec<OrderIndex>,
}

impl View for StickerOrderBook {
    type V = BookView;

    closed spec fn view(&self) -> BookView {
        BookView { orders: self.orders@, bids: self.bid_queue@, asks: self.ask_queue@ }
    }
}

/// Position of the first order carrying `id`, if any.
fn find_order_pos(s: &Vec<Order>, id: i64) -> (r: Option<usize>)
    ensures
        match r {
            Some(i) => has_order_id(s@, id) && i as int == order_idx(s@, id) && i < s.len()
                && s@[i as int].id == id,
            None => !has_order_id(s@, id),
        },
{
    let mut i: usize = 0;
    while i < s.len()
        invariant
            i <= s.len(),
            forall|k: int| 0 <= k < i ==> (#[trigger] s@[k]).id != id,
        decreases s.len() - i,
    {
        if s[i].id == id {
            proof {
                lemma_order_idx(s@, id);
            }
            return Some(i);
        }
        i += 1;
    }
    None
}

/// Position of the first queue entry carrying `id`, if any.
fn find_queue_pos(q: &Vec<OrderIndex>, id: i64) -> (r: Option<usize>)
    ensures
        match r {
            Some(i) => has_queue_id(q@, id) && i as int == queue_idx(q@, id) && i < q.len()
                && q@[i as int].id == id,
            None => !has_queue_id(q@, id),
        },
{
    let mut i: usize = 0;
    while i < q.len()
        invariant
            i <= q.len(),
            forall|k: int| 0 <= k < i ==> (#[trigger] q@[k]).id != id,
        decreases q.len() - i,
    {
        if q[i].id == id {
            proof {
                lemma_queue_idx(q@, id);
            }
            return Some(i);
        }
        i += 1;
    }
    None
}

/// Position of the entry a nonempty queue yields first.
fn find_best(q: &Vec<OrderIndex>, side: OrderSide) -> (i: usize)
    requires
        q.len() > 0,
    ensures
        i as int == best_idx(q@, side),
        i < q.len(),
{
    let mut best: usize = 0;
    let mut k: usize = 1;
    proof {
        assert(q@.take(1).drop_last() =~= q@.take(0));
    }
    while k < q.len()
        invariant
            1 <= k <= q.len(),
            best < k,
            best as int == best_idx(q@.take(k as int), side),
        decreases q.len() - k,
    {
        proof {
            assert(q@.take(k + 1).drop_last() =~= q@.take(k as int));
            assert(q@.take(k + 1).last() == q@[k as int]);
            lemma_best_idx(q@.take(k as int), side);
            assert(q@.take(k + 1)[best as int] == q@[best as int]);
        }
        if better(&q[k], &q[best], side) {
            best = k;
        }
        k += 1;
    }
    proof {
        assert(q@.take(q.len() as int) =~= q@);
    }
    best
}

impl StickerOrderBook {
    /// The book invariant, stated over the abstract state.
    pub open spec fn wf(&self) -> bool {
        book_wf(self@)
    }

    /// An empty book.
    pub fn new() -> (r: Self)
        ensures
            r@.orders == Seq::<Order>::empty(),
            r@.bids == Seq::<OrderIndex>::empty(),
            r@.asks == Seq::<OrderIndex>::empty(),
            r.wf(),
    {
        StickerOrderBook { orders: Vec::new(), bid_queue: Vec::new(), ask_queue: Vec::new() }
    }

    /// Admits a new order: it joins the order list and its side's
    /// queue. A reused identifier is rejected whole, leaving the book
    /// unchanged.
    pub fn add_order(&mut self, order: Order) -> (r: Result<(), OrderError>)
        requires
            old(self).wf(),
        ensures
            final(self).wf(),
            r is Ok <==> !has_order_id(old(self)@.orders, order.id),
            r is Ok ==> final(self)@ == add_model(old(self)@, order),
            r is Err ==> *final(self) == *old(self) && r == Err::<(), OrderError>(
                OrderError::DuplicateOrderId,
            ),
    {
        if find_order_pos(&self.orders, order.id).is_some() {
            return Err(OrderError::DuplicateOrderId);
        }
        let ghost v0 = self@;
        let entry = OrderIndex {
            id: order.id,
            price: order.price,
            timestamp: order.created_at,
            order_side: order.order_side,
        };
        match order.order_side {
            OrderSide::Bid => self.bid_queue.push(entry),
            OrderSide::Ask => self.ask_queue.push(entry),
        }
        self.orders.push(order);
        proof {
            assert(self@ =~= add_model(v0, order));
            lemma_add_wf(v0, order);
        }
        Ok(())
    }

    /// Cancels an order: its identifier is purged from the order list
    /// and from both queues. An unknown identifier is rejected, the
    /// book unchanged.
    pub fn remove_order(&mut self, order_id: i64) -> (r: Result<(), OrderError>)
        requires
            old(self).wf(),
        ensures
            final(self).wf(),
            r is Ok <==> has_order_id(old(self)@.orders, order_id),
            final(self)@ == if has_order_id(old(self)@.orders, order_id) {
                cancel_model(old(self)@, order_id)
            } else {
                old(self)@
            },
            r is Err ==> r == Err::<(), OrderError>(OrderError::OrderNotFound) && *final(self)
                == *old(self),
            !has_order_id(final(self)@.orders, order_id),
            forall|k: int|
                0 <= k < final(self)@.bids.len() ==> (#[trigger] final(self)@.bids[k]).id
                    != order_id,
            forall|k: int|
                0 <= k < final(self)@.asks.len() ==> (#[trigger] final(self)@.asks[k]).id
                    != order_id,
    {
        let ghost v0 = self@;
        let oi = match find_order_pos(&self.orders, order_id) {
            Some(i) => i,
            None => {
                proof {
                    lemma_absent_id_not_queued(v0, order_id);
                }
                return Err(OrderError::OrderNotFound);
            },
        };
        match find_queue_pos(&self.bid_queue, order_id) {
            Some(i) => {
                self.bid_queue.remove(i);
            },
            None => {},
        }
        match find_queue_pos(&self.ask_queue, order_id) {
            Some(i) => {
                self.ask_queue.remove(i);
            },
            None => {},
        }
        self.orders.remove(oi);
        proof {
            assert(self@ =~= cancel_model(v0, order_id));
            lemma_cancel_wf(v0, order_id);
        }
        Ok(())
    }

    /// The best still-live order of a side, without removing it.
    pub fn peek_best(&self, side: OrderSide) -> (r: Option<OrderIndex>)
        ensures
            ({
                let q = side_queue(self@, side);
                if q.len() == 0 {
                    r is None
                } else {
                    r == Some(q[best_idx(q, side)])
                }
            }),
    {
        let q = match side {
            OrderSide::Bid => &self.bid_queue,
            OrderSide::Ask => &self.ask_queue,
        };
        if q.len() == 0 {
            None
        } else {
            let i = find_best(q, side);
            Some(q[i])
        }
    }

    /// Removes and returns the best bid, or nothing if no bid rests.
    pub fn next_bid_order(&mut self) -> (r: Option<OrderIndex>)
        requires
            old(self).wf(),
        ensures
            final(self).wf(),
            old(self)@.bids.len() == 0 ==> r is None && final(self)@ == old(self)@,
            old(self)@.bids.len() > 0 ==> ({
                let i = best_idx(old(self)@.bids, OrderSide::Bid);
                r == Some(old(self)@.bids[i]) && final(self)@ == BookView {
                    orders: old(self)@.orders,
                    bids: old(self)@.bids.remove(i),
                    asks: old(self)@.asks,
                }
            }),
    {
        if self.bid_queue.len() == 0 {
            return None;
        }
        let ghost v0 = self@;
        let i = find_best(&self.bid_queue, OrderSide::Bid);
        let e = self.bid_queue.remove(i);
        proof {
            lemma_queue_remove_wf(v0.orders, v0.bids, OrderSide::Bid, i as int);
        }
        Some(e)
    }

    /// Runs the crossing algorithm until no cross remains: while the
    /// best bid's price reaches the best ask's, both are popped, both
    /// orders leave the book filled, and one trade is emitted at the
    /// maker's price. Returns the trades and the filled orders, bid
    /// before ask within each pair.
    pub fn match_order(&mut self, now: u64) -> (r: (Vec<Trade>, Vec<Order>))
        requires
            old(self).wf(),
        ensures
            final(self).wf(),
            ({
                let m = match_model(old(self)@, now);
                final(self)@ == m.book && r.0@ == m.trades && r.1@ == m.filled
            }),
            forall|i: int, j: int|
                0 <= i < final(self)@.bids.len() && 0 <= j < final(self)@.asks.len() ==> (
                #[trigger] final(self)@.bids[i]).price < (#[trigger] final(self)@.asks[j]).price,
    {
        let ghost v_init = self@;
        let mut trades: Vec<Trade> = Vec::new();
        let mut filled: Vec<Order> = Vec::new();
        loop
            invariant_except_break
                self.wf(),
                match_model(v_init, now) == (MatchView {
                    trades: trades@ + match_model(self@, now).trades,
                    filled: filled@ + match_model(self@, now).filled,
                    book: match_model(self@, now).book,
                }),
            ensures
                self.wf(),
                match_model(v_init, now) == (MatchView {
                    trades: trades@,
                    filled: filled@,
                    book: self@,
                }),
                self@.bids.len() == 0 || self@.asks.len() == 0 || self@.bids[best_idx(
                    self@.bids,
                    OrderSide::Bid,
                )].price < self@.asks[best_idx(self@.asks, OrderSide::Ask)].price,
            decreases self.bid_queue@.len(),
        {
            if self.bid_queue.len() == 0 || self.ask_queue.len() == 0 {
                proof {
                    assert(trades@ + match_model(self@, now).trades =~= trades@);
                    assert(filled@ + match_model(self@, now).filled =~= filled@);
                }
                break ;
            }
            let bi = find_best(&self.bid_queue, OrderSide::Bid);
            let ai = find_best(&self.ask_queue, OrderSide::Ask);
            if self.bid_queue[bi].price < self.ask_queue[ai].price {
                proof {
                    assert(trades@ + match_model(self@, now).trades =~= trades@);
                    assert(filled@ + match_model(self@, now).filled =~= filled@);
                }
                break ;
            }
            let ghost v_pre = self@;
            proof {
                lemma_match_step(v_pre);
            }
            let b = self.bid_queue.remove(bi);
            let a = self.ask_queue.remove(ai);
            let bo = {
                let i = find_order_pos(&self.orders, b.id).unwrap();
                self.orders.remove(i)
            };
            let ao = {
                let i = find_order_pos(&self.orders, a.id).unwrap();
                self.orders.remove(i)
            };
            let trade = Trade {
                bid_order_id: bo.id,
                ask_order_id: ao.id,
                sticker_id: bo.sticker_id.clone(),
                execution_price: if bo.created_at <= ao.created_at {
                    bo.price
                } else {
                    ao.price
                },
                matched_at: now,
            };
            let bo_creator = bo.creator_user_id.clone();
            let ao_creator = ao.creator_user_id.clone();
            let fb = Order {
                id: bo.id,
                sticker_id: bo.sticker_id,
                creator_user_id: bo.creator_user_id,
                fulfiller_user_id: Some(ao_creator),
                is_fulfilled: true,
                price: bo.price,
                order_side: bo.order_side,
                created_at: bo.created_at,
            };
            let fa = Order {
                id: ao.id,
                sticker_id: ao.sticker_id,
                creator_user_id: ao.creator_user_id,
                fulfiller_user_id: Some(bo_creator),
                is_fulfilled: true,
                price: ao.price,
                order_side: ao.order_side,
                created_at: ao.created_at,
            };
            let ghost old_trades = trades@;
            let ghost old_filled = filled@;
            trades.push(trade);
            filled.push(fb);
            filled.push(fa);
            proof {
                let bi_s = best_idx(v_pre.bids, OrderSide::Bid);
                let ai_s = best_idx(v_pre.asks, OrderSide::Ask);
                let b_s = v_pre.bids[bi_s];
                let a_s = v_pre.asks[ai_s];
                let boi = order_idx(v_pre.orders, b_s.id);
                let bo_s = v_pre.orders[boi];
                let rest_orders = v_pre.orders.remove(boi);
                let aoi = order_idx(rest_orders, a_s.id);
                let ao_s = rest_orders[aoi];
                let v1 = BookView {
                    orders: rest_orders.remove(aoi),
                    bids: v_pre.bids.remove(bi_s),
                    asks: v_pre.asks.remove(ai_s),
                };
                assert(self@ =~= v1);
                assert(bo == bo_s && ao == ao_s);
                assert(trade == trade_of(bo_s, ao_s, now));
                assert(fb == filled_order(bo_s, ao_s) && fa == filled_order(ao_s, bo_s));
                let step = match_model(v_pre, now);
                let rest = match_model(v1, now);
                assert(step.trades == seq![trade] + rest.trades);
                assert(step.filled == seq![fb, fa] + rest.filled);
                assert(step.book == rest.book);
                assert(trades@ =~= old_trades + seq![trade]);
                assert(filled@ =~= old_filled + seq![fb, fa]);
                assert(old_trades + step.trades =~= trades@ + rest.trades);
                assert(old_filled + step.filled =~= filled@ + rest.filled);
                assert(match_model(v_init, now) =~= (MatchView {
                    trades: trades@ + match_model(self@, now).trades,
                    filled: filled@ + match_model(self@, now).filled,
                    book: match_model(self@, now).book,
                }));
            }
        }
        proof {
            lemma_no_cross(self@);
        }
        (trades, filled)
    }

    /// Removes and returns the best ask, or nothing if no ask rests.
    pub fn next_ask_order(&mut self) -> (r: Option<OrderIndex>)
        requires
            old(self).wf(),
        ensures
            final(self).wf(),
            old(self)@.asks.len() == 0 ==> r is None && final(self)@ == old(self)@,
            old(self)@.asks.len() > 0 ==> ({
                let i = best_idx(old(self)@.asks, OrderSide::Ask);
                r == Some(old(self)@.asks[i]) && final(self)@ == BookView {
                    orders: old(self)@.orders,
                    bids: old(self)@.bids,
                    asks: old(self)@.asks.remove(i),
                }
            }),
    {
        if self.ask_queue.len() == 0 {
            return None;
        }
        let ghost v0 = self@;
        let i = find_best(&self.ask_queue, OrderSide::Ask);
        let e = self.ask_queue.remove(i);
        proof {
            lemma_queue_remove_wf(v0.orders, v0.asks, OrderSide::Ask, i as int);
        }
        Some(e)
    }
}

/// Two entries backed by the same well-formed list and of opposite
/// sides carry different identifiers.
proof fn lemma_opposite_sides_distinct_ids(s: Seq<Order>, e1: OrderIndex, e2: OrderIndex)
    requires
        orders_distinct(s),
        entry_backed(s, e1),
        entry_backed(s, e2),
        e1.order_side != e2.order_side,
    ensures
        e1.id != e2.id,
{
    if e1.id == e2.id {
        let j1 = choose|j: int| 0 <= j < s.len() && order_matches_entry(#[trigger] s[j], e1);
        let j2 = choose|j: int| 0 <= j < s.len() && order_matches_entry(#[trigger] s[j], e2);
        if j1 < j2 {
            assert(s[j1].id != s[j2].id);
        } else if j2 < j1 {
            assert(s[j2].id != s[j1].id);
        }
    }
}

/// The facts one crossing step rests on: both best entries stand for
/// live orders of their sides, the two orders are distinct, and the
/// book without them and their queue entries is well formed again.
proof fn lemma_match_step(v: BookView)
    requires
        book_wf(v),
        v.bids.len() > 0,
        v.asks.len() > 0,
    ensures
        ({
            let bi = best_idx(v.bids, OrderSide::Bid);
            let ai = best_idx(v.asks, OrderSide::Ask);
            let b = v.bids[bi];
            let a = v.asks[ai];
            let boi = order_idx(v.orders, b.id);
            let bo = v.orders[boi];
            let rest_orders = v.orders.remove(boi);
            let aoi = order_idx(rest_orders, a.id);
            let ao = rest_orders[aoi];
            &&& 0 <= bi < v.bids.len()
            &&& 0 <= ai < v.asks.len()
            &&& has_order_id(v.orders, b.id)
            &&& 0 <= boi < v.orders.len()
            &&& order_matches_entry(bo, b)
            &&& bo.order_side == OrderSide::Bid
            &&& b.id != a.id
            &&& has_order_id(rest_orders, a.id)
            &&& 0 <= aoi < rest_orders.len()
            &&& order_matches_entry(ao, a)
            &&& ao.order_side == OrderSide::Ask
            &&& book_wf(
                BookView {
                    orders: rest_orders.remove(aoi),
                    bids: v.bids.remove(bi),
                    asks: v.asks.remove(ai),
                },
            )
        }),
{
    lemma_best_idx(v.bids, OrderSide::Bid);
    lemma_best_idx(v.asks, OrderSide::Ask);
    let bi = best_idx(v.bids, OrderSide::Bid);
    let ai = best_idx(v.asks, OrderSide::Ask);
    let b = v.bids[bi];
    let a = v.asks[ai];
    assert(entry_backed(v.orders, b) && b.order_side == OrderSide::Bid);
    assert(entry_backed(v.orders, a) && a.order_side == OrderSide::Ask);
    lemma_backed_at_order_idx(v.orders, b);
    lemma_opposite_sides_distinct_ids(v.orders, b, a);
    let boi = order_idx(v.orders, b.id);
    let bo = v.orders[boi];
    let rest_orders = v.orders.remove(boi);
    v.orders.remove_ensures(boi);
    lemma_orders_distinct_remove(v.orders, boi);
    lemma_entry_backed_remove(v.orders, boi, a);
    lemma_backed_at_order_idx(rest_orders, a);
    let aoi = order_idx(rest_orders, a.id);
    let ao = rest_orders[aoi];
    let s2 = rest_orders.remove(aoi);
    rest_orders.remove_ensures(aoi);
    lemma_orders_distinct_remove(rest_orders, aoi);
    lemma_match_step_queue(v, OrderSide::Bid);
    lemma_match_step_queue(v, OrderSide::Ask);
}

/// After one crossing step, the side queue with its best entry removed
/// is well formed against the order list with both matched orders
/// removed.
proof fn lemma_match_step_queue(v: BookView, side: OrderSide)
    requires
        book_wf(v),
        v.bids.len() > 0,
        v.asks.len() > 0,
    ensures
        ({
            let bi = best_idx(v.bids, OrderSide::Bid);
            let ai = best_idx(v.asks, OrderSide::Ask);
            let b = v.bids[bi];
            let a = v.asks[ai];
            let boi = order_idx(v.orders, b.id);
            let rest_orders = v.orders.remove(boi);
            let aoi = order_idx(rest_orders, a.id);
            let s2 = rest_orders.remove(aoi);
            let q1 = if side == OrderSide::Bid {
                v.bids.remove(bi)
            } else {
                v.asks.remove(ai)
            };
            queue_wf(s2, q1, side)
        }),
{
    lemma_best_idx(v.bids, OrderSide::Bid);
    lemma_best_idx(v.asks, OrderSide::Ask);
    let bi = best_idx(v.bids, OrderSide::Bid);
    let ai = best_idx(v.asks, OrderSide::Ask);
    let b = v.bids[bi];
    let a = v.asks[ai];
    assert(entry_backed(v.orders, b) && b.order_side == OrderSide::Bid);
    assert(entry_backed(v.orders, a) && a.order_side == OrderSide::Ask);
    lemma_backed_at_order_idx(v.orders, b);
    let boi = order_idx(v.orders, b.id);
    let rest_orders = v.orders.remove(boi);
    v.orders.remove_ensures(boi);
    lemma_orders_distinct_remove(v.orders, boi);
    lemma_entry_backed_remove(v.orders, boi, a);
    lemma_backed_at_order_idx(rest_orders, a);
    let aoi = order_idx(rest_orders, a.id);
    let s2 = rest_orders.remove(aoi);
    rest_orders.remove_ensures(aoi);
    let (q, qi, own, other) = if side == OrderSide::Bid {
        (v.bids, bi, b, a)
    } else {
        (v.asks, ai, a, b)
    };
    let q1 = q.remove(qi);
    q.remove_ensures(qi);
    lemma_queue_distinct_remove(q, qi);
    assert forall|i: int| 0 <= i < q1.len() implies (#[trigger] q1[i]).order_side == side
        && entry_backed(s2, q1[i]) by {
        let e = q1[i];
        assert(e == q[i] || e == q[i + 1]);
        assert(entry_backed(v.orders, e) && e.order_side == side);
        assert(e.id != own.id) by {
            if i < qi {
                assert(q[i].id != q[qi].id);
            } else {
                assert(q[qi].id != q[i + 1].id);
            }
        }
        assert(e.id != other.id) by {
            lemma_opposite_sides_distinct_ids(v.orders, e, other);
        }
        lemma_entry_backed_remove(v.orders, boi, e);
        lemma_entry_backed_remove(rest_orders, aoi, e);
    }
}

/// When no cross remains at the top of the book, no bid anywhere
/// reaches any ask's price.
proof fn lemma_no_cross(v: BookView)
    requires
        v.bids.len() == 0 || v.asks.len() == 0 || v.bids[best_idx(v.bids, OrderSide::Bid)].price
            < v.asks[best_idx(v.asks, OrderSide::Ask)].price,
    ensures
        forall|i: int, j: int|
            0 <= i < v.bids.len() && 0 <= j < v.asks.len() ==> (#[trigger] v.bids[i]).price < (
            #[trigger] v.asks[j]).price,
{
    if v.bids.len() > 0 && v.asks.len() > 0 {
        lemma_best_idx(v.bids, OrderSide::Bid);
        lemma_best_idx(v.asks, OrderSide::Ask);
        let bb = v.bids[best_idx(v.bids, OrderSide::Bid)];
        let ba = v.asks[best_idx(v.asks, OrderSide::Ask)];
        assert forall|i: int, j: int|
            0 <= i < v.bids.len() && 0 <= j < v.asks.len() implies (#[trigger] v.bids[i]).price < (
        #[trigger] v.asks[j]).price by {
            assert(!spec_better(v.bids[i], bb, OrderSide::Bid));
            assert(!spec_better(v.asks[j], ba, OrderSide::Ask));
        }
    }
}

/// Round-trip law: admitting a fresh order and then cancelling it
/// leaves the order list and both side queues exactly as they were.
pub proof fn lemma_add_cancel_round_trip(v: BookView, o: Order)
    requires
        book_wf(v),
        !has_order_id(v.orders, o.id),
    ensures
        cancel_model(add_model(v, o), o.id) == v,
{
    lemma_absent_id_not_queued(v, o.id);
    let v1 = add_model(v, o);
    let s1 = v.orders.push(o);
    assert(s1[v.orders.len() as int] == o);
    lemma_order_idx(s1, o.id);
    let oi = order_idx(s1, o.id);
    if oi < v.orders.len() {
        assert(s1[oi] == v.orders[oi]);
        assert(!(0 <= oi < v.orders.len() && (#[trigger] v.orders[oi]).id == o.id));
    }
    s1.remove_ensures(oi);
    assert(orders_without(s1, o.id) =~= v.orders);
    let e = index_of_order(o);
    let q1 = side_queue(v1, o.order_side);
    let q0 = side_queue(v, o.order_side);
    assert(q1 == q0.push(e));
    assert(q1[q0.len() as int] == e);
    lemma_queue_idx(q1, o.id);
    let qi = queue_idx(q1, o.id);
    if qi < q0.len() {
        assert(q1[qi] == q0[qi]);
        assert(!(0 <= qi < q0.len() && (#[trigger] q0[qi]).id == o.id));
    }
    q1.remove_ensures(qi);
    assert(queue_without(q1, o.id) =~= q0);
    let other = side_queue(v, if o.order_side == OrderSide::Bid {
        OrderSide::Ask
    } else {
        OrderSide::Bid
    });
    assert(!has_queue_id(other, o.id));
    assert(cancel_model(v1, o.id) =~= v);
}

/// After a cancel, the entry either side yields next — if any — never
/// carries the cancelled identifier.
pub proof fn lemma_cancelled_id_never_pops(v: BookView, id: i64, side: OrderSide)
    requires
        book_wf(v),
        side_queue(cancel_model(v, id), side).len() > 0,
    ensures
        ({
            let q = side_queue(cancel_model(v, id), side);
            q[best_idx(q, side)].id != id
        }),
{
    let q = side_queue(cancel_model(v, id), side);
    lemma_best_idx(q, side);
    let i = best_idx(q, side);
    if has_order_id(v.orders, id) {
        lemma_cancel_wf(v, id);
    } else {
        lemma_absent_id_not_queued(v, id);
        let q0 = side_queue(v, side);
        assert(q == q0);
        assert(!(0 <= i < q0.len() && (#[trigger] q0[i]).id == id));
    }
}

/// An identifier absent from the order list is absent from every well
/// formed queue.
proof fn lemma_absent_id_not_queued(v: BookView, id: i64)
    requires
        book_wf(v),
        !has_order_id(v.orders, id),
    ensures
        !has_queue_id(v.bids, id),
        !has_queue_id(v.asks, id),
{
    if has_queue_id(v.bids, id) {
        let k = choose|k: int| 0 <= k < v.bids.len() && (#[trigger] v.bids[k]).id == id;
        let j = choose|j: int|
            0 <= j < v.orders.len() && order_matches_entry(#[trigger] v.orders[j], v.bids[k]);
        assert(v.orders[j].id == id);
    }
    if has_queue_id(v.asks, id) {
        let k = choose|k: int| 0 <= k < v.asks.len() && (#[trigger] v.asks[k]).id == id;
        let j = choose|j: int|
            0 <= j < v.orders.len() && order_matches_entry(#[trigger] v.orders[j], v.asks[k]);
        assert(v.orders[j].id == id);
    }
}

/// Removing any queue entry keeps the queue well formed.
proof fn lemma_queue_remove_wf(s: Seq<Order>, q: Seq<OrderIndex>, side: OrderSide, k: int)
    requires
        queue_wf(s, q, side),
        0 <= k < q.len(),
    ensures
        queue_wf(s, q.remove(k), side),
{
    lemma_queue_distinct_remove(q, k);
    q.remove_ensures(k);
    let q1 = q.remove(k);
    assert forall|i: int| 0 <= i < q1.len() implies (#[trigger] q1[i]).order_side == side
        && entry_backed(s, q1[i]) by {
        if i < k {
            assert(q1[i] == q[i]);
        } else {
            assert(q1[i] == q[i + 1]);
        }
    }
}

/// Cancelling an identifier that is present keeps the book invariant
/// and leaves no trace of the identifier.
proof fn lemma_cancel_wf(v: BookView, id: i64)
    requires
        book_wf(v),
        has_order_id(v.orders, id),
    ensures
        book_wf(cancel_model(v, id)),
        !has_order_id(cancel_model(v, id).orders, id),
        forall|k: int|
            0 <= k < cancel_model(v, id).bids.len() ==> (#[trigger] cancel_model(v, id).bids[k]).id
                != id,
        forall|k: int|
            0 <= k < cancel_model(v, id).asks.len() ==> (#[trigger] cancel_model(v, id).asks[k]).id
                != id,
{
    lemma_order_idx(v.orders, id);
    let oi = order_idx(v.orders, id);
    let s1 = v.orders.remove(oi);
    lemma_orders_distinct_remove(v.orders, oi);
    v.orders.remove_ensures(oi);
    assert forall|k: int| 0 <= k < s1.len() implies (#[trigger] s1[k]).id != id by {
        if k < oi {
            assert(s1[k] == v.orders[k]);
            assert(v.orders[k].id != v.orders[oi].id);
        } else {
            assert(s1[k] == v.orders[k + 1]);
            assert(v.orders[oi].id != v.orders[k + 1].id);
        }
    }
    lemma_cancel_queue_wf(v.orders, v.bids, OrderSide::Bid, id);
    lemma_cancel_queue_wf(v.orders, v.asks, OrderSide::Ask, id);
}

/// Purging an identifier from a well-formed queue keeps it well formed
/// against the order list with that identifier removed, and leaves no
/// entry carrying it.
proof fn lemma_cancel_queue_wf(s: Seq<Order>, q: Seq<OrderIndex>, side: OrderSide, id: i64)
    requires
        orders_distinct(s),
        queue_wf(s, q, side),
        has_order_id(s, id),
    ensures
        queue_wf(orders_without(s, id), queue_without(q, id), side),
        forall|k: int|
            0 <= k < queue_without(q, id).len() ==> (#[trigger] queue_without(q, id)[k]).id != id,
{
    lemma_order_idx(s, id);
    let oi = order_idx(s, id);
    let s1 = s.remove(oi);
    s.remove_ensures(oi);
    let q1 = queue_without(q, id);
    if has_queue_id(q, id) {
        lemma_queue_idx(q, id);
        let qi = queue_idx(q, id);
        lemma_queue_distinct_remove(q, qi);
        q.remove_ensures(qi);
        assert forall|k: int| 0 <= k < q1.len() implies (#[trigger] q1[k]).id != id by {
            if k < qi {
                assert(q1[k] == q[k]);
                assert(q[k].id != q[qi].id);
            } else {
                assert(q1[k] == q[k + 1]);
                assert(q[qi].id != q[k + 1].id);
            }
        }
    } else {
        assert forall|k: int| 0 <= k < q1.len() implies (#[trigger] q1[k]).id != id by {
            assert(!(0 <= k < q.len() && (#[trigger] q[k]).id == id));
        }
    }
    assert forall|i: int| 0 <= i < q1.len() implies (#[trigger] q1[i]).order_side == side
        && entry_backed(s1, q1[i]) by {
        let e = q1[i];
        assert(entry_backed(s, e) && e.order_side == side) by {
            if has_queue_id(q, id) {
                let qi = queue_idx(q, id);
                if i < qi {
                    assert(q1[i] == q[i]);
                } else {
                    assert(q1[i] == q[i + 1]);
                }
            }
        }
        lemma_entry_backed_remove(s, oi, e);
    }
}

/// Admitting a fresh order preserves the book invariant.
proof fn lemma_add_wf(v: BookView, o: Order)
    requires
        book_wf(v),
        !has_order_id(v.orders, o.id),
    ensures
        book_wf(add_model(v, o)),
{
    let v1 = add_model(v, o);
    let s1 = v.orders.push(o);
    assert forall|i: int, j: int| 0 <= i < j < s1.len() implies (#[trigger] s1[i]).id != (
    #[trigger] s1[j]).id by {
        if j < v.orders.len() {
            assert(s1[i] == v.orders[i] && s1[j] == v.orders[j]);
        } else {
            assert(s1[i] == v.orders[i] && s1[j] == o);
        }
    }
    lemma_add_queue_wf(v.orders, v.bids, o, OrderSide::Bid);
    lemma_add_queue_wf(v.orders, v.asks, o, OrderSide::Ask);
}

/// A well-formed queue stays well formed when a fresh order joins the
/// list, whether or not its key joins this queue.
proof fn lemma_add_queue_wf(s: Seq<Order>, q: Seq<OrderIndex>, o: Order, side: OrderSide)
    requires
        queue_wf(s, q, side),
        !has_order_id(s, o.id),
    ensures
        queue_wf(s.push(o), q, side),
        o.order_side == side ==> queue_wf(s.push(o), q.push(index_of_order(o)), side),
{
    let s1 = s.push(o);
    assert forall|i: int| 0 <= i < q.len() implies (#[trigger] q[i]).order_side == side
        && entry_backed(s1, q[i]) by {
        let j = choose|j: int| 0 <= j < s.len() && order_matches_entry(#[trigger] s[j], q[i]);
        assert(s1[j] == s[j]);
    }
    if o.order_side == side {
        let q1 = q.push(index_of_order(o));
        assert(order_matches_entry(s1[s.len() as int], index_of_order(o)));
        assert forall|i: int, j: int| 0 <= i < j < q1.len() implies (#[trigger] q1[i]).id != (
        #[trigger] q1[j]).id by {
            if j < q.len() {
                assert(q1[i] == q[i] && q1[j] == q[j]);
            } else {
                assert(q1[i] == q[i] && q1[j] == index_of_order(o));
                let m = choose|m: int|
                    0 <= m < s.len() && order_matches_entry(#[trigger] s[m], q[i]);
                assert(s[m].id == q[i].id);
            }
        }
        assert forall|i: int| 0 <= i < q1.len() implies (#[trigger] q1[i]).order_side == side
            && entry_backed(s1, q1[i]) by {
            if i < q.len() {
                assert(q1[i] == q[i]);
                assert(entry_backed(s1, q[i]));
            } else {
                assert(q1[i] == index_of_order(o));
                assert(order_matches_entry(s1[s.len() as int], index_of_order(o)));
            }
        }
    }
}

} // verus!
