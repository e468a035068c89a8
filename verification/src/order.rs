//! Order data model and the side-aware price-time comparator.
//!
//! An order is an atomic single-lot unit of exchange intent; an
//! `OrderIndex` is the derived sort key a side queue carries for it.
//! One comparator serves both sides, its direction chosen by the side
//! at comparison time.

use vstd::prelude::*;

verus! {

/// Which side of the book an order rests on.
#[derive(Debug, Copy, Clone, PartialEq, Eq, Structural)]
pub enum OrderSide {
    Bid,
    Ask,
}

/// The ephemeral sort key a side queue carries: the order's identity
/// plus exactly the data price-time priority looks at.
#[derive(Debug, Copy, Clone, PartialEq, Eq, Structural)]
pub struct OrderIndex {
    pub id: i64,
    pub price: i64,
    pub timestamp: u64,
    pub order_side: OrderSide,
}

/// A resting limit order: one indivisible lot. `fulfiller_user_id` and
/// `is_fulfilled` are set exactly once, when the order is matched.
#[derive(Debug)]
pub struct Order {
    pub id: i64,
    pub sticker_id: String,
    pub creator_user_id: String,
    pub fulfiller_user_id: Option<String>,
    pub is_fulfilled: bool,
    pub price: i64,
    pub order_side: OrderSide,
    pub created_at: u64,
}

/// The record of one cross between a bid and an ask.
#[derive(Debug)]
pub struct Trade {
    pub bid_order_id: i64,
    pub ask_order_id: i64,
    pub sticker_id: String,
    pub execution_price: i64,
    pub matched_at: u64,
}

/// Why the book rejected a call.
#[derive(Debug, Copy, Clone, PartialEq, Eq, Structural)]
pub enum OrderError {
    DuplicateOrderId,
    OrderNotFound,
    InvalidPrice,
}

/// Price-time priority: `a` is strictly preferred to `b` on `side`.
/// A better price wins (higher for bids, lower for asks); at equal
/// price the earlier timestamp wins. Entries equal in both are tied.
pub open spec fn spec_better(a: OrderIndex, b: OrderIndex, side: OrderSide) -> bool {
    if a.price != b.price {
        match side {
            OrderSide::Bid => a.price > b.price,
            OrderSide::Ask => a.price < b.price,
        }
    } else {
        a.timestamp < b.timestamp
    }
}

/// The one executable comparator both sides share; its direction flips
/// on `side` at comparison time.
pub fn better(a: &OrderIndex, b: &OrderIndex, side: OrderSide) -> (r: bool)
    ensures
        r == spec_better(*a, *b, side),
{
    if a.price != b.price {
        match side {
            OrderSide::Bid => a.price > b.price,
            OrderSide::Ask => a.price < b.price,
        }
    } else {
        a.timestamp < b.timestamp
    }
}

/// The comparator orders totally on each side: preference never runs
/// both ways, it is transitive, and two entries tied both ways agree
/// exactly in price and timestamp — ordering-equality, which is never
/// identity.
pub proof fn lemma_better_total_order(a: OrderIndex, b: OrderIndex, c: OrderIndex, side: OrderSide)
    ensures
        !(spec_better(a, b, side) && spec_better(b, a, side)),
        spec_better(a, b, side) && spec_better(b, c, side) ==> spec_better(a, c, side),
        (!spec_better(a, b, side) && !spec_better(b, a, side)) <==> (a.price == b.price
            && a.timestamp == b.timestamp),
{
}

/// The index a side queue yields first: the leftmost entry that no
/// other entry strictly beats. Among entries tied in price and
/// timestamp the leftmost wins, which keeps the choice stable within
/// one queue.
pub open spec fn best_idx(q: Seq<OrderIndex>, side: OrderSide) -> int
    recommends
        q.len() > 0,
    decreases q.len(),
{
    if q.len() <= 1 {
        0
    } else {
        let j = best_idx(q.drop_last(), side);
        if spec_better(q.last(), q[j], side) {
            q.len() - 1
        } else {
            j
        }
    }
}

/// The chosen index is in range and no entry strictly beats it.
pub proof fn lemma_best_idx(q: Seq<OrderIndex>, side: OrderSide)
    requires
        q.len() > 0,
    ensures
        0 <= best_idx(q, side) < q.len(),
        forall|k: int| 0 <= k < q.len() ==> !spec_better(q[k], q[best_idx(q, side)], side),
    decreases q.len(),
{
    if q.len() > 1 {
        lemma_best_idx(q.drop_last(), side);
        let j = best_idx(q.drop_last(), side);
        let b = best_idx(q, side);
        assert forall|k: int| 0 <= k < q.len() implies !spec_better(q[k], q[b], side) by {
            if k < q.len() - 1 {
                assert(q.drop_last()[k] == q[k]);
                assert(q.drop_last()[j] == q[j]);
                assert(!spec_better(q[k], q[j], side));
            }
        }
    }
}

/// The entry the remainder of a queue yields after the best entry is
/// removed was itself an entry of the full queue, distinct from the
/// first, and not strictly preferred to it. Returns its index in the
/// full queue.
proof fn lemma_second_best_member(q: Seq<OrderIndex>, side: OrderSide) -> (m: int)
    requires
        q.len() >= 2,
    ensures
        ({
            let i0 = best_idx(q, side);
            let rest = q.remove(i0);
            let i1 = best_idx(rest, side);
            0 <= i0 < q.len() && 0 <= i1 < rest.len() && 0 <= m < q.len() && m != i0
                && q[m] == rest[i1] && !spec_better(q[m], q[i0], side)
        }),
{
    lemma_best_idx(q, side);
    let i0 = best_idx(q, side);
    let rest = q.remove(i0);
    q.remove_ensures(i0);
    lemma_best_idx(rest, side);
    let i1 = best_idx(rest, side);
    let m: int = if i1 < i0 {
        i1
    } else {
        i1 + 1
    };
    assert(q[m] == rest[i1]);
    m
}

/// Ask-side ordering law: with all prices distinct, the entry an ask
/// queue yields first has a strictly lower price than the entry the
/// remaining queue yields next.
pub proof fn lemma_ask_pops_price_increasing(q: Seq<OrderIndex>)
    requires
        q.len() >= 2,
        forall|i: int, j: int| 0 <= i < j < q.len() ==> q[i].price != q[j].price,
    ensures
        ({
            let i0 = best_idx(q, OrderSide::Ask);
            let rest = q.remove(i0);
            q[i0].price < rest[best_idx(rest, OrderSide::Ask)].price
        }),
{
    let m = lemma_second_best_member(q, OrderSide::Ask);
    let i0 = best_idx(q, OrderSide::Ask);
    if m < i0 {
        assert(q[m].price != q[i0].price);
    } else {
        assert(q[i0].price != q[m].price);
    }
}

/// Bid-side ordering law, the mirror image: with all prices distinct,
/// successive yields of a bid queue carry strictly decreasing prices.
pub proof fn lemma_bid_pops_price_decreasing(q: Seq<OrderIndex>)
    requires
        q.len() >= 2,
        forall|i: int, j: int| 0 <= i < j < q.len() ==> q[i].price != q[j].price,
    ensures
        ({
            let i0 = best_idx(q, OrderSide::Bid);
            let rest = q.remove(i0);
            q[i0].price > rest[best_idx(rest, OrderSide::Bid)].price
        }),
{
    let m = lemma_second_best_member(q, OrderSide::Bid);
    let i0 = best_idx(q, OrderSide::Bid);
    if m < i0 {
        assert(q[m].price != q[i0].price);
    } else {
        assert(q[i0].price != q[m].price);
    }
}

/// Time tie-break law, both sides: of two successive yields with equal
/// prices, the first was created no later than the second.
pub proof fn lemma_tie_break_by_time(q: Seq<OrderIndex>, side: OrderSide)
    requires
        q.len() >= 2,
    ensures
        ({
            let i0 = best_idx(q, side);
            let rest = q.remove(i0);
            let i1 = best_idx(rest, side);
            q[i0].price == rest[i1].price ==> q[i0].timestamp <= rest[i1].timestamp
        }),
{
    let m = lemma_second_best_member(q, side);
}

} // verus!
