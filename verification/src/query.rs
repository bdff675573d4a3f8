//! Read-only projections of the book: lookup of a resting order by id, and
//! the aggregated per-level snapshot for market-data consumers. Neither
//! mutates the ledger.

use vstd::prelude::*;

use crate::book::{book_wf, levels_view, order_ok, LevelV, OrderBook, PriceLevel};
use crate::types::{Order, OrderId, Price};

verus! {

broadcast use vstd::std_specs::hash::group_hash_axioms;

/// The first order of the queue carrying `id`, if any.
pub open spec fn find_in_queue(orders: Seq<Order>, id: OrderId) -> Option<Order>
    decreases orders.len(),
{
    if orders.len() == 0 {
        None::<Order>
    } else if orders[0].id == id {
        Some(orders[0])
    } else {
        find_in_queue(orders.drop_first(), id)
    }
}

/// The first order carrying `id` in the level at price `p`, if any.
pub open spec fn find_at_price(levels: Seq<LevelV>, p: Price, id: OrderId) -> Option<Order>
    decreases levels.len(),
{
    if levels.len() == 0 {
        None::<Order>
    } else if levels[0].price == p {
        find_in_queue(levels[0].orders, id)
    } else {
        find_at_price(levels.drop_first(), p, id)
    }
}

/// What a lookup by id returns: nothing without an index entry; otherwise
/// the order found at the indexed price, bids searched before asks.
pub open spec fn book_find_spec(b: crate::book::BookV, id: OrderId) -> Option<Order> {
    if !b.index.dom().contains(id) {
        None::<Order>
    } else {
        match find_at_price(b.bids, b.index[id], id) {
            Some(o) => Some(o),
            None => find_at_price(b.asks, b.index[id], id),
        }
    }
}

/// The total unfilled quantity resting in a queue.
pub open spec fn queue_unfilled(orders: Seq<Order>) -> int
    decreases orders.len(),
{
    if orders.len() == 0 {
        0
    } else {
        orders[0].amount - orders[0].filled_amount + queue_unfilled(orders.drop_first())
    }
}

/// One aggregated level of a snapshot: a price and the summed unfilled
/// quantity resting at it.
#[derive(Debug, Clone, PartialEq)]
pub struct OrderBookLevel {
    pub price: Price,
    pub amount: u128,
}

/// A read-only view of both sides: bids highest price first, asks lowest
/// price first, each level aggregated.
#[derive(Debug, Clone, PartialEq)]
pub struct OrderBookSnapshot {
    pub bids: Vec<OrderBookLevel>,
    pub asks: Vec<OrderBookLevel>,
}

proof fn lemma_find_queue_skip(orders: Seq<Order>, id: OrderId, j: int)
    requires
        0 <= j <= orders.len(),
        forall|k: int| 0 <= k < j ==> (#[trigger] orders[k]).id != id,
    ensures
        find_in_queue(orders, id) == find_in_queue(orders.skip(j), id),
    decreases j,
{
    if j == 0 {
        assert(orders.skip(0) =~= orders);
    } else {
        let rest = orders.drop_first();
        assert forall|k: int| 0 <= k < j - 1 implies (#[trigger] rest[k]).id != id by {
            assert(rest[k] == orders[k + 1]);
        }
        lemma_find_queue_skip(rest, id, j - 1);
        assert(rest.skip(j - 1) =~= orders.skip(j));
    }
}

proof fn lemma_find_level_skip(levels: Seq<LevelV>, p: Price, id: OrderId, i: int)
    requires
        0 <= i <= levels.len(),
        forall|k: int| 0 <= k < i ==> (#[trigger] levels[k]).price != p,
    ensures
        find_at_price(levels, p, id) == find_at_price(levels.skip(i), p, id),
    decreases i,
{
    if i == 0 {
        assert(levels.skip(0) =~= levels);
    } else {
        let rest = levels.drop_first();
        assert forall|k: int| 0 <= k < i - 1 implies (#[trigger] rest[k]).price != p by {
            assert(rest[k] == levels[k + 1]);
        }
        lemma_find_level_skip(rest, p, id, i - 1);
        assert(rest.skip(i - 1) =~= levels.skip(i));
    }
}

/// Scan one side for the order carrying `id` at the given price.
fn find_level(levels: &Vec<PriceLevel>, price: Price, id: OrderId) -> (r: Option<Order>)
    ensures
        r == find_at_price(levels_view(levels@), price, id),
{
    let ghost ls0 = levels_view(levels@);
    let mut i: usize = 0;
    loop
        invariant
            ls0 == levels_view(levels@),
            i <= levels.len(),
            forall|k: int| 0 <= k < i ==> (#[trigger] ls0[k]).price != price,
        decreases levels.len() - i,
    {
        proof {
            lemma_find_level_skip(ls0, price, id, i as int);
        }
        if i == levels.len() {
            proof {
                assert(ls0.skip(i as int) =~= Seq::<LevelV>::empty());
            }
            return None;
        }
        proof {
            assert(ls0.skip(i as int)[0] == ls0[i as int]);
            assert(ls0.skip(i as int).drop_first() =~= ls0.skip(i as int + 1));
        }
        if levels[i].price == price {
            let ghost q0 = ls0[i as int].orders;
            let n = levels[i].orders.len();
            let mut j: usize = 0;
            loop
                invariant
                    ls0 == levels_view(levels@),
                    i < levels.len(),
                    ls0[i as int].price == price,
                    forall|k: int| 0 <= k < i ==> (#[trigger] ls0[k]).price != price,
                    q0 == ls0[i as int].orders,
                    n == levels@[i as int].orders.len(),
                    j <= n,
                    forall|k: int| 0 <= k < j ==> (#[trigger] q0[k]).id != id,
                decreases n - j,
            {
                proof {
                    lemma_find_level_skip(ls0, price, id, i as int);
                    lemma_find_queue_skip(q0, id, j as int);
                }
                if j == n {
                    proof {
                        assert(q0.skip(j as int) =~= Seq::<Order>::empty());
                    }
                    return None;
                }
                proof {
                    assert(q0.skip(j as int)[0] == q0[j as int]);
                }
                if levels[i].orders[j].id == id {
                    return Some(levels[i].orders[j].clone());
                }
                j = j + 1;
            }
        }
        i = i + 1;
    }
}

proof fn lemma_queue_unfilled_push(orders: Seq<Order>, o: Order)
    ensures
        queue_unfilled(orders.push(o)) == queue_unfilled(orders) + o.amount - o.filled_amount,
    decreases orders.len(),
{
    if orders.len() == 0 {
        assert(orders.push(o) =~= seq![o]);
        assert(seq![o].drop_first() =~= Seq::<Order>::empty());
        assert(queue_unfilled(Seq::<Order>::empty()) == 0);
        assert(queue_unfilled(orders) == 0);
    } else {
        assert(orders.push(o).drop_first() =~= orders.drop_first().push(o));
        assert(orders.push(o)[0] == orders[0]);
        lemma_queue_unfilled_push(orders.drop_first(), o);
    }
}

proof fn lemma_queue_unfilled_bound(orders: Seq<Order>)
    ensures
        queue_unfilled(orders) <= orders.len() * (u64::MAX as int),
        (forall|j: int|
            0 <= j < orders.len() ==> (#[trigger] orders[j]).filled_amount <= orders[j].amount)
            ==> 0 <= queue_unfilled(orders),
    decreases orders.len(),
{
    if orders.len() == 0 {
    } else {
        let rest = orders.drop_first();
        lemma_queue_unfilled_bound(rest);
        assert forall|j: int|
            (forall|k: int|
                0 <= k < orders.len() ==> (#[trigger] orders[k]).filled_amount
                    <= orders[k].amount) && 0 <= j < rest.len() implies (
        #[trigger] rest[j]).filled_amount <= rest[j].amount by {
            assert(rest[j] == orders[j + 1]);
        }
        assert(queue_unfilled(orders) == orders[0].amount - orders[0].filled_amount
            + queue_unfilled(rest));
        assert(orders.len() * (u64::MAX as int) == rest.len() * (u64::MAX as int) + (
        u64::MAX as int)) by (nonlinear_arith)
            requires
                orders.len() == rest.len() + 1,
        ;
    }
}

/// Aggregate one side's levels into snapshot rows, preserving order.
fn snapshot_side(levels: &Vec<PriceLevel>) -> (r: Vec<OrderBookLevel>)
    requires
        forall|i: int, j: int|
            0 <= i < levels_view(levels@).len() && 0 <= j < levels_view(levels@)[i].orders.len()
                ==> (#[trigger] levels_view(levels@)[i].orders[j]).filled_amount <= levels_view(
                levels@,
            )[i].orders[j].amount,
    ensures
        r@.len() == levels_view(levels@).len(),
        forall|i: int|
            0 <= i < r@.len() ==> (#[trigger] r@[i]).price == levels_view(levels@)[i].price
                && r@[i].amount as int == queue_unfilled(levels_view(levels@)[i].orders),
{
    let ghost ls0 = levels_view(levels@);
    let mut out: Vec<OrderBookLevel> = Vec::new();
    let mut i: usize = 0;
    while i < levels.len()
        invariant
            ls0 == levels_view(levels@),
            forall|i2: int, j: int|
                0 <= i2 < ls0.len() && 0 <= j < ls0[i2].orders.len() ==> (
                #[trigger] ls0[i2].orders[j]).filled_amount <= ls0[i2].orders[j].amount,
            i <= levels.len(),
            out@.len() == i,
            forall|i2: int|
                0 <= i2 < i ==> (#[trigger] out@[i2]).price == ls0[i2].price && out@[i2].amount
                    as int == queue_unfilled(ls0[i2].orders),
        decreases levels.len() - i,
    {
        let ghost q = ls0[i as int].orders;
        let n = levels[i].orders.len();
        let mut acc: u128 = 0;
        let mut j: usize = 0;
        proof {
            assert(q.take(0) =~= Seq::<Order>::empty());
            assert(queue_unfilled(Seq::<Order>::empty()) == 0);
        }
        while j < n
            invariant
                ls0 == levels_view(levels@),
                i < levels.len(),
                q == ls0[i as int].orders,
                forall|k: int|
                    0 <= k < q.len() ==> (#[trigger] q[k]).filled_amount <= q[k].amount,
                n == levels@[i as int].orders.len(),
                j <= n,
                acc as int == queue_unfilled(q.take(j as int)),
                acc as int <= (j as int) * (u64::MAX as int),
            decreases n - j,
        {
            let o_amount = levels[i].orders[j].amount;
            let o_filled = levels[i].orders[j].filled_amount;
            let term = (o_amount - o_filled) as u128;
            proof {
                assert(q[j as int].filled_amount <= q[j as int].amount);
                assert(q.take(j as int + 1) =~= q.take(j as int).push(q[j as int]));
                lemma_queue_unfilled_push(q.take(j as int), q[j as int]);
                assert((acc as int) + (term as int) <= ((j as int) + 1) * (u64::MAX as int)) by (nonlinear_arith)
                    requires
                        acc as int <= (j as int) * (u64::MAX as int),
                        term as int <= (u64::MAX as int),
                        0 <= j as int,
                ;
                assert(((j as int) + 1) * (u64::MAX as int) < 0x100000000000000000000000000000000int)
                    by (nonlinear_arith)
                    requires
                        0 <= j as int,
                        (j as int) + 1 <= 0xffffffffffffffffint,
                ;
            }
            acc = acc + term;
            j = j + 1;
        }
        proof {
            assert(q.take(n as int) =~= q);
        }
        out.push(OrderBookLevel { price: levels[i].price, amount: acc });
        i = i + 1;
    }
    out
}

impl OrderBook {
    /// A copy of the resting order with this id, or `None` if none rests.
    pub fn get_order_by_id(&self, order_id: &OrderId) -> (r: Option<Order>)
        ensures
            r == book_find_spec(self@, *order_id),
    {
        let price = match self.order_locations.get(order_id) {
            Some(p) => *p,
            None => {
                return None;
            },
        };
        match find_level(&self.bids, price, *order_id) {
            Some(o) => Some(o),
            None => find_level(&self.asks, price, *order_id),
        }
    }

    /// The aggregated view of both sides: for every level its price and the
    /// sum of unfilled quantity across the orders resting at it, bids
    /// highest price first and asks lowest price first.
    pub fn get_order_book_snapshot(&self) -> (r: OrderBookSnapshot)
        requires
            book_wf(self@),
        ensures
            r.bids@.len() == self@.bids.len(),
            r.asks@.len() == self@.asks.len(),
            forall|i: int|
                0 <= i < r.bids@.len() ==> (#[trigger] r.bids@[i]).price == self@.bids[i].price
                    && r.bids@[i].amount as int == queue_unfilled(self@.bids[i].orders),
            forall|i: int|
                0 <= i < r.asks@.len() ==> (#[trigger] r.asks@[i]).price == self@.asks[i].price
                    && r.asks@[i].amount as int == queue_unfilled(self@.asks[i].orders),
    {
        proof {
            assert forall|i: int, j: int|
                0 <= i < self@.bids.len() && 0 <= j < self@.bids[i].orders.len() implies (
            #[trigger] self@.bids[i].orders[j]).filled_amount <= self@.bids[i].orders[j].amount by {
                assert(order_ok(self@.bids[i].orders[j], crate::types::Side::Buy, self@.bids[i].price));
            }
            assert forall|i: int, j: int|
                0 <= i < self@.asks.len() && 0 <= j < self@.asks[i].orders.len() implies (
            #[trigger] self@.asks[i].orders[j]).filled_amount <= self@.asks[i].orders[j].amount by {
                assert(order_ok(self@.asks[i].orders[j], crate::types::Side::Sell, self@.asks[i].price));
            }
        }
        let bids = snapshot_side(&self.bids);
        let asks = snapshot_side(&self.asks);
        OrderBookSnapshot { bids, asks }
    }
}

} // verus!
