//! Laws of the matching core, stated and proved over the specification-level
//! transition functions that the executable operations are proved to
//! realize: price-time priority, amount conservation, no crossing after a
//! caller-mediated match-then-rest, idempotent removal, and amendment
//! bounds. Index consistency after every operation is part of `book_wf`,
//! which every mutating operation's contract preserves.

use vstd::prelude::*;

use crate::book::{
    best_price_of, better_price, book_wf, insert_into_levels, lemma_insert_head_price, level_ok,
    order_ok, side_ok, BookV, LevelV,
};
use crate::matching::{
    fill_full, filled_maker, fills_sum, match_outcome, match_queue_spec, match_side_spec,
    price_eligible, queue_has_id, side_live, FillV,
};
use crate::mutate::{amend_in_queue, amend_at_price, book_amend_spec, book_remove_spec};
use crate::query::{find_at_price, find_in_queue};
use crate::types::{opposite, opt_price, Amount, AmendError, Order, OrderId, OrderType, Price, Side};

verus! {

/// A side's resting orders flattened in priority order: best level first,
/// oldest order first within each level.
pub open spec fn flat_orders(levels: Seq<LevelV>) -> Seq<Order>
    decreases levels.len(),
{
    if levels.len() == 0 {
        Seq::empty()
    } else {
        levels[0].orders + flat_orders(levels.drop_first())
    }
}

/// The longest prefix of levels whose prices the taker is willing to trade.
pub open spec fn eligible_prefix(levels: Seq<LevelV>, taker: Order) -> Seq<LevelV>
    decreases levels.len(),
{
    if levels.len() == 0 || !price_eligible(taker, levels[0].price) {
        Seq::empty()
    } else {
        seq![levels[0]] + eligible_prefix(levels.drop_first(), taker)
    }
}

/// The book is not crossed: when both sides rest, the best bid is strictly
/// below the best ask.
pub open spec fn no_cross(b: BookV) -> bool {
    b.bids.len() > 0 && b.asks.len() > 0 ==> b.bids[0].price < b.asks[0].price
}

/// A match against one queue of live makers consumes them strictly oldest
/// first: the fills are against the queue's leading orders in order, and an
/// emptied queue means every maker was filled.
proof fn lemma_match_queue_fifo(orders: Seq<Order>, rem: int, side: Side, p: Price)
    requires
        rem >= 0,
        forall|j: int| 0 <= j < orders.len() ==> order_ok(#[trigger] orders[j], side, p),
        forall|j: int|
            0 <= j < orders.len() ==> (#[trigger] orders[j]).filled_amount < orders[j].amount,
    ensures
        ({
            let q = match_queue_spec(orders, rem);
            &&& q.fills.len() <= orders.len()
            &&& (forall|i: int| 0 <= i < q.fills.len() ==> (#[trigger] q.fills[i]).maker == orders[i])
            &&& (q.orders.len() == 0 ==> q.fills.len() == orders.len())
        }),
    decreases orders.len(),
{
    let q = match_queue_spec(orders, rem);
    if rem <= 0 || orders.len() == 0 {
    } else {
        let m = orders[0];
        let mrem = m.amount - m.filled_amount;
        let tail = orders.drop_first();
        assert forall|j: int| 0 <= j < tail.len() implies order_ok(#[trigger] tail[j], side, p)
            && tail[j].filled_amount < tail[j].amount by {
            assert(tail[j] == orders[j + 1]);
        }
        if rem >= mrem {
            lemma_match_queue_fifo(tail, rem - mrem, side, p);
            let r = match_queue_spec(tail, rem - mrem);
            assert forall|i: int| 0 <= i < q.fills.len() implies (#[trigger] q.fills[i]).maker
                == orders[i] by {
                if i > 0 {
                    assert(q.fills[i] == r.fills[i - 1]);
                    assert(r.fills[i - 1].maker == tail[i - 1]);
                }
            }
        } else {
            assert(q.fills[0].maker == orders[0]);
        }
    }
}

/// Price-time priority: the makers a matching pass executes against are
/// exactly the leading orders of the opposite side flattened in priority
/// order (best price first, oldest first within a price), restricted to the
/// levels the taker's price allows.
pub proof fn lemma_price_time_priority(levels: Seq<LevelV>, taker: Order, rem: int, side: Side)
    requires
        rem >= 0,
        side_ok(levels, side),
        crate::book::side_levels_ids_unique(levels),
        side_live(levels),
    ensures
        ({
            let s = match_side_spec(levels, taker, rem);
            let fl = flat_orders(eligible_prefix(levels, taker));
            &&& s.fills.len() <= fl.len()
            &&& (forall|i: int| 0 <= i < s.fills.len() ==> (#[trigger] s.fills[i]).maker == fl[i])
        }),
    decreases levels.len(),
{
    let s = match_side_spec(levels, taker, rem);
    let fl = flat_orders(eligible_prefix(levels, taker));
    if rem <= 0 || levels.len() == 0 || !price_eligible(taker, levels[0].price) {
        if levels.len() == 0 || !price_eligible(taker, levels[0].price) {
            assert(eligible_prefix(levels, taker) =~= Seq::<LevelV>::empty());
        }
    } else {
        let q0 = levels[0].orders;
        let q = match_queue_spec(q0, rem);
        let tail = levels.drop_first();
        let rest = match_side_spec(tail, taker, q.rem);
        let ep = eligible_prefix(levels, taker);
        assert(ep == seq![levels[0]] + eligible_prefix(tail, taker));
        assert(ep[0] == levels[0]);
        assert(ep.drop_first() =~= eligible_prefix(tail, taker));
        assert(fl == q0 + flat_orders(eligible_prefix(tail, taker)));
        assert(level_ok(levels[0], side));
        assert forall|j: int| 0 <= j < q0.len() implies order_ok(#[trigger] q0[j], side, levels[0].price)
            && q0[j].filled_amount < q0[j].amount by {
            assert(levels[0].orders[j] == q0[j]);
        }
        lemma_match_queue_fifo(q0, rem, side, levels[0].price);
        assert(crate::book::level_ids_unique(levels[0]));
        crate::matching::lemma_match_queue_props(q0, rem, side, levels[0].price);
        assert forall|i2: int| 0 <= i2 < tail.len() implies crate::book::level_ids_unique(
            #[trigger] tail[i2],
        ) by {
            assert(tail[i2] == levels[i2 + 1]);
        }
        assert forall|i2: int, j2: int|
            0 <= i2 < j2 < tail.len() implies better_price(
            side,
            (#[trigger] tail[i2]).price,
            (#[trigger] tail[j2]).price,
        ) by {
            assert(tail[i2] == levels[i2 + 1] && tail[j2] == levels[j2 + 1]);
        }
        assert forall|i2: int| 0 <= i2 < tail.len() implies level_ok(#[trigger] tail[i2], side) by {
            assert(tail[i2] == levels[i2 + 1]);
        }
        assert forall|i2: int, j2: int|
            0 <= i2 < tail.len() && 0 <= j2 < tail[i2].orders.len() implies (
        #[trigger] tail[i2].orders[j2]).filled_amount < tail[i2].orders[j2].amount by {
            assert(tail[i2] == levels[i2 + 1]);
        }
        lemma_price_time_priority(tail, taker, q.rem, side);
        if q.orders.len() == 0 {
            assert(q.fills.len() == q0.len());
            assert(s.fills == q.fills + rest.fills);
            assert forall|i: int| 0 <= i < s.fills.len() implies (#[trigger] s.fills[i]).maker
                == fl[i] by {
                if i < q0.len() {
                    assert(s.fills[i] == q.fills[i]);
                    assert(q.fills[i].maker == q0[i]);
                    assert(fl[i] == q0[i]);
                } else {
                    assert(s.fills[i] == rest.fills[i - q0.len()]);
                    assert(rest.fills[i - q0.len()].maker == flat_orders(
                        eligible_prefix(tail, taker),
                    )[i - q0.len()]);
                    assert(fl[i] == flat_orders(eligible_prefix(tail, taker))[i - q0.len()]);
                }
            }
        } else {
            // a surviving live maker means the taker is spent
            assert(q.rem == 0);
            assert(rest.fills =~= Seq::<FillV>::empty());
            assert(s.fills =~= q.fills);
            assert forall|i: int| 0 <= i < s.fills.len() implies (#[trigger] s.fills[i]).maker
                == fl[i] by {
                assert(s.fills[i] == q.fills[i]);
                assert(q.fills[i].maker == q0[i]);
                assert(fl[i] == q0[i]);
            }
        }
    }
}

/// Amount conservation: one matching pass executes exactly the taker's
/// consumed quantity, the total never exceeds the taker's remaining amount
/// at call time, every trade executes a positive quantity, and each fill
/// raises its maker's filled amount by exactly the executed quantity.
pub proof fn lemma_amount_conservation(b: BookV, taker: Order)
    requires
        book_wf(b),
        taker.filled_amount <= taker.amount,
    ensures
        ({
            let s = match_outcome(b, taker);
            &&& 0 <= s.rem <= taker.remaining()
            &&& fills_sum(s.fills) == taker.remaining() - s.rem
            &&& fills_sum(s.fills) <= taker.remaining()
            &&& (forall|n: int| 0 <= n < s.fills.len() ==> 0 < (#[trigger] s.fills[n]).amount)
            &&& (forall|n: int|
                0 <= n < s.fills.len() ==> filled_maker(#[trigger] s.fills[n]).filled_amount
                    == s.fills[n].maker.filled_amount + s.fills[n].amount)
        }),
{
    let mside = opposite(taker.side);
    crate::matching::lemma_match_side_props(
        b.side(mside),
        taker,
        taker.remaining(),
        mside,
        b.index,
    );
    let s = match_outcome(b, taker);
    assert forall|n: int|
        0 <= n < s.fills.len() implies filled_maker(#[trigger] s.fills[n]).filled_amount
        == s.fills[n].maker.filled_amount + s.fills[n].amount by {
        assert(s.fills[n].amount <= s.fills[n].maker.amount - s.fills[n].maker.filled_amount);
    }
}

/// No crossing: after matching a limit taker with live opposite makers, if a
/// remainder is left and the caller rests it on the taker's side, the best
/// bid stays strictly below the best ask.
pub proof fn lemma_no_cross_after_rest(b: BookV, taker: Order)
    requires
        book_wf(b),
        no_cross(b),
        taker.order_type == OrderType::Limit,
        taker.price.is_some(),
        taker.remaining() > 0,
        side_live(b.side(opposite(taker.side))),
    ensures
        ({
            let s = match_outcome(b, taker);
            s.rem > 0 ==> ({
                let rested = Order { filled_amount: (taker.amount - s.rem) as u64, ..taker };
                let b2 = match taker.side {
                    Side::Buy => BookV {
                        bids: insert_into_levels(b.bids, rested, Side::Buy),
                        asks: s.levels,
                        index: b.index,
                    },
                    Side::Sell => BookV {
                        bids: s.levels,
                        asks: insert_into_levels(b.asks, rested, Side::Sell),
                        index: b.index,
                    },
                };
                no_cross(b2)
            })
        }),
{
    let mside = opposite(taker.side);
    crate::matching::lemma_match_side_props(
        b.side(mside),
        taker,
        taker.remaining(),
        mside,
        b.index,
    );
    let s = match_outcome(b, taker);
    if s.rem > 0 {
        let rested = Order { filled_amount: (taker.amount - s.rem) as u64, ..taker };
        let limit = opt_price(taker.price);
        let own = b.side(taker.side);
        lemma_insert_head_price(own, rested, taker.side);
        let own2 = insert_into_levels(own, rested, taker.side);
        if s.levels.len() > 0 {
            assert(!price_eligible(taker, s.levels[0].price));
            let k = choose|k: int|
                0 <= k < b.side(mside).len() && (#[trigger] b.side(mside)[k]).price
                    == s.levels[0].price;
            if k > 0 {
                assert(better_price(mside, b.side(mside)[0].price, b.side(mside)[k].price));
            }
            match taker.side {
                Side::Buy => {
                    assert(s.levels[0].price > limit);
                    if own.len() > 0 {
                        assert(b.bids[0].price < b.asks[0].price);
                        assert(b.asks[0].price <= b.asks[k].price);
                    }
                    assert(own2[0].price < s.levels[0].price);
                },
                Side::Sell => {
                    assert(s.levels[0].price < limit);
                    if own.len() > 0 {
                        assert(b.bids[0].price < b.asks[0].price);
                        assert(b.bids[k].price <= b.bids[0].price);
                    }
                    assert(s.levels[0].price < own2[0].price);
                },
            }
        }
    }
}

/// Idempotent removal: removing the same id twice yields one outcome and
/// one "not found", and the second call leaves the book exactly as the
/// first left it.
pub proof fn lemma_remove_idempotent(b: BookV, id: OrderId, side: Side)
    ensures
        ({
            let r1 = book_remove_spec(b, id, side);
            let r2 = book_remove_spec(r1.0, id, side);
            &&& r2.0 == r1.0
            &&& r2.1.is_none()
        }),
{
    let r1 = book_remove_spec(b, id, side);
    if b.index.dom().contains(id) {
        assert(r1.0.index == b.index.remove(id));
        assert(!r1.0.index.dom().contains(id));
    }
}

proof fn lemma_amend_bad_queue(orders: Seq<Order>, id: OrderId, new_amount: Amount, o: Order)
    requires
        find_in_queue(orders, id) == Some(o),
        new_amount == 0 || new_amount > o.amount || new_amount < o.filled_amount,
    ensures
        amend_in_queue(orders, id, new_amount).1 == Err::<(), AmendError>(
            AmendError::InvalidAmount {
                attempted: new_amount,
                current_amount: o.amount,
                filled_amount: o.filled_amount,
            },
        ),
        amend_in_queue(orders, id, new_amount).0 == orders,
    decreases orders.len(),
{
    if orders.len() == 0 {
    } else if orders[0].id == id {
    } else {
        lemma_amend_bad_queue(orders.drop_first(), id, new_amount, o);
        assert(seq![orders[0]] + orders.drop_first() =~= orders);
    }
}

proof fn lemma_amend_bad_level(
    levels: Seq<LevelV>,
    p: Price,
    id: OrderId,
    new_amount: Amount,
    o: Order,
)
    requires
        find_at_price(levels, p, id) == Some(o),
        new_amount == 0 || new_amount > o.amount || new_amount < o.filled_amount,
    ensures
        amend_at_price(levels, p, id, new_amount).1 == Err::<(), AmendError>(
            AmendError::InvalidAmount {
                attempted: new_amount,
                current_amount: o.amount,
                filled_amount: o.filled_amount,
            },
        ),
        amend_at_price(levels, p, id, new_amount).0 == levels,
    decreases levels.len(),
{
    if levels.len() == 0 {
    } else if levels[0].price == p {
        lemma_amend_bad_queue(levels[0].orders, id, new_amount, o);
        assert(seq![LevelV { price: p, orders: levels[0].orders }] + levels.drop_first()
            =~= levels);
    } else {
        lemma_amend_bad_level(levels.drop_first(), p, id, new_amount, o);
        assert(seq![levels[0]] + levels.drop_first() =~= levels);
    }
}

/// Amendment bounds: amending the resting order with this id to zero, above
/// its current amount, or below its filled quantity always fails with the
/// typed failure carrying the violated bounds, and mutates nothing.
pub proof fn lemma_amend_bounds(b: BookV, id: OrderId, new_amount: Amount, side: Side, o: Order)
    requires
        b.index.dom().contains(id),
        find_at_price(b.side(side), b.index[id], id) == Some(o),
        new_amount == 0 || new_amount > o.amount || new_amount < o.filled_amount,
    ensures
        book_amend_spec(b, id, new_amount, side).1 == Err::<(), AmendError>(
            AmendError::InvalidAmount {
                attempted: new_amount,
                current_amount: o.amount,
                filled_amount: o.filled_amount,
            },
        ),
        book_amend_spec(b, id, new_amount, side).0 == b,
{
    lemma_amend_bad_level(b.side(side), b.index[id], id, new_amount, o);
    assert(b.with_side(side, b.side(side)) =~= b);
}

} // verus!
