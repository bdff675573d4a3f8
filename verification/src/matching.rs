//! The matching pass of a taker order against the opposite side of the book,
//! specified by pure functions over the ledger value: `match_queue_spec` for
//! one price level's FIFO queue and `match_side_spec` for the whole side in
//! favorable-price order. The executable pass is proved to realize exactly
//! that specification; trade ids and timestamps come from outside sources
//! and are the only unspecified trade fields.

use vstd::prelude::*;

use crate::book::{levels_view, LevelV, OrderBook, PriceLevel};
use crate::types::{opt_price, Amount, Order, OrderId, OrderType, Price, Side, Trade};
use std::collections::HashMap;

verus! {

broadcast use vstd::std_specs::hash::group_hash_axioms;

/// What one matching pass produced: the trades in execution order, the ids
/// of makers fully consumed and removed from the book, the makers partially
/// filled but still resting, and the taker's remainder if a limit taker
/// ended partially or wholly unfilled.
pub struct MatchResult {
    pub trades: Vec<Trade>,
    pub remaining_taker_order: Option<Order>,
    pub removed_maker_orders: Vec<OrderId>,
    pub updated_maker_orders: Vec<Order>,
}

/// Whether the taker is willing to trade at price `p`: a market taker takes
/// any price; a limit taker never crosses its own limit.
pub open spec fn price_eligible(taker: Order, p: Price) -> bool {
    match taker.order_type {
        OrderType::Market => true,
        OrderType::Limit => match taker.side {
            Side::Buy => p <= opt_price(taker.price),
            Side::Sell => p >= opt_price(taker.price),
        },
    }
}

/// One execution against a resting maker: the maker's state before the fill
/// and the executed quantity.
#[verifier::ext_equal]
pub ghost struct FillV {
    pub maker: Order,
    pub amount: int,
}

/// The fill consumed the maker's whole remaining quantity.
pub open spec fn fill_full(f: FillV) -> bool {
    f.amount == f.maker.amount - f.maker.filled_amount
}

/// The maker's state after its fill.
pub open spec fn filled_maker(f: FillV) -> Order {
    Order { filled_amount: (f.maker.filled_amount + f.amount) as u64, ..f.maker }
}

/// The ids of makers fully consumed by these fills, in execution order.
pub open spec fn removed_ids_of(fills: Seq<FillV>) -> Seq<OrderId>
    decreases fills.len(),
{
    if fills.len() == 0 {
        Seq::empty()
    } else {
        (if fill_full(fills[0]) {
            seq![fills[0].maker.id]
        } else {
            Seq::empty()
        }) + removed_ids_of(fills.drop_first())
    }
}

/// The makers partially filled by these fills, in their new states.
pub open spec fn updated_of(fills: Seq<FillV>) -> Seq<Order>
    decreases fills.len(),
{
    if fills.len() == 0 {
        Seq::empty()
    } else {
        (if !fill_full(fills[0]) {
            seq![filled_maker(fills[0])]
        } else {
            Seq::empty()
        }) + updated_of(fills.drop_first())
    }
}

/// The total quantity executed by these fills.
pub open spec fn fills_sum(fills: Seq<FillV>) -> int
    decreases fills.len(),
{
    if fills.len() == 0 {
        0
    } else {
        fills[0].amount + fills_sum(fills.drop_first())
    }
}

/// The outcome of matching against one level's queue: the fills, the
/// surviving queue, and the taker quantity still unfilled.
#[verifier::ext_equal]
pub ghost struct QueueMatchV {
    pub fills: Seq<FillV>,
    pub orders: Seq<Order>,
    pub rem: int,
}

/// Match a taker with `rem` unfilled units against a FIFO queue of makers,
/// oldest first: each step executes the smaller of the two remaining
/// quantities; a fully consumed maker leaves the queue; a maker without
/// remaining quantity is passed over.
pub open spec fn match_queue_spec(orders: Seq<Order>, rem: int) -> QueueMatchV
    decreases orders.len(),
{
    if rem <= 0 || orders.len() == 0 {
        QueueMatchV { fills: Seq::empty(), orders, rem }
    } else {
        let m = orders[0];
        let mrem = m.amount - m.filled_amount;
        if mrem <= 0 {
            let r = match_queue_spec(orders.drop_first(), rem);
            QueueMatchV { fills: r.fills, orders: seq![m] + r.orders, rem: r.rem }
        } else if rem >= mrem {
            let f = FillV { maker: m, amount: mrem };
            let r = match_queue_spec(orders.drop_first(), rem - mrem);
            QueueMatchV { fills: seq![f] + r.fills, orders: r.orders, rem: r.rem }
        } else {
            let f = FillV { maker: m, amount: rem };
            let m2 = Order { filled_amount: (m.filled_amount + rem) as u64, ..m };
            QueueMatchV { fills: seq![f], orders: seq![m2] + orders.drop_first(), rem: 0 }
        }
    }
}

/// The outcome of matching against a whole side: the fills in execution
/// order, the surviving ledger, and the taker quantity still unfilled.
#[verifier::ext_equal]
pub ghost struct SideMatchV {
    pub fills: Seq<FillV>,
    pub levels: Seq<LevelV>,
    pub rem: int,
}

/// Match a taker against a side's levels in favorable-price order, stopping
/// at the first level whose price the taker is not willing to trade at. A
/// level whose queue empties leaves the ledger.
pub open spec fn match_side_spec(levels: Seq<LevelV>, taker: Order, rem: int) -> SideMatchV
    decreases levels.len(),
{
    if rem <= 0 || levels.len() == 0 || !price_eligible(taker, levels[0].price) {
        SideMatchV { fills: Seq::empty(), levels, rem }
    } else {
        let q = match_queue_spec(levels[0].orders, rem);
        let rest = match_side_spec(levels.drop_first(), taker, q.rem);
        let head: Seq<LevelV> = if q.orders.len() == 0 {
            Seq::empty()
        } else {
            seq![LevelV { price: levels[0].price, orders: q.orders }]
        };
        SideMatchV { fills: q.fills + rest.fills, levels: head + rest.levels, rem: rest.rem }
    }
}

/// A trade reports exactly one fill: the executed quantity, the maker's
/// resting price, both parties' ids, and the taker's side and market.
pub open spec fn trade_for_fill(t: Trade, f: FillV, taker: Order) -> bool {
    &&& t.market_id == taker.market_id
    &&& t.taker_order_id == taker.id
    &&& t.maker_order_id == f.maker.id
    &&& t.amount as int == f.amount
    &&& t.price == opt_price(f.maker.price)
    &&& t.taker_side == taker.side
}

pub proof fn lemma_removed_ids_push(fills: Seq<FillV>, f: FillV)
    ensures
        removed_ids_of(fills.push(f)) =~= removed_ids_of(fills) + (if fill_full(f) {
            seq![f.maker.id]
        } else {
            Seq::<OrderId>::empty()
        }),
    decreases fills.len(),
{
    if fills.len() == 0 {
        assert(fills.push(f) =~= seq![f]);
        assert(seq![f].drop_first() =~= Seq::<FillV>::empty());
        assert(removed_ids_of(Seq::<FillV>::empty()) =~= Seq::<OrderId>::empty());
        assert(removed_ids_of(fills) =~= Seq::<OrderId>::empty());
    } else {
        assert(fills.push(f).drop_first() =~= fills.drop_first().push(f));
        lemma_removed_ids_push(fills.drop_first(), f);
        assert(fills.push(f)[0] == fills[0]);
        let hp: Seq<OrderId> = if fill_full(fills[0]) { seq![fills[0].maker.id] } else { Seq::empty() };
        let tp: Seq<OrderId> = if fill_full(f) { seq![f.maker.id] } else { Seq::empty() };
        assert(removed_ids_of(fills.push(f)) == hp + removed_ids_of(fills.drop_first().push(f)));
        assert(hp + (removed_ids_of(fills.drop_first()) + tp) =~= (hp + removed_ids_of(
            fills.drop_first(),
        )) + tp);
    }
}

pub proof fn lemma_updated_push(fills: Seq<FillV>, f: FillV)
    ensures
        updated_of(fills.push(f)) =~= updated_of(fills) + (if !fill_full(f) {
            seq![filled_maker(f)]
        } else {
            Seq::<Order>::empty()
        }),
    decreases fills.len(),
{
    if fills.len() == 0 {
        assert(fills.push(f) =~= seq![f]);
        assert(seq![f].drop_first() =~= Seq::<FillV>::empty());
        assert(updated_of(Seq::<FillV>::empty()) =~= Seq::<Order>::empty());
        assert(updated_of(fills) =~= Seq::<Order>::empty());
    } else {
        assert(fills.push(f).drop_first() =~= fills.drop_first().push(f));
        lemma_updated_push(fills.drop_first(), f);
        assert(fills.push(f)[0] == fills[0]);
        let hp: Seq<Order> = if !fill_full(fills[0]) { seq![filled_maker(fills[0])] } else { Seq::empty() };
        let tp: Seq<Order> = if !fill_full(f) { seq![filled_maker(f)] } else { Seq::empty() };
        assert(updated_of(fills.push(f)) == hp + updated_of(fills.drop_first().push(f)));
        assert(hp + (updated_of(fills.drop_first()) + tp) =~= (hp + updated_of(
            fills.drop_first(),
        )) + tp);
    }
}

pub proof fn lemma_fills_sum_push(fills: Seq<FillV>, f: FillV)
    ensures
        fills_sum(fills.push(f)) == fills_sum(fills) + f.amount,
    decreases fills.len(),
{
    if fills.len() == 0 {
        assert(fills.push(f) =~= seq![f]);
        assert(seq![f].drop_first() =~= Seq::<FillV>::empty());
        assert(fills_sum(Seq::<FillV>::empty()) == 0);
        assert(fills_sum(fills) == 0);
    } else {
        assert(fills.push(f).drop_first() =~= fills.drop_first().push(f));
        lemma_fills_sum_push(fills.drop_first(), f);
        assert(fills.push(f)[0] == fills[0]);
    }
}

/// Relies on uuid::Uuid::new_v4, a collision-free random generator, for a
/// fresh 128-bit trade id. Nothing can be promised of a random value.
#[verifier::external_body]
fn fresh_trade_id() -> u128 {
    uuid::Uuid::new_v4().as_u128()
}

/// Relies on chrono::Utc::now for the current wall-clock time in
/// milliseconds. Nothing can be promised of the clock's reading.
#[verifier::external_body]
fn now_millis() -> i64 {
    chrono::Utc::now().timestamp_millis()
}

/// Match the taker against one level's queue at `price`, realizing
/// `match_queue_spec` and appending the produced trades, removed maker ids
/// and updated makers to the accumulators.
#[verifier::rlimit(100)]
fn match_one_level(
    lvl_orders: &mut Vec<Order>,
    index: &mut HashMap<OrderId, Price>,
    taker: &mut Order,
    trades: &mut Vec<Trade>,
    removed: &mut Vec<OrderId>,
    updated: &mut Vec<Order>,
    price: Price,
)
    requires
        old(taker).filled_amount <= old(taker).amount,
        forall|j: int|
            0 <= j < old(lvl_orders)@.len() ==> (#[trigger] old(lvl_orders)@[j]).price == Some(
                price,
            ),
    ensures
        ({
            let q = match_queue_spec(old(lvl_orders)@, old(taker).remaining());
            final(lvl_orders)@ == q.orders
        }),
        (forall|j: int|
            0 <= j < final(lvl_orders)@.len() ==> (#[trigger] final(lvl_orders)@[j]).price == Some(
                price,
            )),
        ({
            let q = match_queue_spec(old(lvl_orders)@, old(taker).remaining());
            *final(taker) == Order {
                filled_amount: (old(taker).amount - q.rem) as u64,
                ..*old(taker)
            }
        }),
        ({
            let q = match_queue_spec(old(lvl_orders)@, old(taker).remaining());
            0 <= q.rem <= old(taker).remaining()
        }),
        ({
            let q = match_queue_spec(old(lvl_orders)@, old(taker).remaining());
            final(trades)@.len() == old(trades)@.len() + q.fills.len()
        }),
        final(trades)@.take(old(trades)@.len() as int) == old(trades)@,
        ({
            let q = match_queue_spec(old(lvl_orders)@, old(taker).remaining());
            let k = old(trades)@.len() as int;
            forall|n: int|
                0 <= n < q.fills.len() ==> trade_for_fill(
                    #[trigger] final(trades)@[k + n],
                    q.fills[n],
                    *old(taker),
                )
        }),
        ({
            let q = match_queue_spec(old(lvl_orders)@, old(taker).remaining());
            final(removed)@ == old(removed)@ + removed_ids_of(q.fills)
        }),
        ({
            let q = match_queue_spec(old(lvl_orders)@, old(taker).remaining());
            final(updated)@ == old(updated)@ + updated_of(q.fills)
        }),
        ({
            let q = match_queue_spec(old(lvl_orders)@, old(taker).remaining());
            forall|x: OrderId|
                removed_ids_of(q.fills).contains(x) ==> !final(index)@.dom().contains(x)
        }),
        ({
            let q = match_queue_spec(old(lvl_orders)@, old(taker).remaining());
            forall|x: OrderId|
                #![trigger old(index)@.dom().contains(x)]
                !removed_ids_of(q.fills).contains(x) ==> ((final(index)@.dom().contains(x)
                    <==> old(index)@.dom().contains(x)) && (old(index)@.dom().contains(x)
                    ==> final(index)@[x] == old(index)@[x]))
        }),
{
    let ghost q0 = lvl_orders@;
    let ghost t0 = *taker;
    let ghost k0 = trades@.len() as int;
    let ghost qq = match_queue_spec(q0, t0.remaining());
    proof {
        assert(q0.skip(0) =~= q0);
        assert(qq.fills.skip(0) =~= qq.fills);
        assert(qq.fills.take(0) =~= Seq::<FillV>::empty());
        assert(removed_ids_of(Seq::<FillV>::empty()) =~= Seq::<OrderId>::empty());
        assert(updated_of(Seq::<FillV>::empty()) =~= Seq::<Order>::empty());
        assert(q0.take(0) + qq.orders =~= qq.orders);
        assert(trades@.take(k0) =~= trades@);
        assert(removed@ + Seq::<OrderId>::empty() =~= removed@);
        assert(updated@ + Seq::<Order>::empty() =~= updated@);
    }
    let mut j: usize = 0;
    loop
        invariant
            q0 == old(lvl_orders)@,
            t0 == *old(taker),
            k0 == old(trades)@.len() as int,
            qq == match_queue_spec(q0, t0.remaining()),
            t0.filled_amount <= t0.amount,
            taker.id == t0.id,
            taker.user_id == t0.user_id,
            taker.market_id == t0.market_id,
            taker.side == t0.side,
            taker.order_type == t0.order_type,
            taker.amount == t0.amount,
            taker.price == t0.price,
            taker.timestamp == t0.timestamp,
            t0.filled_amount <= taker.filled_amount,
            taker.filled_amount <= taker.amount,
            j <= lvl_orders@.len(),
            forall|j2: int|
                0 <= j2 < lvl_orders@.len() ==> (#[trigger] lvl_orders@[j2]).price == Some(price),
            trades@.len() - k0 >= 0,
            qq.fills.len() >= trades@.len() - k0,
            ({
                let nf = trades@.len() - k0;
                let cur = match_queue_spec(lvl_orders@.skip(j as int), taker.remaining());
                &&& cur.fills == qq.fills.skip(nf)
                &&& qq.orders == lvl_orders@.take(j as int) + cur.orders
                &&& qq.rem == cur.rem
                &&& trades@.take(k0) == old(trades)@
                &&& (forall|n: int|
                    0 <= n < nf ==> trade_for_fill(#[trigger] trades@[k0 + n], qq.fills[n], t0))
                &&& removed@ == old(removed)@ + removed_ids_of(qq.fills.take(nf))
                &&& updated@ == old(updated)@ + updated_of(qq.fills.take(nf))
                &&& (forall|x: OrderId|
                    removed_ids_of(qq.fills.take(nf)).contains(x) ==> !index@.dom().contains(x))
                &&& (forall|x: OrderId|
                    #![trigger old(index)@.dom().contains(x)]
                    !removed_ids_of(qq.fills.take(nf)).contains(x) ==> ((index@.dom().contains(x)
                        <==> old(index)@.dom().contains(x)) && (old(index)@.dom().contains(x)
                        ==> index@[x] == old(index)@[x])))
            }),
        decreases lvl_orders@.len() - j + (taker.amount - taker.filled_amount),
    {
        let ghost l_pre = lvl_orders@;
        let ghost rem_pre = taker.remaining();
        let ghost tr_pre = trades@;
        let ghost idx_pre = index@;
        let ghost nf = trades@.len() - k0;
        let ghost cur = match_queue_spec(l_pre.skip(j as int), rem_pre);
        if j == lvl_orders.len() || taker.filled_amount == taker.amount {
            proof {
                if j == lvl_orders@.len() {
                    assert(l_pre.skip(j as int) =~= Seq::<Order>::empty());
                }
                assert(cur.fills =~= Seq::<FillV>::empty());
                assert(cur.orders == l_pre.skip(j as int));
                assert(qq.fills =~= qq.fills.take(nf));
                assert(l_pre.take(j as int) + l_pre.skip(j as int) =~= l_pre);
                assert(qq.orders =~= l_pre);
                assert(qq.rem == rem_pre);
                assert(taker.filled_amount == (t0.amount - qq.rem) as u64);
                assert(*taker == Order {
                    filled_amount: (t0.amount - qq.rem) as u64,
                    ..t0
                });
                assert(lvl_orders@ == qq.orders);
                assert(qq.fills.len() == nf);
                assert(trades@.len() == k0 + qq.fills.len());
                assert(0 <= qq.rem <= t0.remaining());
                assert(qq.fills.take(nf) == qq.fills);
                assert(removed_ids_of(qq.fills) == removed_ids_of(qq.fills.take(nf)));
                assert(updated_of(qq.fills) == updated_of(qq.fills.take(nf)));
                assert(removed@ == old(removed)@ + removed_ids_of(qq.fills));
                assert(updated@ == old(updated)@ + updated_of(qq.fills));
                assert forall|x: OrderId|
                    removed_ids_of(qq.fills).contains(x) implies !index@.dom().contains(x) by {
                    assert(removed_ids_of(qq.fills.take(nf)).contains(x));
                }
                assert forall|x: OrderId|
                    #![trigger old(index)@.dom().contains(x)]
                    !removed_ids_of(qq.fills).contains(x) implies ((index@.dom().contains(x)
                    <==> old(index)@.dom().contains(x)) && (old(index)@.dom().contains(x)
                    ==> index@[x] == old(index)@[x])) by {
                    assert(!removed_ids_of(qq.fills.take(nf)).contains(x));
                }
            }
            return ;
        }
        let maker_amount = lvl_orders[j].amount;
        let maker_filled = lvl_orders[j].filled_amount;
        let maker_id = lvl_orders[j].id;
        proof {
            assert(l_pre.skip(j as int)[0] == l_pre[j as int]);
            assert(l_pre.skip(j as int).drop_first() =~= l_pre.skip(j as int + 1));
            assert(rem_pre > 0);
        }
        if maker_filled >= maker_amount {
            // a maker without remaining quantity is passed over
            proof {
                let cur2 = match_queue_spec(l_pre.skip(j as int + 1), rem_pre);
                assert(cur.fills == cur2.fills);
                assert(cur.orders == seq![l_pre[j as int]] + cur2.orders);
                assert(cur.rem == cur2.rem);
                assert(l_pre.take(j as int + 1) =~= l_pre.take(j as int).push(l_pre[j as int]));
                assert(l_pre.take(j as int) + (seq![l_pre[j as int]] + cur2.orders) =~= l_pre.take(
                    j as int + 1,
                ) + cur2.orders);
            }
            j = j + 1;
            continue ;
        }
        let maker_rem = maker_amount - maker_filled;
        let taker_rem = taker.amount - taker.filled_amount;
        let fill = if taker_rem <= maker_rem {
            taker_rem
        } else {
            maker_rem
        };
        let trade = Trade {
            id: fresh_trade_id(),
            market_id: taker.market_id.clone(),
            taker_order_id: taker.id,
            maker_order_id: maker_id,
            amount: fill,
            price,
            timestamp: now_millis(),
            taker_side: taker.side,
        };
        trades.push(trade);
        taker.filled_amount = taker.filled_amount + fill;
        if fill == maker_rem {
            // maker fully consumed: leave the queue and the index
            removed.push(maker_id);
            index.remove(&maker_id);
            lvl_orders.remove(j);
            proof {
                let m = l_pre[j as int];
                let f = FillV { maker: m, amount: maker_rem as int };
                let rec = match_queue_spec(l_pre.skip(j as int + 1), rem_pre - maker_rem);
                assert(cur.fills == seq![f] + rec.fills);
                assert(cur.orders == rec.orders);
                assert(cur.rem == rec.rem);
                assert(fill_full(f));
                assert(qq.fills.skip(nf)[0] == f);
                assert(qq.fills[nf] == f);
                assert(qq.fills.skip(nf).drop_first() =~= qq.fills.skip(nf + 1));
                assert(rec.fills == qq.fills.skip(nf + 1));
                assert(qq.fills.take(nf + 1) =~= qq.fills.take(nf).push(f));
                lemma_removed_ids_push(qq.fills.take(nf), f);
                lemma_updated_push(qq.fills.take(nf), f);
                assert(removed@ =~= old(removed)@ + removed_ids_of(qq.fills.take(nf + 1)));
                assert(updated@ =~= old(updated)@ + updated_of(qq.fills.take(nf + 1)));
                assert(trades@[k0 + nf] == trade);
                assert(trade_for_fill(trade, f, t0));
                assert(trades@ =~= tr_pre.push(trade));
                assert(trades@.take(k0) =~= tr_pre.take(k0));
                assert forall|n: int| 0 <= n < nf + 1 implies trade_for_fill(
                    #[trigger] trades@[k0 + n],
                    qq.fills[n],
                    t0,
                ) by {
                    if n < nf {
                        assert(trades@[k0 + n] == tr_pre[k0 + n]);
                    }
                }
                assert(lvl_orders@ =~= l_pre.remove(j as int));
                assert(lvl_orders@.take(j as int) =~= l_pre.take(j as int));
                assert(lvl_orders@.skip(j as int) =~= l_pre.skip(j as int + 1));
                let cur2 = match_queue_spec(lvl_orders@.skip(j as int), taker.remaining());
                assert(taker.remaining() == rem_pre - maker_rem);
                assert(cur2 == rec);
                assert(qq.orders =~= lvl_orders@.take(j as int) + cur2.orders);
                assert(removed_ids_of(qq.fills.take(nf + 1)) =~= removed_ids_of(qq.fills.take(nf))
                    + seq![m.id]);
                assert(removed_ids_of(qq.fills.take(nf + 1)).contains(m.id)) by {
                    let rl = removed_ids_of(qq.fills.take(nf)).len() as int;
                    assert(removed_ids_of(qq.fills.take(nf + 1))[rl] == m.id);
                }
                assert forall|x: OrderId|
                    removed_ids_of(qq.fills.take(nf + 1)).contains(x) implies !index@.dom().contains(
                    x,
                ) by {
                    if x != m.id {
                        assert(removed_ids_of(qq.fills.take(nf)).contains(x)) by {
                            let w = choose|w: int|
                                0 <= w < removed_ids_of(qq.fills.take(nf + 1)).len() && #[trigger] removed_ids_of(
                                    qq.fills.take(nf + 1),
                                )[w] == x;
                            assert(removed_ids_of(qq.fills.take(nf))[w] == x);
                        }
                    }
                }
                assert forall|j2: int|
                    0 <= j2 < lvl_orders@.len() implies (#[trigger] lvl_orders@[j2]).price == Some(
                    price,
                ) by {
                    if j2 < j {
                        assert(lvl_orders@[j2] == l_pre[j2]);
                    } else {
                        assert(lvl_orders@[j2] == l_pre[j2 + 1]);
                    }
                }
                assert(index@ == idx_pre.remove(maker_id));
                assert forall|x: OrderId|
                    #![trigger old(index)@.dom().contains(x)]
                    !removed_ids_of(qq.fills.take(nf + 1)).contains(x) implies ((index@.dom().contains(
                    x,
                ) <==> old(index)@.dom().contains(x)) && (old(index)@.dom().contains(x)
                    ==> index@[x] == old(index)@[x])) by {
                    assert(!removed_ids_of(qq.fills.take(nf)).contains(x)) by {
                        if removed_ids_of(qq.fills.take(nf)).contains(x) {
                            let w = choose|w: int|
                                0 <= w < removed_ids_of(qq.fills.take(nf)).len() && #[trigger] removed_ids_of(
                                    qq.fills.take(nf),
                                )[w] == x;
                            assert(removed_ids_of(qq.fills.take(nf + 1))[w] == x);
                            assert(removed_ids_of(qq.fills.take(nf + 1)).contains(x));
                        }
                    }
                    assert(x != m.id);
                    assert(idx_pre.dom().contains(x) <==> old(index)@.dom().contains(x));
                }
            }
        } else {
            // maker partially filled: update it in place, taker is done
            let mut m2 = lvl_orders.remove(j);
            m2.filled_amount = m2.filled_amount + fill;
            let m2c = m2.clone();
            lvl_orders.insert(j, m2);
            updated.push(m2c);
            proof {
                let m = l_pre[j as int];
                let f = FillV { maker: m, amount: fill as int };
                assert(fill as int == rem_pre);
                assert(cur.fills == seq![f]);
                assert(cur.orders == seq![filled_maker(f)] + l_pre.skip(j as int + 1));
                assert(cur.rem == 0);
                assert(!fill_full(f));
                assert(qq.fills.skip(nf)[0] == f);
                assert(qq.fills[nf] == f);
                assert(qq.fills.skip(nf).len() == 1);
                assert(qq.fills =~= qq.fills.take(nf + 1));
                assert(qq.fills.take(nf + 1) =~= qq.fills.take(nf).push(f));
                lemma_removed_ids_push(qq.fills.take(nf), f);
                lemma_updated_push(qq.fills.take(nf), f);
                assert(m2 == filled_maker(f));
                assert(m2c == m2);
                assert(updated@ =~= old(updated)@ + updated_of(qq.fills.take(nf + 1)));
                assert(removed@ =~= old(removed)@ + removed_ids_of(qq.fills.take(nf + 1)));
                assert(trades@[k0 + nf] == trade);
                assert(trade_for_fill(trade, f, t0));
                assert(trades@ =~= tr_pre.push(trade));
                assert(trades@.take(k0) =~= tr_pre.take(k0));
                assert forall|n: int| 0 <= n < nf + 1 implies trade_for_fill(
                    #[trigger] trades@[k0 + n],
                    qq.fills[n],
                    t0,
                ) by {
                    if n < nf {
                        assert(trades@[k0 + n] == tr_pre[k0 + n]);
                    }
                }
                assert(lvl_orders@ =~= l_pre.update(j as int, filled_maker(f)));
                assert(lvl_orders@.take(j as int) =~= l_pre.take(j as int));
                assert(lvl_orders@.skip(j as int) =~= seq![filled_maker(f)] + l_pre.skip(
                    j as int + 1,
                ));
                let cur2 = match_queue_spec(lvl_orders@.skip(j as int), 0);
                assert(taker.remaining() == 0);
                assert(cur2.fills =~= qq.fills.skip(nf + 1));
                assert(cur2.orders == lvl_orders@.skip(j as int));
                assert(qq.orders =~= lvl_orders@.take(j as int) + cur2.orders);
                assert(qq.rem == 0);
                assert forall|j2: int|
                    0 <= j2 < lvl_orders@.len() implies (#[trigger] lvl_orders@[j2]).price == Some(
                    price,
                ) by {
                    if j2 != j {
                        assert(lvl_orders@[j2] == l_pre[j2]);
                    }
                }
                assert(removed_ids_of(qq.fills.take(nf + 1)) =~= removed_ids_of(
                    qq.fills.take(nf),
                ));
                assert(index@ == idx_pre);
            }
        }
    }
}

pub proof fn lemma_removed_ids_append(a: Seq<FillV>, b: Seq<FillV>)
    ensures
        removed_ids_of(a + b) =~= removed_ids_of(a) + removed_ids_of(b),
    decreases a.len(),
{
    if a.len() == 0 {
        assert(a + b =~= b);
        assert(removed_ids_of(a) =~= Seq::<OrderId>::empty());
        assert(removed_ids_of(a) + removed_ids_of(b) =~= removed_ids_of(b));
    } else {
        assert((a + b).drop_first() =~= a.drop_first() + b);
        assert((a + b)[0] == a[0]);
        lemma_removed_ids_append(a.drop_first(), b);
        let hp: Seq<OrderId> = if fill_full(a[0]) { seq![a[0].maker.id] } else { Seq::empty() };
        assert(removed_ids_of(a + b) == hp + removed_ids_of(a.drop_first() + b));
        assert(hp + (removed_ids_of(a.drop_first()) + removed_ids_of(b)) =~= (hp + removed_ids_of(
            a.drop_first(),
        )) + removed_ids_of(b));
    }
}

pub proof fn lemma_updated_append(a: Seq<FillV>, b: Seq<FillV>)
    ensures
        updated_of(a + b) =~= updated_of(a) + updated_of(b),
    decreases a.len(),
{
    if a.len() == 0 {
        assert(a + b =~= b);
        assert(updated_of(a) =~= Seq::<Order>::empty());
        assert(updated_of(a) + updated_of(b) =~= updated_of(b));
    } else {
        assert((a + b).drop_first() =~= a.drop_first() + b);
        assert((a + b)[0] == a[0]);
        lemma_updated_append(a.drop_first(), b);
        let hp: Seq<Order> = if !fill_full(a[0]) { seq![filled_maker(a[0])] } else { Seq::empty() };
        assert(updated_of(a + b) == hp + updated_of(a.drop_first() + b));
        assert(hp + (updated_of(a.drop_first()) + updated_of(b)) =~= (hp + updated_of(
            a.drop_first(),
        )) + updated_of(b));
    }
}

pub proof fn lemma_fills_sum_append(a: Seq<FillV>, b: Seq<FillV>)
    ensures
        fills_sum(a + b) == fills_sum(a) + fills_sum(b),
    decreases a.len(),
{
    if a.len() == 0 {
        assert(a + b =~= b);
    } else {
        assert((a + b).drop_first() =~= a.drop_first() + b);
        assert((a + b)[0] == a[0]);
        lemma_fills_sum_append(a.drop_first(), b);
    }
}

/// Every order of a well-priced ledger carries its level's price.
pub open spec fn levels_priced(levels: Seq<LevelV>) -> bool {
    forall|i: int, j: int|
        0 <= i < levels.len() && 0 <= j < levels[i].orders.len() ==> (
        #[trigger] levels[i].orders[j]).price == Some(levels[i].price)
}

/// Match the taker against a whole side's ledger, realizing
/// `match_side_spec`; the accumulators start empty and end holding exactly
/// what the specification assigns to the pass.
#[verifier::rlimit(100)]
#[verifier::spinoff_prover]
fn match_side(
    levels: &mut Vec<PriceLevel>,
    index: &mut HashMap<OrderId, Price>,
    taker: &mut Order,
    trades: &mut Vec<Trade>,
    removed: &mut Vec<OrderId>,
    updated: &mut Vec<Order>,
)
    requires
        old(taker).filled_amount <= old(taker).amount,
        old(taker).order_type == OrderType::Limit ==> old(taker).price.is_some(),
        levels_priced(levels_view(old(levels)@)),
        old(trades)@.len() == 0,
        old(removed)@.len() == 0,
        old(updated)@.len() == 0,
    ensures
        ({
            let s = match_side_spec(levels_view(old(levels)@), *old(taker), old(taker).remaining());
            levels_view(final(levels)@) == s.levels
        }),
        ({
            let s = match_side_spec(levels_view(old(levels)@), *old(taker), old(taker).remaining());
            *final(taker) == Order {
                filled_amount: (old(taker).amount - s.rem) as u64,
                ..*old(taker)
            }
        }),
        ({
            let s = match_side_spec(levels_view(old(levels)@), *old(taker), old(taker).remaining());
            0 <= s.rem <= old(taker).remaining()
        }),
        ({
            let s = match_side_spec(levels_view(old(levels)@), *old(taker), old(taker).remaining());
            final(trades)@.len() == s.fills.len()
        }),
        ({
            let s = match_side_spec(levels_view(old(levels)@), *old(taker), old(taker).remaining());
            forall|n: int|
                0 <= n < s.fills.len() ==> trade_for_fill(
                    #[trigger] final(trades)@[n],
                    s.fills[n],
                    *old(taker),
                )
        }),
        ({
            let s = match_side_spec(levels_view(old(levels)@), *old(taker), old(taker).remaining());
            final(removed)@ == removed_ids_of(s.fills)
        }),
        ({
            let s = match_side_spec(levels_view(old(levels)@), *old(taker), old(taker).remaining());
            final(updated)@ == updated_of(s.fills)
        }),
        ({
            let s = match_side_spec(levels_view(old(levels)@), *old(taker), old(taker).remaining());
            forall|x: OrderId|
                removed_ids_of(s.fills).contains(x) ==> !final(index)@.dom().contains(x)
        }),
        ({
            let s = match_side_spec(levels_view(old(levels)@), *old(taker), old(taker).remaining());
            forall|x: OrderId|
                #![trigger old(index)@.dom().contains(x)]
                !removed_ids_of(s.fills).contains(x) ==> ((final(index)@.dom().contains(x)
                    <==> old(index)@.dom().contains(x)) && (old(index)@.dom().contains(x)
                    ==> final(index)@[x] == old(index)@[x]))
        }),
{
    let ghost l0 = levels_view(levels@);
    let ghost t0 = *taker;
    let ghost ss = match_side_spec(l0, t0, t0.remaining());
    proof {
        assert(l0.skip(0) =~= l0);
        assert(ss.fills.skip(0) =~= ss.fills);
        assert(ss.fills.take(0) =~= Seq::<FillV>::empty());
        assert(removed_ids_of(Seq::<FillV>::empty()) =~= Seq::<OrderId>::empty());
        assert(updated_of(Seq::<FillV>::empty()) =~= Seq::<Order>::empty());
        assert(l0.take(0) + ss.levels =~= ss.levels);
        assert(removed@ =~= removed_ids_of(ss.fills.take(0)));
        assert(updated@ =~= updated_of(ss.fills.take(0)));
    }
    let mut i: usize = 0;
    loop
        invariant
            l0 == levels_view(old(levels)@),
            t0 == *old(taker),
            ss == match_side_spec(l0, t0, t0.remaining()),
            t0.filled_amount <= t0.amount,
            t0.order_type == OrderType::Limit ==> t0.price.is_some(),
            old(trades)@.len() == 0,
            old(removed)@.len() == 0,
            old(updated)@.len() == 0,
            taker.id == t0.id,
            taker.user_id == t0.user_id,
            taker.market_id == t0.market_id,
            taker.side == t0.side,
            taker.order_type == t0.order_type,
            taker.amount == t0.amount,
            taker.price == t0.price,
            taker.timestamp == t0.timestamp,
            t0.filled_amount <= taker.filled_amount,
            taker.filled_amount <= taker.amount,
            i <= levels@.len(),
            levels_priced(levels_view(levels@)),
            ss.fills.len() >= trades@.len(),
            ({
                let nf = trades@.len() as int;
                let lv = levels_view(levels@);
                let cur = match_side_spec(lv.skip(i as int), t0, taker.remaining());
                &&& cur.fills == ss.fills.skip(nf)
                &&& ss.levels == lv.take(i as int) + cur.levels
                &&& ss.rem == cur.rem
                &&& (forall|n: int|
                    0 <= n < nf ==> trade_for_fill(#[trigger] trades@[n], ss.fills[n], t0))
                &&& removed@ == removed_ids_of(ss.fills.take(nf))
                &&& updated@ == updated_of(ss.fills.take(nf))
                &&& (forall|x: OrderId|
                    removed_ids_of(ss.fills.take(nf)).contains(x) ==> !index@.dom().contains(x))
                &&& (forall|x: OrderId|
                    #![trigger old(index)@.dom().contains(x)]
                    !removed_ids_of(ss.fills.take(nf)).contains(x) ==> ((index@.dom().contains(x)
                        <==> old(index)@.dom().contains(x)) && (old(index)@.dom().contains(x)
                        ==> index@[x] == old(index)@[x])))
            }),
        decreases levels@.len() - i,
    {
        let ghost lv_pre = levels_view(levels@);
        let ghost rem_pre = taker.remaining();
        let ghost tr_pre = trades@;
        let ghost nf = trades@.len() as int;
        let ghost cur = match_side_spec(lv_pre.skip(i as int), t0, rem_pre);
        if i == levels.len() || taker.filled_amount == taker.amount {
            proof {
                if i == levels@.len() {
                    assert(lv_pre.skip(i as int) =~= Seq::<LevelV>::empty());
                }
                assert(cur.fills =~= Seq::<FillV>::empty());
                assert(cur.levels == lv_pre.skip(i as int));
                assert(ss.fills.skip(nf).len() == 0);
                assert(ss.fills.len() == nf);
                assert(ss.fills =~= ss.fills.take(nf));
                assert(lv_pre.take(i as int) + lv_pre.skip(i as int) =~= lv_pre);
                assert(ss.levels =~= lv_pre);
                assert(ss.rem == rem_pre);
                assert(*taker == Order {
                    filled_amount: (t0.amount - ss.rem) as u64,
                    ..t0
                });
                assert(removed_ids_of(ss.fills) == removed_ids_of(ss.fills.take(nf)));
                assert(updated_of(ss.fills) == updated_of(ss.fills.take(nf)));
                assert forall|x: OrderId|
                    removed_ids_of(ss.fills).contains(x) implies !index@.dom().contains(x) by {
                    assert(removed_ids_of(ss.fills.take(nf)).contains(x));
                }
                assert forall|x: OrderId|
                    #![trigger old(index)@.dom().contains(x)]
                    !removed_ids_of(ss.fills).contains(x) implies ((index@.dom().contains(x)
                    <==> old(index)@.dom().contains(x)) && (old(index)@.dom().contains(x)
                    ==> index@[x] == old(index)@[x])) by {
                    assert(!removed_ids_of(ss.fills.take(nf)).contains(x));
                }
            }
            return ;
        }
        let p = levels[i].price;
        proof {
            assert(lv_pre.skip(i as int)[0] == lv_pre[i as int]);
            assert(lv_pre.skip(i as int).drop_first() =~= lv_pre.skip(i as int + 1));
            assert(rem_pre > 0);
        }
        let stop = match taker.order_type {
            OrderType::Limit => match taker.side {
                Side::Buy => p > taker.price.unwrap(),
                Side::Sell => p < taker.price.unwrap(),
            },
            OrderType::Market => false,
        };
        if stop {
            proof {
                assert(!price_eligible(t0, lv_pre[i as int].price));
                assert(cur.fills =~= Seq::<FillV>::empty());
                assert(cur.levels == lv_pre.skip(i as int));
                assert(ss.fills =~= ss.fills.take(nf));
                assert(lv_pre.take(i as int) + lv_pre.skip(i as int) =~= lv_pre.take(i as int)
                    + cur.levels);
                assert(ss.levels =~= lv_pre.take(i as int) + lv_pre.skip(i as int));
                assert(ss.levels =~= lv_pre);
                assert(ss.rem == rem_pre);
                assert(*taker == Order {
                    filled_amount: (t0.amount - ss.rem) as u64,
                    ..t0
                });
                assert(removed_ids_of(ss.fills) == removed_ids_of(ss.fills.take(nf)));
                assert(updated_of(ss.fills) == updated_of(ss.fills.take(nf)));
                assert forall|x: OrderId|
                    removed_ids_of(ss.fills).contains(x) implies !index@.dom().contains(x) by {
                    assert(removed_ids_of(ss.fills.take(nf)).contains(x));
                }
                assert forall|x: OrderId|
                    #![trigger old(index)@.dom().contains(x)]
                    !removed_ids_of(ss.fills).contains(x) implies ((index@.dom().contains(x)
                    <==> old(index)@.dom().contains(x)) && (old(index)@.dom().contains(x)
                    ==> index@[x] == old(index)@[x])) by {
                    assert(!removed_ids_of(ss.fills.take(nf)).contains(x));
                }
            }
            return ;
        }
        let ghost idx_pre = index@;
        let ghost rm_pre = removed@;
        let ghost up_pre = updated@;
        let mut lvl = levels.remove(i);
        proof {
            assert(lvl@ == lv_pre[i as int]);
            assert(forall|j: int|
                0 <= j < lvl.orders@.len() ==> (#[trigger] lvl.orders@[j]).price == Some(p));
        }
        match_one_level(&mut lvl.orders, index, taker, trades, removed, updated, p);
        let keep = lvl.orders.len() > 0;
        if keep {
            levels.insert(i, lvl);
        }
        proof {
            let q = match_queue_spec(lv_pre[i as int].orders, rem_pre);
            let rest = match_side_spec(lv_pre.skip(i as int + 1), t0, q.rem);
            assert(price_eligible(t0, lv_pre[i as int].price));
            assert(cur.fills == q.fills + rest.fills);
            assert(cur.rem == rest.rem);
            let head: Seq<LevelV> = if q.orders.len() == 0 {
                Seq::empty()
            } else {
                seq![LevelV { price: lv_pre[i as int].price, orders: q.orders }]
            };
            assert(cur.levels == head + rest.levels);
            let ql = q.fills.len() as int;
            // fills decomposition
            assert(ss.fills.skip(nf) == q.fills + rest.fills);
            assert(ss.fills.skip(nf).len() == ql + rest.fills.len());
            assert(ss.fills.len() == nf + ql + rest.fills.len());
            assert forall|n: int| 0 <= n < ql implies ss.fills[nf + n] == q.fills[n] by {
                assert(ss.fills.skip(nf)[n] == (q.fills + rest.fills)[n]);
                assert((q.fills + rest.fills)[n] == q.fills[n]);
            }
            assert(rest.fills =~= ss.fills.skip(nf + ql)) by {
                assert forall|n: int| 0 <= n < rest.fills.len() implies rest.fills[n]
                    == ss.fills.skip(nf + ql)[n] by {
                    assert(ss.fills.skip(nf)[ql + n] == (q.fills + rest.fills)[ql + n]);
                    assert((q.fills + rest.fills)[ql + n] == rest.fills[n]);
                }
            }
            assert(ss.fills.take(nf + ql) =~= ss.fills.take(nf) + q.fills);
            lemma_removed_ids_append(ss.fills.take(nf), q.fills);
            lemma_updated_append(ss.fills.take(nf), q.fills);
            assert(removed@ =~= removed_ids_of(ss.fills.take(nf + ql)));
            assert(updated@ =~= updated_of(ss.fills.take(nf + ql)));
            // trades
            assert(trades@.len() == nf + ql);
            assert forall|n: int| 0 <= n < nf + ql implies trade_for_fill(
                #[trigger] trades@[n],
                ss.fills[n],
                t0,
            ) by {
                if n < nf {
                    assert(trades@.take(nf) == tr_pre);
                    assert(trades@[n] == trades@.take(nf)[n]);
                    assert(trade_for_fill(tr_pre[n], ss.fills[n], t0));
                } else {
                    assert(trade_for_fill(trades@[nf + (n - nf)], q.fills[n - nf], Order {
                        filled_amount: (t0.amount - rem_pre) as u64,
                        ..t0
                    }));
                    assert(ss.fills[n] == q.fills[n - nf]);
                }
            }
            // index: compose the two pointwise descriptions
            assert forall|x: OrderId|
                removed_ids_of(ss.fills.take(nf + ql)).contains(x) implies !index@.dom().contains(
                x,
            ) by {
                let rmq = removed_ids_of(q.fills);
                let rma = removed_ids_of(ss.fills.take(nf));
                assert(removed_ids_of(ss.fills.take(nf + ql)) =~= rma + rmq);
                let w = choose|w: int|
                    0 <= w < removed_ids_of(ss.fills.take(nf + ql)).len() && #[trigger] removed_ids_of(
                        ss.fills.take(nf + ql),
                    )[w] == x;
                if w < rma.len() {
                    assert(rma[w] == x);
                    assert(rma.contains(x));
                    assert(!idx_pre.dom().contains(x));
                    assert(!rmq.contains(x) ==> !index@.dom().contains(x));
                    if rmq.contains(x) {
                        assert(!index@.dom().contains(x));
                    }
                } else {
                    assert(rmq[w - rma.len()] == x);
                    assert(rmq.contains(x));
                }
            }
            assert forall|x: OrderId|
                #![trigger old(index)@.dom().contains(x)]
                !removed_ids_of(ss.fills.take(nf + ql)).contains(x) implies ((index@.dom().contains(
                x,
            ) <==> old(index)@.dom().contains(x)) && (old(index)@.dom().contains(x)
                ==> index@[x] == old(index)@[x])) by {
                let rmq = removed_ids_of(q.fills);
                let rma = removed_ids_of(ss.fills.take(nf));
                assert(removed_ids_of(ss.fills.take(nf + ql)) =~= rma + rmq);
                assert(!rma.contains(x)) by {
                    if rma.contains(x) {
                        let w = choose|w: int|
                            0 <= w < rma.len() && #[trigger] rma[w] == x;
                        assert((rma + rmq)[w] == x);
                        assert((rma + rmq).contains(x));
                    }
                }
                assert(!rmq.contains(x)) by {
                    if rmq.contains(x) {
                        let w = choose|w: int|
                            0 <= w < rmq.len() && #[trigger] rmq[w] == x;
                        assert((rma + rmq)[rma.len() + w] == x);
                        assert((rma + rmq).contains(x));
                    }
                }
            }
            // ledger shape and the next residual computation
            if keep {
                assert(lvl@ == LevelV { price: lv_pre[i as int].price, orders: q.orders });
                assert(levels_view(levels@) =~= lv_pre.update(i as int, lvl@));
                assert(levels_view(levels@).take(i as int + 1) =~= lv_pre.take(i as int).push(
                    lvl@,
                ));
                assert(levels_view(levels@).skip(i as int + 1) =~= lv_pre.skip(i as int + 1));
                let cur2 = match_side_spec(
                    levels_view(levels@).skip(i as int + 1),
                    t0,
                    taker.remaining(),
                );
                assert(taker.remaining() == q.rem);
                assert(cur2 == rest);
                assert(head =~= seq![lvl@]);
                assert(ss.levels =~= levels_view(levels@).take(i as int + 1) + cur2.levels) by {
                    assert(ss.levels == lv_pre.take(i as int) + ((seq![lvl@]) + rest.levels));
                }
                assert(levels_priced(levels_view(levels@))) by {
                    assert forall|i2: int, j2: int|
                        0 <= i2 < levels_view(levels@).len() && 0 <= j2 < levels_view(
                            levels@,
                        )[i2].orders.len() implies (#[trigger] levels_view(
                        levels@,
                    )[i2].orders[j2]).price == Some(levels_view(levels@)[i2].price) by {
                        if i2 != i {
                            assert(levels_view(levels@)[i2] == lv_pre[i2]);
                        }
                    }
                }
            } else {
                assert(q.orders.len() == 0);
                assert(head =~= Seq::<LevelV>::empty());
                assert(levels_view(levels@) =~= lv_pre.remove(i as int));
                assert(levels_view(levels@).take(i as int) =~= lv_pre.take(i as int));
                assert(levels_view(levels@).skip(i as int) =~= lv_pre.skip(i as int + 1));
                let cur2 = match_side_spec(
                    levels_view(levels@).skip(i as int),
                    t0,
                    taker.remaining(),
                );
                assert(taker.remaining() == q.rem);
                assert(cur2 == rest);
                assert(ss.levels =~= levels_view(levels@).take(i as int) + cur2.levels) by {
                    assert(ss.levels == lv_pre.take(i as int) + (Seq::<LevelV>::empty()
                        + rest.levels));
                }
                assert(levels_priced(levels_view(levels@))) by {
                    assert forall|i2: int, j2: int|
                        0 <= i2 < levels_view(levels@).len() && 0 <= j2 < levels_view(
                            levels@,
                        )[i2].orders.len() implies (#[trigger] levels_view(
                        levels@,
                    )[i2].orders[j2]).price == Some(levels_view(levels@)[i2].price) by {
                        if i2 < i {
                            assert(levels_view(levels@)[i2] == lv_pre[i2]);
                        } else {
                            assert(levels_view(levels@)[i2] == lv_pre[i2 + 1]);
                        }
                    }
                }
            }
        }
        if keep {
            i = i + 1;
        }
    }
}

/// Some order of this queue carries the given id.
pub open spec fn queue_has_id(orders: Seq<Order>, id: OrderId) -> bool {
    exists|j: int| 0 <= j < orders.len() && (#[trigger] orders[j]).id == id
}

/// Every resting order of this ledger still has quantity to trade.
pub open spec fn side_live(levels: Seq<LevelV>) -> bool {
    forall|i: int, j: int|
        0 <= i < levels.len() && 0 <= j < levels[i].orders.len() ==> (
        #[trigger] levels[i].orders[j]).filled_amount < levels[i].orders[j].amount
}

/// What matching does to one queue of valid makers: the taker quantity is
/// conserved into the fills, survivors stay valid with unchanged ids except
/// the consumed prefix, and exactly the fully consumed makers' ids are
/// reported removed.
#[verifier::rlimit(100)]
pub proof fn lemma_match_queue_props(orders: Seq<Order>, rem: int, side: Side, p: Price)
    requires
        rem >= 0,
        forall|j: int| 0 <= j < orders.len() ==> crate::book::order_ok(#[trigger] orders[j], side, p),
        forall|j1: int, j2: int|
            0 <= j1 < j2 < orders.len() ==> (#[trigger] orders[j1]).id != (#[trigger] orders[j2]).id,
    ensures
        ({
            let q = match_queue_spec(orders, rem);
            &&& 0 <= q.rem <= rem
            &&& fills_sum(q.fills) == rem - q.rem
            &&& (forall|n: int|
                0 <= n < q.fills.len() ==> 0 < (#[trigger] q.fills[n]).amount && q.fills[n].amount
                    <= q.fills[n].maker.amount - q.fills[n].maker.filled_amount
                    && crate::book::order_ok(q.fills[n].maker, side, p))
            &&& (forall|j: int|
                0 <= j < q.orders.len() ==> crate::book::order_ok(#[trigger] q.orders[j], side, p))
            &&& (forall|j1: int, j2: int|
                0 <= j1 < j2 < q.orders.len() ==> (#[trigger] q.orders[j1]).id != (
                #[trigger] q.orders[j2]).id)
            &&& (forall|x: OrderId|
                #[trigger] queue_has_id(q.orders, x) ==> queue_has_id(orders, x))
            &&& (forall|x: OrderId|
                #[trigger] removed_ids_of(q.fills).contains(x) ==> queue_has_id(orders, x))
            &&& (forall|x: OrderId|
                #[trigger] queue_has_id(q.orders, x) ==> !removed_ids_of(q.fills).contains(x))
            &&& (forall|x: OrderId|
                queue_has_id(orders, x) && !removed_ids_of(q.fills).contains(x)
                    ==> #[trigger] queue_has_id(q.orders, x))
            &&& (rem > 0 && (forall|j: int|
                0 <= j < orders.len() ==> (#[trigger] orders[j]).filled_amount < orders[j].amount)
                && q.orders.len() > 0 ==> q.rem == 0)
        }),
    decreases orders.len(),
{
    let q = match_queue_spec(orders, rem);
    if rem <= 0 || orders.len() == 0 {
        assert(fills_sum(q.fills) == 0);
        assert forall|x: OrderId| #[trigger]
            removed_ids_of(q.fills).contains(x) implies queue_has_id(orders, x) by {
            assert(removed_ids_of(q.fills).len() == 0);
        }
    } else {
        let m = orders[0];
        let mrem = m.amount - m.filled_amount;
        let tail = orders.drop_first();
        assert forall|j: int| 0 <= j < tail.len() implies crate::book::order_ok(
            #[trigger] tail[j],
            side,
            p,
        ) by {
            assert(tail[j] == orders[j + 1]);
        }
        assert forall|j1: int, j2: int| 0 <= j1 < j2 < tail.len() implies (#[trigger] tail[j1]).id
            != (#[trigger] tail[j2]).id by {
            assert(tail[j1] == orders[j1 + 1] && tail[j2] == orders[j2 + 1]);
        }
        assert(forall|x: OrderId| #[trigger] queue_has_id(tail, x) ==> queue_has_id(orders, x)) by {
            assert forall|x: OrderId| #[trigger] queue_has_id(tail, x) implies queue_has_id(
                orders,
                x,
            ) by {
                let w = choose|w: int| 0 <= w < tail.len() && (#[trigger] tail[w]).id == x;
                assert(orders[w + 1].id == x);
            }
        }
        if mrem <= 0 {
            lemma_match_queue_props(tail, rem, side, p);
            let r = match_queue_spec(tail, rem);
            assert(q.fills == r.fills && q.orders == seq![m] + r.orders && q.rem == r.rem);
            assert forall|j: int| 0 <= j < q.orders.len() implies crate::book::order_ok(
                #[trigger] q.orders[j],
                side,
                p,
            ) by {
                if j > 0 {
                    assert(q.orders[j] == r.orders[j - 1]);
                }
            }
            assert forall|j1: int, j2: int| 0 <= j1 < j2 < q.orders.len() implies (
            #[trigger] q.orders[j1]).id != (#[trigger] q.orders[j2]).id by {
                if j1 == 0 {
                    assert(q.orders[j2] == r.orders[j2 - 1]);
                    assert(queue_has_id(r.orders, r.orders[j2 - 1].id)) by {
                        assert(r.orders[j2 - 1].id == r.orders[j2 - 1].id);
                    }
                    assert(queue_has_id(tail, q.orders[j2].id));
                    let w = choose|w: int|
                        0 <= w < tail.len() && (#[trigger] tail[w]).id == q.orders[j2].id;
                    assert(orders[w + 1].id == q.orders[j2].id);
                    assert(m.id != orders[w + 1].id);
                } else {
                    assert(q.orders[j1] == r.orders[j1 - 1] && q.orders[j2] == r.orders[j2 - 1]);
                }
            }
            assert forall|x: OrderId| #[trigger] queue_has_id(q.orders, x) implies queue_has_id(
                orders,
                x,
            ) by {
                let w = choose|w: int| 0 <= w < q.orders.len() && (#[trigger] q.orders[w]).id == x;
                if w == 0 {
                    assert(orders[0].id == x);
                } else {
                    assert(r.orders[w - 1].id == x);
                    assert(queue_has_id(r.orders, x));
                    assert(queue_has_id(tail, x));
                    let w2 = choose|w2: int| 0 <= w2 < tail.len() && (#[trigger] tail[w2]).id == x;
                    assert(orders[w2 + 1].id == x);
                }
            }
            assert forall|x: OrderId| #[trigger]
                removed_ids_of(q.fills).contains(x) implies queue_has_id(orders, x) by {
                assert(removed_ids_of(r.fills).contains(x));
                assert(queue_has_id(tail, x));
                let w2 = choose|w2: int| 0 <= w2 < tail.len() && (#[trigger] tail[w2]).id == x;
                assert(orders[w2 + 1].id == x);
            }
            assert forall|x: OrderId| #[trigger]
                queue_has_id(q.orders, x) implies !removed_ids_of(q.fills).contains(x) by {
                let w = choose|w: int| 0 <= w < q.orders.len() && (#[trigger] q.orders[w]).id == x;
                if w == 0 {
                    // the head's id is nowhere in the tail, hence in no removal
                    if removed_ids_of(q.fills).contains(x) {
                        assert(queue_has_id(tail, x));
                        let w2 = choose|w2: int|
                            0 <= w2 < tail.len() && (#[trigger] tail[w2]).id == x;
                        assert(orders[0].id != orders[w2 + 1].id);
                        assert(false);
                    }
                } else {
                    assert(r.orders[w - 1].id == x);
                    assert(queue_has_id(r.orders, x));
                }
            }
            assert forall|x: OrderId|
                queue_has_id(orders, x) && !removed_ids_of(q.fills).contains(x) implies
                #[trigger] queue_has_id(q.orders, x) by {
                let w = choose|w: int| 0 <= w < orders.len() && (#[trigger] orders[w]).id == x;
                if w == 0 {
                    assert(q.orders[0].id == x);
                } else {
                    assert(tail[w - 1].id == x);
                    assert(queue_has_id(tail, x));
                    assert(queue_has_id(r.orders, x));
                    let w2 = choose|w2: int|
                        0 <= w2 < r.orders.len() && (#[trigger] r.orders[w2]).id == x;
                    assert(q.orders[w2 + 1].id == x);
                }
            }
        } else if rem >= mrem {
            lemma_match_queue_props(tail, rem - mrem, side, p);
            let r = match_queue_spec(tail, rem - mrem);
            let f = FillV { maker: m, amount: mrem };
            assert(q.fills == seq![f] + r.fills && q.orders == r.orders && q.rem == r.rem);
            assert(q.fills.drop_first() =~= r.fills);
            assert(fills_sum(q.fills) == mrem + fills_sum(r.fills));
            assert(fill_full(f));
            assert(removed_ids_of(q.fills) == seq![m.id] + removed_ids_of(r.fills));
            assert forall|n: int| 0 <= n < q.fills.len() implies 0 < (#[trigger] q.fills[n]).amount
                && q.fills[n].amount <= q.fills[n].maker.amount - q.fills[n].maker.filled_amount
                && crate::book::order_ok(q.fills[n].maker, side, p) by {
                if n > 0 {
                    assert(q.fills[n] == r.fills[n - 1]);
                }
            }
            assert forall|x: OrderId| #[trigger]
                removed_ids_of(q.fills).contains(x) implies queue_has_id(orders, x) by {
                let w = choose|w: int|
                    0 <= w < removed_ids_of(q.fills).len() && #[trigger] removed_ids_of(
                        q.fills,
                    )[w] == x;
                if w == 0 {
                    assert(orders[0].id == x);
                } else {
                    assert(removed_ids_of(r.fills)[w - 1] == x);
                    assert(removed_ids_of(r.fills).contains(x));
                    assert(queue_has_id(tail, x));
                    let w2 = choose|w2: int| 0 <= w2 < tail.len() && (#[trigger] tail[w2]).id == x;
                    assert(orders[w2 + 1].id == x);
                }
            }
            assert forall|x: OrderId| #[trigger] queue_has_id(q.orders, x) implies queue_has_id(
                orders,
                x,
            ) && !removed_ids_of(q.fills).contains(x) by {
                assert(queue_has_id(r.orders, x));
                assert(queue_has_id(tail, x));
                let w2 = choose|w2: int| 0 <= w2 < tail.len() && (#[trigger] tail[w2]).id == x;
                assert(orders[w2 + 1].id == x);
                if removed_ids_of(q.fills).contains(x) {
                    let w = choose|w: int|
                        0 <= w < removed_ids_of(q.fills).len() && #[trigger] removed_ids_of(
                            q.fills,
                        )[w] == x;
                    if w == 0 {
                        assert(m.id == x);
                        assert(m.id != orders[w2 + 1].id);
                        assert(false);
                    } else {
                        assert(removed_ids_of(r.fills)[w - 1] == x);
                        assert(removed_ids_of(r.fills).contains(x));
                        assert(false);
                    }
                }
            }
            assert forall|x: OrderId|
                queue_has_id(orders, x) && !removed_ids_of(q.fills).contains(x) implies
                #[trigger] queue_has_id(q.orders, x) by {
                let w = choose|w: int| 0 <= w < orders.len() && (#[trigger] orders[w]).id == x;
                if w == 0 {
                    assert(removed_ids_of(q.fills)[0] == m.id);
                    assert(removed_ids_of(q.fills).contains(m.id));
                    assert(false);
                } else {
                    assert(tail[w - 1].id == x);
                    assert(queue_has_id(tail, x));
                    assert(!removed_ids_of(r.fills).contains(x)) by {
                        if removed_ids_of(r.fills).contains(x) {
                            let w3 = choose|w3: int|
                                0 <= w3 < removed_ids_of(r.fills).len() && #[trigger] removed_ids_of(
                                    r.fills,
                                )[w3] == x;
                            assert(removed_ids_of(q.fills)[w3 + 1] == x);
                            assert(removed_ids_of(q.fills).contains(x));
                        }
                    }
                    assert(queue_has_id(r.orders, x));
                }
            }
        } else {
            let f = FillV { maker: m, amount: rem };
            let m2 = Order { filled_amount: (m.filled_amount + rem) as u64, ..m };
            assert(q.fills == seq![f] && q.orders == seq![m2] + tail && q.rem == 0);
            assert(q.fills.drop_first() =~= Seq::<FillV>::empty());
            assert(fills_sum(Seq::<FillV>::empty()) == 0);
            assert(removed_ids_of(Seq::<FillV>::empty()) =~= Seq::<OrderId>::empty());
            assert(q.fills[0] == f);
            assert(fills_sum(q.fills) == f.amount + fills_sum(q.fills.drop_first()));
            assert(fills_sum(q.fills) == rem);
            assert(!fill_full(f));
            assert(removed_ids_of(q.fills) == (Seq::<OrderId>::empty()) + removed_ids_of(
                q.fills.drop_first(),
            ));
            assert(removed_ids_of(q.fills) =~= Seq::<OrderId>::empty());
            assert forall|j: int| 0 <= j < q.orders.len() implies crate::book::order_ok(
                #[trigger] q.orders[j],
                side,
                p,
            ) by {
                if j > 0 {
                    assert(q.orders[j] == tail[j - 1]);
                }
            }
            assert forall|j1: int, j2: int| 0 <= j1 < j2 < q.orders.len() implies (
            #[trigger] q.orders[j1]).id != (#[trigger] q.orders[j2]).id by {
                assert(q.orders[j1].id == orders[j1].id && q.orders[j2].id == orders[j2].id);
            }
            assert forall|x: OrderId| #[trigger] queue_has_id(q.orders, x) implies queue_has_id(
                orders,
                x,
            ) by {
                let w = choose|w: int| 0 <= w < q.orders.len() && (#[trigger] q.orders[w]).id == x;
                assert(orders[w].id == x);
            }
            assert forall|x: OrderId|
                queue_has_id(orders, x) && !removed_ids_of(q.fills).contains(x) implies
                #[trigger] queue_has_id(q.orders, x) by {
                let w = choose|w: int| 0 <= w < orders.len() && (#[trigger] orders[w]).id == x;
                assert(q.orders[w].id == x);
            }
        }
    }
}

/// Under a consistent index, an id resting at the best level cannot also
/// rest deeper in the same side: the index pins it to one price.
proof fn lemma_head_tail_ids_disjoint(
    levels: Seq<LevelV>,
    side: Side,
    idx: Map<OrderId, Price>,
)
    requires
        levels.len() > 0,
        crate::book::side_ok(levels, side),
        crate::book::side_indexed(levels, idx),
    ensures
        forall|x: OrderId|
            #[trigger] queue_has_id(levels[0].orders, x) ==> !crate::book::side_has_id(
                levels.drop_first(),
                x,
            ),
{
    let tail = levels.drop_first();
    assert forall|x: OrderId| #[trigger]
        queue_has_id(levels[0].orders, x) implies !crate::book::side_has_id(tail, x) by {
        let w = choose|w: int|
            0 <= w < levels[0].orders.len() && (#[trigger] levels[0].orders[w]).id == x;
        assert(idx.dom().contains(x) && idx[x] == levels[0].price);
        if crate::book::side_has_id(tail, x) {
            let (i2, j2): (int, int) = choose|i2: int, j2: int|
                0 <= i2 < tail.len() && 0 <= j2 < tail[i2].orders.len() && (
            #[trigger] tail[i2].orders[j2]).id == x;
            assert(tail[i2] == levels[i2 + 1]);
            assert(idx[x] == levels[i2 + 1].price);
            assert(crate::book::better_price(side, levels[0].price, levels[i2 + 1].price));
            assert(false);
        }
    }
}

/// What matching does to a well-formed side: quantity is conserved into the
/// fills, the surviving ledger keeps the side's invariants and the index's
/// pricing, exactly the removed ids leave the ledger, every surviving level
/// keeps a price the side already had, and a taker left unfilled against a
/// live ledger ends with no level it is willing to trade at.
#[verifier::rlimit(100)]
pub proof fn lemma_match_side_props(
    levels: Seq<LevelV>,
    taker: Order,
    rem: int,
    side: Side,
    idx: Map<OrderId, Price>,
)
    requires
        rem >= 0,
        side == crate::types::opposite(taker.side),
        crate::book::side_ok(levels, side),
        crate::book::side_levels_ids_unique(levels),
        crate::book::side_indexed(levels, idx),
    ensures
        ({
            let s = match_side_spec(levels, taker, rem);
            &&& 0 <= s.rem <= rem
            &&& fills_sum(s.fills) == rem - s.rem
            &&& (forall|n: int|
                0 <= n < s.fills.len() ==> 0 < (#[trigger] s.fills[n]).amount && s.fills[n].amount
                    <= s.fills[n].maker.amount - s.fills[n].maker.filled_amount)
            &&& crate::book::side_ok(s.levels, side)
            &&& crate::book::side_levels_ids_unique(s.levels)
            &&& crate::book::side_indexed(s.levels, idx)
            &&& (forall|x: OrderId|
                #[trigger] crate::book::side_has_id(s.levels, x) ==> crate::book::side_has_id(
                    levels,
                    x,
                ))
            &&& (forall|x: OrderId|
                #[trigger] removed_ids_of(s.fills).contains(x) ==> crate::book::side_has_id(
                    levels,
                    x,
                ))
            &&& (forall|x: OrderId|
                #[trigger] crate::book::side_has_id(s.levels, x) ==> !removed_ids_of(
                    s.fills,
                ).contains(x))
            &&& (forall|x: OrderId|
                crate::book::side_has_id(levels, x) && !removed_ids_of(s.fills).contains(x)
                    ==> #[trigger] crate::book::side_has_id(s.levels, x))
            &&& (forall|i: int|
                0 <= i < s.levels.len() ==> exists|k: int|
                    0 <= k < levels.len() && (#[trigger] levels[k]).price == (
                    #[trigger] s.levels[i]).price)
            &&& ((side_live(levels) && s.rem > 0) ==> (forall|i: int|
                0 <= i < s.levels.len() ==> !price_eligible(taker, (#[trigger] s.levels[i]).price)))
        }),
    decreases levels.len(),
{
    let s = match_side_spec(levels, taker, rem);
    if rem <= 0 || levels.len() == 0 || !price_eligible(taker, levels[0].price) {
        assert(fills_sum(s.fills) == 0);
        assert forall|x: OrderId| #[trigger]
            removed_ids_of(s.fills).contains(x) implies crate::book::side_has_id(levels, x) by {
            assert(removed_ids_of(s.fills).len() == 0);
        }
        if side_live(levels) && s.rem > 0 {
            assert forall|i: int| 0 <= i < s.levels.len() implies !price_eligible(
                taker,
                (#[trigger] s.levels[i]).price,
            ) by {
                if levels.len() > 0 {
                    assert(!price_eligible(taker, levels[0].price));
                    if i > 0 {
                        // a worse price than an ineligible one stays ineligible
                        assert(crate::book::better_price(side, levels[0].price, levels[i].price));
                    }
                }
            }
        }
        assert forall|i: int| 0 <= i < s.levels.len() implies exists|k: int|
            0 <= k < levels.len() && (#[trigger] levels[k]).price == (#[trigger] s.levels[i]).price by {
            assert(levels[i].price == s.levels[i].price);
        }
    } else {
        let p0 = levels[0].price;
        let q0 = levels[0].orders;
        let q = match_queue_spec(q0, rem);
        let tail = levels.drop_first();
        let rest = match_side_spec(tail, taker, q.rem);
        let head: Seq<LevelV> = if q.orders.len() == 0 {
            Seq::empty()
        } else {
            seq![LevelV { price: p0, orders: q.orders }]
        };
        assert(s.fills == q.fills + rest.fills);
        assert(s.levels == head + rest.levels);
        assert(s.rem == rest.rem);
        assert(crate::book::level_ok(levels[0], side));
        assert(crate::book::level_ids_unique(levels[0]));
        lemma_match_queue_props(q0, rem, side, p0);
        lemma_head_tail_ids_disjoint(levels, side, idx);
        // the tail inherits the side's invariants
        assert forall|i: int, j: int|
            0 <= i < tail.len() && 0 <= j < tail[i].orders.len() implies {
            &&& idx.dom().contains((#[trigger] tail[i].orders[j]).id)
            &&& idx[tail[i].orders[j].id] == tail[i].price
        } by {
            assert(tail[i] == levels[i + 1]);
        }
        assert forall|i: int, j: int| 0 <= i < j < tail.len() implies crate::book::better_price(
            side,
            (#[trigger] tail[i]).price,
            (#[trigger] tail[j]).price,
        ) by {
            assert(tail[i] == levels[i + 1] && tail[j] == levels[j + 1]);
        }
        assert forall|i: int| 0 <= i < tail.len() implies crate::book::level_ok(
            #[trigger] tail[i],
            side,
        ) && crate::book::level_ids_unique(tail[i]) by {
            assert(tail[i] == levels[i + 1]);
        }
        lemma_match_side_props(tail, taker, q.rem, side, idx);
        lemma_removed_ids_append(q.fills, rest.fills);
        lemma_fills_sum_append(q.fills, rest.fills);
        assert(fills_sum(s.fills) == (rem - q.rem) + (q.rem - rest.rem));
        assert forall|n: int| 0 <= n < s.fills.len() implies 0 < (#[trigger] s.fills[n]).amount
            && s.fills[n].amount <= s.fills[n].maker.amount - s.fills[n].maker.filled_amount by {
            if n < q.fills.len() {
                assert(s.fills[n] == q.fills[n]);
            } else {
                assert(s.fills[n] == rest.fills[n - q.fills.len()]);
            }
        }
        let hl: int = head.len() as int;
        // side invariants of the combined ledger
        assert forall|i: int| 0 <= i < s.levels.len() implies exists|k: int|
            0 <= k < levels.len() && (#[trigger] levels[k]).price == (#[trigger] s.levels[i]).price by {
            if i < hl {
                assert(levels[0].price == s.levels[i].price);
            } else {
                assert(s.levels[i] == rest.levels[i - hl]);
                let k = choose|k: int|
                    0 <= k < tail.len() && (#[trigger] tail[k]).price == rest.levels[i - hl].price;
                assert(levels[k + 1].price == s.levels[i].price);
            }
        }
        assert forall|i: int, j: int| 0 <= i < j < s.levels.len() implies crate::book::better_price(
            side,
            (#[trigger] s.levels[i]).price,
            (#[trigger] s.levels[j]).price,
        ) by {
            if i < hl {
                assert(s.levels[i].price == p0);
                assert(s.levels[j] == rest.levels[j - hl]);
                let k = choose|k: int|
                    0 <= k < tail.len() && (#[trigger] tail[k]).price == rest.levels[j - hl].price;
                assert(levels[k + 1].price == s.levels[j].price);
                assert(crate::book::better_price(side, levels[0].price, levels[k + 1].price));
            } else {
                assert(s.levels[i] == rest.levels[i - hl] && s.levels[j] == rest.levels[j - hl]);
            }
        }
        assert forall|i: int| 0 <= i < s.levels.len() implies crate::book::level_ok(
            #[trigger] s.levels[i],
            side,
        ) && crate::book::level_ids_unique(s.levels[i]) by {
            if i < hl {
                assert(s.levels[0] == LevelV { price: p0, orders: q.orders });
                assert forall|j: int| 0 <= j < q.orders.len() implies crate::book::order_ok(
                    #[trigger] q.orders[j],
                    side,
                    p0,
                ) by {}
            } else {
                assert(s.levels[i] == rest.levels[i - hl]);
            }
        }
        assert forall|i: int, j: int|
            0 <= i < s.levels.len() && 0 <= j < s.levels[i].orders.len() implies {
            &&& idx.dom().contains((#[trigger] s.levels[i].orders[j]).id)
            &&& idx[s.levels[i].orders[j].id] == s.levels[i].price
        } by {
            if i < hl {
                let x = s.levels[0].orders[j].id;
                assert(q.orders[j].id == x);
                assert(queue_has_id(q.orders, x));
                assert(queue_has_id(q0, x));
                let w = choose|w: int| 0 <= w < q0.len() && (#[trigger] q0[w]).id == x;
                assert(idx.dom().contains(levels[0].orders[w].id));
                assert(idx[x] == levels[0].price);
            } else {
                assert(s.levels[i] == rest.levels[i - hl]);
                assert(crate::book::side_indexed(rest.levels, idx));
            }
        }
        // id bookkeeping across head and tail
        assert forall|x: OrderId| #[trigger]
            crate::book::side_has_id(s.levels, x) implies crate::book::side_has_id(levels, x)
            && !removed_ids_of(s.fills).contains(x) by {
            let (i, j): (int, int) = choose|i: int, j: int|
                0 <= i < s.levels.len() && 0 <= j < s.levels[i].orders.len() && (
            #[trigger] s.levels[i].orders[j]).id == x;
            if i < hl {
                assert(q.orders[j].id == x);
                assert(queue_has_id(q.orders, x));
                assert(queue_has_id(q0, x));
                let w = choose|w: int| 0 <= w < q0.len() && (#[trigger] q0[w]).id == x;
                assert(levels[0].orders[w].id == x);
                assert(crate::book::side_has_id(levels, x));
                assert(!removed_ids_of(q.fills).contains(x));
                assert(!crate::book::side_has_id(tail, x));
                assert(!removed_ids_of(rest.fills).contains(x)) by {
                    if removed_ids_of(rest.fills).contains(x) {
                        assert(crate::book::side_has_id(tail, x));
                    }
                }
                assert(!removed_ids_of(s.fills).contains(x)) by {
                    if removed_ids_of(s.fills).contains(x) {
                        let w2 = choose|w2: int|
                            0 <= w2 < removed_ids_of(s.fills).len() && #[trigger] removed_ids_of(
                                s.fills,
                            )[w2] == x;
                        if w2 < removed_ids_of(q.fills).len() {
                            assert(removed_ids_of(q.fills)[w2] == x);
                            assert(removed_ids_of(q.fills).contains(x));
                        } else {
                            assert(removed_ids_of(rest.fills)[w2 - removed_ids_of(
                                q.fills,
                            ).len()] == x);
                            assert(removed_ids_of(rest.fills).contains(x));
                        }
                    }
                }
            } else {
                assert(rest.levels[i - hl].orders[j].id == x);
                assert(crate::book::side_has_id(rest.levels, x));
                assert(crate::book::side_has_id(tail, x));
                let (i2, j2): (int, int) = choose|i2: int, j2: int|
                    0 <= i2 < tail.len() && 0 <= j2 < tail[i2].orders.len() && (
                #[trigger] tail[i2].orders[j2]).id == x;
                assert(levels[i2 + 1].orders[j2].id == x);
                assert(!removed_ids_of(rest.fills).contains(x));
                assert(!queue_has_id(q0, x)) by {
                    if queue_has_id(q0, x) {
                        assert(!crate::book::side_has_id(tail, x));
                    }
                }
                assert(!removed_ids_of(q.fills).contains(x)) by {
                    if removed_ids_of(q.fills).contains(x) {
                        assert(queue_has_id(q0, x));
                    }
                }
                assert(!removed_ids_of(s.fills).contains(x)) by {
                    if removed_ids_of(s.fills).contains(x) {
                        let w2 = choose|w2: int|
                            0 <= w2 < removed_ids_of(s.fills).len() && #[trigger] removed_ids_of(
                                s.fills,
                            )[w2] == x;
                        if w2 < removed_ids_of(q.fills).len() {
                            assert(removed_ids_of(q.fills)[w2] == x);
                            assert(removed_ids_of(q.fills).contains(x));
                        } else {
                            assert(removed_ids_of(rest.fills)[w2 - removed_ids_of(
                                q.fills,
                            ).len()] == x);
                            assert(removed_ids_of(rest.fills).contains(x));
                        }
                    }
                }
            }
        }
        assert forall|x: OrderId| #[trigger]
            removed_ids_of(s.fills).contains(x) implies crate::book::side_has_id(levels, x) by {
            let w2 = choose|w2: int|
                0 <= w2 < removed_ids_of(s.fills).len() && #[trigger] removed_ids_of(
                    s.fills,
                )[w2] == x;
            if w2 < removed_ids_of(q.fills).len() {
                assert(removed_ids_of(q.fills)[w2] == x);
                assert(removed_ids_of(q.fills).contains(x));
                assert(queue_has_id(q0, x));
                let w = choose|w: int| 0 <= w < q0.len() && (#[trigger] q0[w]).id == x;
                assert(levels[0].orders[w].id == x);
            } else {
                assert(removed_ids_of(rest.fills)[w2 - removed_ids_of(q.fills).len()] == x);
                assert(removed_ids_of(rest.fills).contains(x));
                assert(crate::book::side_has_id(tail, x));
                let (i2, j2): (int, int) = choose|i2: int, j2: int|
                    0 <= i2 < tail.len() && 0 <= j2 < tail[i2].orders.len() && (
                #[trigger] tail[i2].orders[j2]).id == x;
                assert(levels[i2 + 1].orders[j2].id == x);
            }
        }
        assert forall|x: OrderId|
            crate::book::side_has_id(levels, x) && !removed_ids_of(s.fills).contains(x) implies
            #[trigger] crate::book::side_has_id(s.levels, x) by {
            let (i, j): (int, int) = choose|i: int, j: int|
                0 <= i < levels.len() && 0 <= j < levels[i].orders.len() && (
            #[trigger] levels[i].orders[j]).id == x;
            if i == 0 {
                assert(queue_has_id(q0, x)) by {
                    assert(q0[j].id == x);
                }
                assert(!removed_ids_of(q.fills).contains(x)) by {
                    if removed_ids_of(q.fills).contains(x) {
                        let w2 = choose|w2: int|
                            0 <= w2 < removed_ids_of(q.fills).len() && #[trigger] removed_ids_of(
                                q.fills,
                            )[w2] == x;
                        assert(removed_ids_of(s.fills)[w2] == x);
                        assert(removed_ids_of(s.fills).contains(x));
                    }
                }
                assert(queue_has_id(q.orders, x));
                let w = choose|w: int|
                    0 <= w < q.orders.len() && (#[trigger] q.orders[w]).id == x;
                assert(q.orders.len() > 0);
                assert(s.levels[0].orders[w].id == x);
            } else {
                assert(tail[i - 1].orders[j].id == x);
                assert(crate::book::side_has_id(tail, x));
                assert(!removed_ids_of(rest.fills).contains(x)) by {
                    if removed_ids_of(rest.fills).contains(x) {
                        let w2 = choose|w2: int|
                            0 <= w2 < removed_ids_of(rest.fills).len() && #[trigger] removed_ids_of(
                                rest.fills,
                            )[w2] == x;
                        assert(removed_ids_of(s.fills)[removed_ids_of(q.fills).len() + w2] == x);
                        assert(removed_ids_of(s.fills).contains(x));
                    }
                }
                assert(crate::book::side_has_id(rest.levels, x));
                let (i2, j2): (int, int) = choose|i2: int, j2: int|
                    0 <= i2 < rest.levels.len() && 0 <= j2 < rest.levels[i2].orders.len() && (
                #[trigger] rest.levels[i2].orders[j2]).id == x;
                assert(s.levels[i2 + hl].orders[j2].id == x);
            }
        }
        // an unfilled taker against a live ledger exhausted every eligible level
        if side_live(levels) && s.rem > 0 {
            assert forall|i2: int, j2: int|
                0 <= i2 < tail.len() && 0 <= j2 < tail[i2].orders.len() implies (
            #[trigger] tail[i2].orders[j2]).filled_amount < tail[i2].orders[j2].amount by {
                assert(tail[i2] == levels[i2 + 1]);
            }
            assert(forall|j: int|
                0 <= j < q0.len() ==> (#[trigger] q0[j]).filled_amount < q0[j].amount);
            assert(q.rem > 0);
            assert(q.orders.len() == 0 || q.rem == 0);
            assert(hl == 0);
            assert forall|i: int| 0 <= i < s.levels.len() implies !price_eligible(
                taker,
                (#[trigger] s.levels[i]).price,
            ) by {
                assert(s.levels[i] == rest.levels[i]);
            }
        }
    }
}

/// The specified outcome of matching a taker against a book: what a
/// matching pass does to the side opposite the taker.
pub open spec fn match_outcome(b: crate::book::BookV, taker: Order) -> SideMatchV {
    match_side_spec(b.side(crate::types::opposite(taker.side)), taker, taker.remaining())
}

impl OrderBook {
    /// Match an incoming taker order against the opposite side of the book.
    /// Returns the trades in execution order, the ids of makers fully
    /// consumed, the makers partially filled but still resting, and the
    /// taker's remainder when a limit taker ends unfilled in part or whole.
    /// A taker with nothing left to fill is a pure no-op. The remainder is
    /// not rested here: resting it is the caller's explicit, separate call.
    #[verifier::rlimit(100)]
    pub fn match_order(&mut self, taker_order: Order) -> (r: MatchResult)
        requires
            crate::book::book_wf(old(self)@),
            taker_order.order_type == OrderType::Limit ==> taker_order.price.is_some(),
        ensures
            taker_order.filled_amount >= taker_order.amount ==> ({
                &&& final(self)@ == old(self)@
                &&& r.trades@.len() == 0
                &&& r.removed_maker_orders@.len() == 0
                &&& r.updated_maker_orders@.len() == 0
                &&& r.remaining_taker_order == Some(taker_order)
            }),
            taker_order.filled_amount < taker_order.amount ==> ({
                let s = match_outcome(old(self)@, taker_order);
                &&& final(self)@.side(crate::types::opposite(taker_order.side)) == s.levels
                &&& final(self)@.side(taker_order.side) == old(self)@.side(taker_order.side)
                &&& 0 <= s.rem <= taker_order.remaining()
                &&& fills_sum(s.fills) == taker_order.remaining() - s.rem
                &&& r.trades@.len() == s.fills.len()
                &&& (forall|n: int|
                    0 <= n < s.fills.len() ==> trade_for_fill(
                        #[trigger] r.trades@[n],
                        s.fills[n],
                        taker_order,
                    ))
                &&& r.removed_maker_orders@ == removed_ids_of(s.fills)
                &&& r.updated_maker_orders@ == updated_of(s.fills)
                &&& r.remaining_taker_order == (if taker_order.order_type == OrderType::Limit
                    && s.rem > 0 {
                    Some(
                        Order {
                            filled_amount: (taker_order.amount - s.rem) as u64,
                            ..taker_order
                        },
                    )
                } else {
                    None::<Order>
                })
                &&& (forall|x: OrderId|
                    #![trigger final(self)@.index.dom().contains(x)]
                    final(self)@.index.dom().contains(x) <==> (old(self)@.index.dom().contains(x)
                        && !removed_ids_of(s.fills).contains(x)))
                &&& (forall|x: OrderId|
                    #[trigger] final(self)@.index.dom().contains(x) ==> final(self)@.index[x]
                        == old(self)@.index[x])
                &&& crate::book::book_wf(final(self)@)
            }),
    {
        let ghost b0 = self@;
        if taker_order.filled_amount >= taker_order.amount {
            // nothing left to match: report the order back unchanged
            return MatchResult {
                trades: Vec::new(),
                remaining_taker_order: Some(taker_order),
                removed_maker_orders: Vec::new(),
                updated_maker_orders: Vec::new(),
            };
        }
        let ghost t0 = taker_order;
        let ghost mside = crate::types::opposite(t0.side);
        let mut taker = taker_order;
        let mut trades: Vec<Trade> = Vec::new();
        let mut removed_ids: Vec<OrderId> = Vec::new();
        let mut updated_orders: Vec<Order> = Vec::new();
        proof {
            assert(crate::book::side_ok(b0.side(mside), mside));
            assert(levels_priced(b0.side(mside))) by {
                assert forall|i: int, j: int|
                    0 <= i < b0.side(mside).len() && 0 <= j < b0.side(mside)[i].orders.len() implies (
                #[trigger] b0.side(mside)[i].orders[j]).price == Some(b0.side(mside)[i].price) by {
                    assert(crate::book::order_ok(
                        b0.side(mside)[i].orders[j],
                        mside,
                        b0.side(mside)[i].price,
                    ));
                }
            }
        }
        match taker.side {
            Side::Buy => match_side(
                &mut self.asks,
                &mut self.order_locations,
                &mut taker,
                &mut trades,
                &mut removed_ids,
                &mut updated_orders,
            ),
            Side::Sell => match_side(
                &mut self.bids,
                &mut self.order_locations,
                &mut taker,
                &mut trades,
                &mut removed_ids,
                &mut updated_orders,
            ),
        }
        let remaining_taker_order = if taker.order_type == OrderType::Limit && taker.filled_amount
            < taker.amount {
            Some(taker)
        } else {
            None
        };
        proof {
            let s = match_outcome(b0, t0);
            lemma_match_side_props(b0.side(mside), t0, t0.remaining(), mside, b0.index);
            let b2 = self@;
            assert(b2.side(mside) == s.levels);
            assert(b2.side(t0.side) == b0.side(t0.side));
            // the index after the pass: the old index minus the removed ids
            assert forall|x: OrderId|
                #![trigger b2.index.dom().contains(x)]
                b2.index.dom().contains(x) <==> (b0.index.dom().contains(x) && !removed_ids_of(
                    s.fills,
                ).contains(x)) by {
                if removed_ids_of(s.fills).contains(x) {
                    assert(!b2.index.dom().contains(x));
                }
            }
            // the book stays well formed
            assert(crate::book::side_indexed(s.levels, b2.index)) by {
                assert forall|i: int, j: int|
                    0 <= i < s.levels.len() && 0 <= j < s.levels[i].orders.len() implies {
                    &&& b2.index.dom().contains((#[trigger] s.levels[i].orders[j]).id)
                    &&& b2.index[s.levels[i].orders[j].id] == s.levels[i].price
                } by {
                    let x = s.levels[i].orders[j].id;
                    assert(crate::book::side_has_id(s.levels, x)) by {
                        assert(s.levels[i].orders[j].id == x);
                    }
                    assert(!removed_ids_of(s.fills).contains(x));
                    assert(b0.index.dom().contains(x));
                    assert(b2.index.dom().contains(x) && b2.index[x] == b0.index[x]);
                }
            }
            assert(crate::book::side_indexed(b2.side(t0.side), b2.index)) by {
                assert forall|i: int, j: int|
                    0 <= i < b2.side(t0.side).len() && 0 <= j < b2.side(
                        t0.side,
                    )[i].orders.len() implies {
                    &&& b2.index.dom().contains((#[trigger] b2.side(t0.side)[i].orders[j]).id)
                    &&& b2.index[b2.side(t0.side)[i].orders[j].id] == b2.side(t0.side)[i].price
                } by {
                    let x = b2.side(t0.side)[i].orders[j].id;
                    assert(crate::book::side_has_id(b0.side(t0.side), x)) by {
                        assert(b0.side(t0.side)[i].orders[j].id == x);
                    }
                    assert(b0.index.dom().contains(x));
                    assert(!removed_ids_of(s.fills).contains(x)) by {
                        if removed_ids_of(s.fills).contains(x) {
                            assert(crate::book::side_has_id(b0.side(mside), x));
                            assert(crate::book::side_has_id(b0.bids, x) && crate::book::side_has_id(
                                b0.asks,
                                x,
                            ));
                        }
                    }
                    assert(b2.index.dom().contains(x) && b2.index[x] == b0.index[x]);
                }
            }
            assert forall|x: OrderId|
                !(#[trigger] crate::book::side_has_id(b2.bids, x) && #[trigger] crate::book::side_has_id(
                    b2.asks,
                    x,
                )) by {
                if crate::book::side_has_id(b2.bids, x) && crate::book::side_has_id(b2.asks, x) {
                    assert(crate::book::side_has_id(b0.bids, x) && crate::book::side_has_id(
                        b0.asks,
                        x,
                    ));
                }
            }
            assert forall|x: OrderId| #[trigger]
                b2.index.dom().contains(x) implies crate::book::side_has_id(b2.bids, x)
                || crate::book::side_has_id(b2.asks, x) by {
                assert(b0.index.dom().contains(x) && !removed_ids_of(s.fills).contains(x));
                assert(crate::book::side_has_id(b0.bids, x) || crate::book::side_has_id(
                    b0.asks,
                    x,
                ));
                if crate::book::side_has_id(b0.side(mside), x) {
                    assert(crate::book::side_has_id(s.levels, x));
                }
            }
            assert(crate::book::book_wf(b2));
        }
        MatchResult { trades, remaining_taker_order, removed_maker_orders: removed_ids, updated_maker_orders: updated_orders }
    }
}

} // verus!
