//! Removal and amendment of resting orders. Both consult the order index for
//! the resting price, then work on the level holding that price. Removal
//! clears the index entry in every case where the index held the id, so that
//! after the call the id never remains in the index. Amendment either fully
//! succeeds or leaves the book untouched.

use vstd::prelude::*;

use crate::book::{
    book_wf, level_ids_unique, levels_view, order_ok, side_has_id, side_indexed,
    side_levels_ids_unique, side_ok, BookV, LevelV, OrderBook, PriceLevel,
};
use crate::types::{opposite, Amount, AmendError, Order, OrderId, Price, Side};

verus! {

broadcast use vstd::std_specs::hash::group_hash_axioms;

/// The queue with the first order carrying `id` removed, and that order.
pub open spec fn remove_from_queue(orders: Seq<Order>, id: OrderId) -> (Seq<Order>, Option<Order>)
    decreases orders.len(),
{
    if orders.len() == 0 {
        (orders, None::<Order>)
    } else if orders[0].id == id {
        (orders.drop_first(), Some(orders[0]))
    } else {
        let r = remove_from_queue(orders.drop_first(), id);
        (seq![orders[0]] + r.0, r.1)
    }
}

/// The ledger after removing the first order carrying `id` from the level at
/// price `p`, dropping the level if it empties; `None` and no change if no
/// such order rests there.
pub open spec fn remove_at_price(levels: Seq<LevelV>, p: Price, id: OrderId) -> (
    Seq<LevelV>,
    Option<Order>,
)
    decreases levels.len(),
{
    if levels.len() == 0 {
        (levels, None::<Order>)
    } else if levels[0].price == p {
        let r = remove_from_queue(levels[0].orders, id);
        match r.1 {
            None => (levels, None::<Order>),
            Some(o) => if r.0.len() == 0 {
                (levels.drop_first(), Some(o))
            } else {
                (seq![LevelV { price: p, orders: r.0 }] + levels.drop_first(), Some(o))
            },
        }
    } else {
        let r = remove_at_price(levels.drop_first(), p, id);
        (seq![levels[0]] + r.0, r.1)
    }
}

/// The whole-book transition of a removal on the given side.
pub open spec fn book_remove_spec(b: BookV, id: OrderId, side: Side) -> (BookV, Option<Order>) {
    if !b.index.dom().contains(id) {
        (b, None::<Order>)
    } else {
        let r = remove_at_price(b.side(side), b.index[id], id);
        (BookV { index: b.index.remove(id), ..b.with_side(side, r.0) }, r.1)
    }
}

/// The queue with the amount of the first order carrying `id` amended, or
/// the typed failure: not found, or an amount that is zero, grows the order,
/// or falls below the filled quantity.
pub open spec fn amend_in_queue(orders: Seq<Order>, id: OrderId, new_amount: Amount) -> (
    Seq<Order>,
    Result<(), AmendError>,
)
    decreases orders.len(),
{
    if orders.len() == 0 {
        (orders, Err(AmendError::NotFound))
    } else if orders[0].id == id {
        let o = orders[0];
        if new_amount == 0 || new_amount > o.amount || new_amount < o.filled_amount {
            (
                orders,
                Err(
                    AmendError::InvalidAmount {
                        attempted: new_amount,
                        current_amount: o.amount,
                        filled_amount: o.filled_amount,
                    },
                ),
            )
        } else {
            (orders.update(0, Order { amount: new_amount, ..o }), Ok(()))
        }
    } else {
        let r = amend_in_queue(orders.drop_first(), id, new_amount);
        (seq![orders[0]] + r.0, r.1)
    }
}

/// The ledger after amending within the level at price `p`.
pub open spec fn amend_at_price(levels: Seq<LevelV>, p: Price, id: OrderId, new_amount: Amount) -> (
    Seq<LevelV>,
    Result<(), AmendError>,
)
    decreases levels.len(),
{
    if levels.len() == 0 {
        (levels, Err(AmendError::NotFound))
    } else if levels[0].price == p {
        let r = amend_in_queue(levels[0].orders, id, new_amount);
        (seq![LevelV { price: p, orders: r.0 }] + levels.drop_first(), r.1)
    } else {
        let r = amend_at_price(levels.drop_first(), p, id, new_amount);
        (seq![levels[0]] + r.0, r.1)
    }
}

/// The whole-book transition of an amendment on the given side.
pub open spec fn book_amend_spec(b: BookV, id: OrderId, new_amount: Amount, side: Side) -> (
    BookV,
    Result<(), AmendError>,
) {
    if !b.index.dom().contains(id) {
        (b, Err(AmendError::NotFound))
    } else {
        let r = amend_at_price(b.side(side), b.index[id], id, new_amount);
        (b.with_side(side, r.0), r.1)
    }
}

impl OrderBook {
    /// Remove the resting buy order with this id; `None` (and, beyond the
    /// index entry, no change) if no such bid rests.
    pub fn remove_bid(&mut self, order_id: OrderId) -> (r: Option<Order>)
        requires
            book_wf(old(self)@),
        ensures
            final(self)@ == book_remove_spec(old(self)@, order_id, Side::Buy).0,
            r == book_remove_spec(old(self)@, order_id, Side::Buy).1,
            !final(self)@.index.dom().contains(order_id),
            r.is_some() <==> side_has_id(old(self)@.bids, order_id),
            !side_has_id(old(self)@.asks, order_id) ==> book_wf(final(self)@),
    {
        self.remove_order(order_id, Side::Buy)
    }

    /// Remove the resting sell order with this id; `None` (and, beyond the
    /// index entry, no change) if no such ask rests.
    pub fn remove_ask(&mut self, order_id: OrderId) -> (r: Option<Order>)
        requires
            book_wf(old(self)@),
        ensures
            final(self)@ == book_remove_spec(old(self)@, order_id, Side::Sell).0,
            r == book_remove_spec(old(self)@, order_id, Side::Sell).1,
            !final(self)@.index.dom().contains(order_id),
            r.is_some() <==> side_has_id(old(self)@.asks, order_id),
            !side_has_id(old(self)@.bids, order_id) ==> book_wf(final(self)@),
    {
        self.remove_order(order_id, Side::Sell)
    }

    fn remove_order(&mut self, order_id: OrderId, side: Side) -> (r: Option<Order>)
        requires
            book_wf(old(self)@),
        ensures
            final(self)@ == book_remove_spec(old(self)@, order_id, side).0,
            r == book_remove_spec(old(self)@, order_id, side).1,
            !final(self)@.index.dom().contains(order_id),
            r.is_some() <==> side_has_id(old(self)@.side(side), order_id),
            !side_has_id(old(self)@.side(opposite(side)), order_id) ==> book_wf(final(self)@),
    {
        let ghost b0 = self@;
        let price = match self.order_locations.get(&order_id) {
            Some(p) => *p,
            None => {
                proof {
                    if side_has_id(b0.side(side), order_id) {
                        crate::book::lemma_side_id_indexed(b0.side(side), b0.index, order_id);
                    }
                }
                return None;
            },
        };
        self.order_locations.remove(&order_id);
        let removed = match side {
            Side::Buy => remove_level(&mut self.bids, price, order_id),
            Side::Sell => remove_level(&mut self.asks, price, order_id),
        };
        proof {
            lemma_remove_at_price_props(b0.side(side), price, order_id, side, b0.index);
            let r = remove_at_price(b0.side(side), price, order_id);
            if !side_has_id(b0.side(opposite(side)), order_id) {
                let b2 = self@;
                assert(b2.side(side) == r.0);
                assert(b2.side(opposite(side)) == b0.side(opposite(side)));
                assert(side_indexed(b2.side(opposite(side)), b2.index)) by {
                    assert forall|i: int, j: int|
                        0 <= i < b2.side(opposite(side)).len() && 0 <= j < b2.side(
                            opposite(side),
                        )[i].orders.len() implies {
                        &&& b2.index.dom().contains(
                            (#[trigger] b2.side(opposite(side))[i].orders[j]).id,
                        )
                        &&& b2.index[b2.side(opposite(side))[i].orders[j].id] == b2.side(
                            opposite(side),
                        )[i].price
                    } by {
                        let oid = b2.side(opposite(side))[i].orders[j].id;
                        assert(b0.index.dom().contains(oid));
                        assert(oid != order_id) by {
                            if oid == order_id {
                                assert(side_has_id(b0.side(opposite(side)), order_id));
                            }
                        }
                    }
                }
                assert forall|x: OrderId|
                    !(#[trigger] side_has_id(b2.bids, x) && #[trigger] side_has_id(
                        b2.asks,
                        x,
                    )) by {
                    if side_has_id(b2.bids, x) && side_has_id(b2.asks, x) {
                        if x != order_id {
                            assert(side_has_id(b0.bids, x) && side_has_id(b0.asks, x));
                        } else {
                            assert(!side_has_id(r.0, order_id));
                        }
                    }
                }
                assert forall|x: OrderId| #[trigger]
                    b2.index.dom().contains(x) implies side_has_id(b2.bids, x) || side_has_id(
                    b2.asks,
                    x,
                ) by {
                    assert(b0.index.dom().contains(x) && x != order_id);
                }
            }
        }
        removed
    }

    /// Amend the total amount of the resting buy order with this id.
    pub fn update_bid_amount(&mut self, order_id: OrderId, new_amount: Amount) -> (r: Result<
        (),
        AmendError,
    >)
        requires
            book_wf(old(self)@),
        ensures
            final(self)@ == book_amend_spec(old(self)@, order_id, new_amount, Side::Buy).0,
            r == book_amend_spec(old(self)@, order_id, new_amount, Side::Buy).1,
            book_wf(final(self)@),
            r.is_err() ==> final(self)@ == old(self)@,
    {
        self.update_order_amount(order_id, new_amount, Side::Buy)
    }

    /// Amend the total amount of the resting sell order with this id.
    pub fn update_ask_amount(&mut self, order_id: OrderId, new_amount: Amount) -> (r: Result<
        (),
        AmendError,
    >)
        requires
            book_wf(old(self)@),
        ensures
            final(self)@ == book_amend_spec(old(self)@, order_id, new_amount, Side::Sell).0,
            r == book_amend_spec(old(self)@, order_id, new_amount, Side::Sell).1,
            book_wf(final(self)@),
            r.is_err() ==> final(self)@ == old(self)@,
    {
        self.update_order_amount(order_id, new_amount, Side::Sell)
    }

    fn update_order_amount(&mut self, order_id: OrderId, new_amount: Amount, side: Side) -> (r:
        Result<(), AmendError>)
        requires
            book_wf(old(self)@),
        ensures
            final(self)@ == book_amend_spec(old(self)@, order_id, new_amount, side).0,
            r == book_amend_spec(old(self)@, order_id, new_amount, side).1,
            book_wf(final(self)@),
            r.is_err() ==> final(self)@ == old(self)@,
    {
        let ghost b0 = self@;
        let price = match self.order_locations.get(&order_id) {
            Some(p) => *p,
            None => {
                return Err(AmendError::NotFound);
            },
        };
        let res = match side {
            Side::Buy => amend_level(&mut self.bids, price, order_id, new_amount),
            Side::Sell => amend_level(&mut self.asks, price, order_id, new_amount),
        };
        proof {
            lemma_amend_at_price_props(b0.side(side), price, order_id, new_amount, side, b0.index);
            let r = amend_at_price(b0.side(side), price, order_id, new_amount);
            let b2 = self@;
            assert(b2.side(side) == r.0);
            assert(b2.side(opposite(side)) == b0.side(opposite(side)));
            assert(b2.index == b0.index);
            if r.1.is_err() {
                assert(b2 =~= b0);
            } else {
                assert(side_indexed(b2.side(side), b2.index));
                assert forall|x: OrderId|
                    !(#[trigger] side_has_id(b2.bids, x) && #[trigger] side_has_id(
                        b2.asks,
                        x,
                    )) by {
                    if side_has_id(b2.bids, x) && side_has_id(b2.asks, x) {
                        assert(side_has_id(b0.bids, x) && side_has_id(b0.asks, x));
                    }
                }
                assert forall|x: OrderId| #[trigger]
                    b2.index.dom().contains(x) implies side_has_id(b2.bids, x) || side_has_id(
                    b2.asks,
                    x,
                ) by {
                    assert(b0.index.dom().contains(x));
                }
            }
        }
        res
    }
}

/// Decompose a removal past a prefix of levels that do not hold price `p`.
proof fn lemma_remove_decompose(levels: Seq<LevelV>, p: Price, id: OrderId, i: int)
    requires
        0 <= i <= levels.len(),
        forall|k: int| 0 <= k < i ==> (#[trigger] levels[k]).price != p,
    ensures
        remove_at_price(levels, p, id).0 =~= levels.take(i) + remove_at_price(
            levels.skip(i),
            p,
            id,
        ).0,
        remove_at_price(levels, p, id).1 == remove_at_price(levels.skip(i), p, id).1,
    decreases i,
{
    if i == 0 {
        assert(levels.skip(0) =~= levels);
        assert(levels.take(0) + remove_at_price(levels, p, id).0 =~= remove_at_price(
            levels,
            p,
            id,
        ).0);
    } else {
        let rest = levels.drop_first();
        assert forall|k: int| 0 <= k < i - 1 implies (#[trigger] rest[k]).price != p by {
            assert(rest[k] == levels[k + 1]);
        }
        lemma_remove_decompose(rest, p, id, i - 1);
        assert(rest.skip(i - 1) =~= levels.skip(i));
        assert(seq![levels[0]] + (rest.take(i - 1) + remove_at_price(levels.skip(i), p, id).0)
            =~= levels.take(i) + remove_at_price(levels.skip(i), p, id).0);
    }
}

/// Decompose a queue removal past a prefix of orders that do not carry `id`.
proof fn lemma_remove_queue_decompose(orders: Seq<Order>, id: OrderId, j: int)
    requires
        0 <= j <= orders.len(),
        forall|k: int| 0 <= k < j ==> (#[trigger] orders[k]).id != id,
    ensures
        remove_from_queue(orders, id).0 =~= orders.take(j) + remove_from_queue(
            orders.skip(j),
            id,
        ).0,
        remove_from_queue(orders, id).1 == remove_from_queue(orders.skip(j), id).1,
    decreases j,
{
    if j == 0 {
        assert(orders.skip(0) =~= orders);
        assert(orders.take(0) + remove_from_queue(orders, id).0 =~= remove_from_queue(
            orders,
            id,
        ).0);
    } else {
        let rest = orders.drop_first();
        assert forall|k: int| 0 <= k < j - 1 implies (#[trigger] rest[k]).id != id by {
            assert(rest[k] == orders[k + 1]);
        }
        lemma_remove_queue_decompose(rest, id, j - 1);
        assert(rest.skip(j - 1) =~= orders.skip(j));
        assert(seq![orders[0]] + (rest.take(j - 1) + remove_from_queue(orders.skip(j), id).0)
            =~= orders.take(j) + remove_from_queue(orders.skip(j), id).0);
    }
}

/// What a queue removal returns and leaves, given unique ids in the queue.
proof fn lemma_remove_from_queue_props(orders: Seq<Order>, id: OrderId)
    requires
        forall|j1: int, j2: int|
            0 <= j1 < j2 < orders.len() ==> (#[trigger] orders[j1]).id != (#[trigger] orders[j2]).id,
    ensures
        ({
            let r = remove_from_queue(orders, id);
            match r.1 {
                None => r.0 == orders && (forall|j: int|
                    0 <= j < orders.len() ==> (#[trigger] orders[j]).id != id),
                Some(o) => exists|j0: int|
                    0 <= j0 < orders.len() && (#[trigger] orders[j0]) == o && o.id == id && r.0
                        =~= orders.remove(j0),
            }
        }),
    decreases orders.len(),
{
    let r = remove_from_queue(orders, id);
    if orders.len() == 0 {
    } else if orders[0].id == id {
        assert(orders[0] == orders[0]);
        assert(r.0 =~= orders.remove(0));
    } else {
        let rest = orders.drop_first();
        assert forall|j1: int, j2: int| 0 <= j1 < j2 < rest.len() implies (
        #[trigger] rest[j1]).id != (#[trigger] rest[j2]).id by {
            assert(rest[j1] == orders[j1 + 1] && rest[j2] == orders[j2 + 1]);
        }
        lemma_remove_from_queue_props(rest, id);
        let rr = remove_from_queue(rest, id);
        match rr.1 {
            None => {
                assert(r.0 =~= orders);
                assert forall|j: int| 0 <= j < orders.len() implies (#[trigger] orders[j]).id
                    != id by {
                    if j > 0 {
                        assert(rest[j - 1].id != id);
                    }
                }
            },
            Some(o) => {
                let j0 = choose|j0: int|
                    0 <= j0 < rest.len() && (#[trigger] rest[j0]) == o && o.id == id && rr.0
                        =~= rest.remove(j0);
                assert(orders[j0 + 1] == o);
                assert(r.0 =~= orders.remove(j0 + 1));
            },
        }
    }
}

/// Removal at a price preserves the side's invariants, removes exactly the
/// indexed order's id, and leaves every other id resting.
#[verifier::rlimit(80)]
proof fn lemma_remove_at_price_props(
    levels: Seq<LevelV>,
    p: Price,
    id: OrderId,
    side: Side,
    idx: Map<OrderId, Price>,
)
    requires
        side_ok(levels, side),
        side_levels_ids_unique(levels),
        side_indexed(levels, idx),
        idx.dom().contains(id) ==> idx[id] == p,
    ensures
        ({
            let r = remove_at_price(levels, p, id);
            &&& side_ok(r.0, side)
            &&& side_levels_ids_unique(r.0)
            &&& side_indexed(r.0, idx.remove(id))
            &&& !side_has_id(r.0, id)
            &&& forall|x: OrderId|
                x != id ==> (#[trigger] side_has_id(r.0, x) <==> side_has_id(levels, x))
            &&& (r.1.is_some() <==> side_has_id(levels, id))
            &&& (match r.1 {
                Some(o) => o.id == id && order_ok(o, side, p),
                None => r.0 == levels,
            })
        }),
    decreases levels.len(),
{
    let r = remove_at_price(levels, p, id);
    if levels.len() == 0 {
        assert(!side_has_id(levels, id)) by {
            if side_has_id(levels, id) {
                let (i, j): (int, int) = choose|i: int, j: int|
                    0 <= i < levels.len() && 0 <= j < levels[i].orders.len() && (
                #[trigger] levels[i].orders[j]).id == id;
                assert(false);
            }
        }
        assert forall|x: OrderId| x != id implies (#[trigger] side_has_id(r.0, x) <==> side_has_id(
            levels,
            x,
        )) by {}
        assert(!side_has_id(r.0, id));
        assert(side_indexed(r.0, idx.remove(id)));
    } else if levels[0].price == p {
        let q = levels[0].orders;
        assert(level_ids_unique(levels[0]));
        lemma_remove_from_queue_props(q, id);
        let rq = remove_from_queue(q, id);
        match rq.1 {
            None => {
                // id does not rest at the only level that may hold it
                assert(r.0 == levels && r.1.is_none());
                assert(!side_has_id(levels, id)) by {
                    if side_has_id(levels, id) {
                        let (i, j): (int, int) = choose|i: int, j: int|
                            0 <= i < levels.len() && 0 <= j < levels[i].orders.len() && (
                        #[trigger] levels[i].orders[j]).id == id;
                        assert(idx.dom().contains(id) && idx[id] == levels[i].price);
                        assert(levels[i].price == p);
                        if i > 0 {
                            assert(crate::book::better_price(side, levels[0].price, levels[i].price));
                        } else {
                            assert(q[j].id == id);
                        }
                        assert(false);
                    }
                }
                assert forall|x: OrderId| x != id implies (#[trigger] side_has_id(r.0, x)
                    <==> side_has_id(levels, x)) by {}
            },
            Some(o) => {
                let j0 = choose|j0: int|
                    0 <= j0 < q.len() && (#[trigger] q[j0]) == o && o.id == id && rq.0 =~= q.remove(
                        j0,
                    );
                assert(order_ok(q[j0], side, levels[0].price));
                assert(side_has_id(levels, id)) by {
                    assert(levels[0].orders[j0].id == id);
                }
                let tail = levels.drop_first();
                // facts about the tail
                assert forall|i: int, j: int|
                    0 <= i < tail.len() && 0 <= j < tail[i].orders.len() implies (
                #[trigger] tail[i].orders[j]).id != id && idx.dom().contains(tail[i].orders[j].id)
                    && idx[tail[i].orders[j].id] == tail[i].price by {
                    assert(tail[i] == levels[i + 1]);
                    assert(idx.dom().contains(levels[i + 1].orders[j].id));
                    if tail[i].orders[j].id == id {
                        assert(idx[id] == levels[i + 1].price);
                        assert(crate::book::better_price(side, levels[0].price, levels[i + 1].price));
                        assert(false);
                    }
                }
                if rq.0.len() == 0 {
                    assert(r.0 == tail);
                    assert forall|i: int| 0 <= i < r.0.len() implies crate::book::level_ok(
                        #[trigger] r.0[i],
                        side,
                    ) && level_ids_unique(r.0[i]) by {
                        assert(r.0[i] == levels[i + 1]);
                    }
                    assert forall|i: int, j: int| 0 <= i < j < r.0.len() implies crate::book::better_price(
                        side,
                        (#[trigger] r.0[i]).price,
                        (#[trigger] r.0[j]).price,
                    ) by {
                        assert(r.0[i] == levels[i + 1] && r.0[j] == levels[j + 1]);
                    }
                    assert(!side_has_id(r.0, id)) by {
                        if side_has_id(r.0, id) {
                            let (i, j): (int, int) = choose|i: int, j: int|
                                0 <= i < r.0.len() && 0 <= j < r.0[i].orders.len() && (
                            #[trigger] r.0[i].orders[j]).id == id;
                            assert(tail[i].orders[j].id == id);
                            assert(false);
                        }
                    }
                    assert forall|x: OrderId| x != id implies (#[trigger] side_has_id(r.0, x)
                        <==> side_has_id(levels, x)) by {
                        if side_has_id(r.0, x) {
                            let (i, j): (int, int) = choose|i: int, j: int|
                                0 <= i < r.0.len() && 0 <= j < r.0[i].orders.len() && (
                            #[trigger] r.0[i].orders[j]).id == x;
                            assert(levels[i + 1].orders[j].id == x);
                        }
                        if side_has_id(levels, x) && x != id {
                            let (i, j): (int, int) = choose|i: int, j: int|
                                0 <= i < levels.len() && 0 <= j < levels[i].orders.len() && (
                            #[trigger] levels[i].orders[j]).id == x;
                            if i == 0 {
                                // the only order at the head level was o, with id `id`
                                assert(q.len() == 1);
                                assert(j == j0);
                                assert(false);
                            } else {
                                assert(r.0[i - 1].orders[j].id == x);
                            }
                        }
                    }
                    assert(side_indexed(r.0, idx.remove(id))) by {
                        assert forall|i: int, j: int|
                            0 <= i < r.0.len() && 0 <= j < r.0[i].orders.len() implies {
                            &&& idx.remove(id).dom().contains((#[trigger] r.0[i].orders[j]).id)
                            &&& idx.remove(id)[r.0[i].orders[j].id] == r.0[i].price
                        } by {
                            assert(r.0[i] == tail[i]);
                        }
                    }
                } else {
                    let newhead = LevelV { price: p, orders: rq.0 };
                    assert(r.0 =~= seq![newhead] + tail);
                    assert forall|i: int| 0 <= i < r.0.len() implies crate::book::level_ok(
                        #[trigger] r.0[i],
                        side,
                    ) && level_ids_unique(r.0[i]) by {
                        if i == 0 {
                            assert forall|j: int| 0 <= j < rq.0.len() implies order_ok(
                                #[trigger] rq.0[j],
                                side,
                                p,
                            ) by {
                                assert(rq.0 =~= q.remove(j0));
                                if j < j0 {
                                    assert(rq.0[j] == q[j]);
                                } else {
                                    assert(rq.0[j] == q[j + 1]);
                                }
                            }
                            assert forall|j1: int, j2: int| 0 <= j1 < j2 < rq.0.len() implies (
                            #[trigger] rq.0[j1]).id != (#[trigger] rq.0[j2]).id by {
                                let k1: int = if j1 < j0 { j1 } else { j1 + 1 };
                                let k2: int = if j2 < j0 { j2 } else { j2 + 1 };
                                assert(rq.0[j1] == q[k1] && rq.0[j2] == q[k2]);
                            }
                        } else {
                            assert(r.0[i] == levels[i]);
                            assert(crate::book::level_ok(levels[i], side));
                            assert(level_ids_unique(levels[i]));
                        }
                    }
                    assert forall|i: int, j: int| 0 <= i < j < r.0.len() implies crate::book::better_price(
                        side,
                        (#[trigger] r.0[i]).price,
                        (#[trigger] r.0[j]).price,
                    ) by {
                        if i == 0 {
                            assert(r.0[j] == levels[j]);
                            assert(crate::book::better_price(side, levels[0].price, levels[j].price));
                        } else {
                            assert(r.0[i] == levels[i] && r.0[j] == levels[j]);
                        }
                    }
                    assert(!side_has_id(r.0, id)) by {
                        if side_has_id(r.0, id) {
                            let (i, j): (int, int) = choose|i: int, j: int|
                                0 <= i < r.0.len() && 0 <= j < r.0[i].orders.len() && (
                            #[trigger] r.0[i].orders[j]).id == id;
                            if i == 0 {
                                let k: int = if j < j0 { j } else { j + 1 };
                                assert(rq.0[j] == q[k]);
                                assert(q[k].id == id && q[j0].id == id && k != j0);
                                assert(false);
                            } else {
                                assert(tail[i - 1].orders[j].id == id);
                                assert(false);
                            }
                        }
                    }
                    assert forall|x: OrderId| x != id implies (#[trigger] side_has_id(r.0, x)
                        <==> side_has_id(levels, x)) by {
                        if side_has_id(r.0, x) {
                            let (i, j): (int, int) = choose|i: int, j: int|
                                0 <= i < r.0.len() && 0 <= j < r.0[i].orders.len() && (
                            #[trigger] r.0[i].orders[j]).id == x;
                            if i == 0 {
                                let k: int = if j < j0 { j } else { j + 1 };
                                assert(rq.0[j] == q[k]);
                                assert(levels[0].orders[k].id == x);
                            } else {
                                assert(levels[i].orders[j].id == x);
                            }
                        }
                        if side_has_id(levels, x) && x != id {
                            let (i, j): (int, int) = choose|i: int, j: int|
                                0 <= i < levels.len() && 0 <= j < levels[i].orders.len() && (
                            #[trigger] levels[i].orders[j]).id == x;
                            if i == 0 {
                                assert(j != j0);
                                let k: int = if j < j0 { j } else { j - 1 };
                                assert(rq.0 =~= q.remove(j0));
                                assert(rq.0[k] == q[j]);
                                assert(r.0[0].orders[k].id == x);
                            } else {
                                assert(r.0[i].orders[j].id == x);
                            }
                        }
                    }
                    assert(side_indexed(r.0, idx.remove(id))) by {
                        assert forall|i: int, j: int|
                            0 <= i < r.0.len() && 0 <= j < r.0[i].orders.len() implies {
                            &&& idx.remove(id).dom().contains((#[trigger] r.0[i].orders[j]).id)
                            &&& idx.remove(id)[r.0[i].orders[j].id] == r.0[i].price
                        } by {
                            if i == 0 {
                                let k: int = if j < j0 { j } else { j + 1 };
                                assert(rq.0[j] == q[k]);
                                assert(idx.dom().contains(q[k].id) && idx[q[k].id] == levels[0].price);
                                assert(q[k].id != id) by {
                                    if q[k].id == id {
                                        assert(q[j0].id == id && k != j0);
                                    }
                                }
                            } else {
                                assert(r.0[i] == levels[i]);
                                assert(idx.dom().contains(levels[i].orders[j].id));
                                assert(levels[i].orders[j].id != id) by {
                                    if levels[i].orders[j].id == id {
                                        assert(idx[id] == levels[i].price);
                                        assert(crate::book::better_price(
                                            side,
                                            levels[0].price,
                                            levels[i].price,
                                        ));
                                    }
                                }
                            }
                        }
                    }
                }
            },
        }
    } else {
        let tail = levels.drop_first();
        assert forall|i: int, j: int|
            0 <= i < tail.len() && 0 <= j < tail[i].orders.len() implies {
            &&& idx.dom().contains((#[trigger] tail[i].orders[j]).id)
            &&& idx[tail[i].orders[j].id] == tail[i].price
        } by {
            assert(tail[i] == levels[i + 1]);
        }
        assert forall|i: int, j: int| 0 <= i < j < tail.len() implies crate::book::better_price(
            side,
            (#[trigger] tail[i]).price,
            (#[trigger] tail[j]).price,
        ) by {
            assert(tail[i] == levels[i + 1] && tail[j] == levels[j + 1]);
        }
        assert forall|i: int| 0 <= i < tail.len() implies crate::book::level_ok(
            #[trigger] tail[i],
            side,
        ) && level_ids_unique(tail[i]) by {
            assert(tail[i] == levels[i + 1]);
        }
        lemma_remove_at_price_props(tail, p, id, side, idx);
        let rt = remove_at_price(tail, p, id);
        assert(r.0 == seq![levels[0]] + rt.0);
        // the head level cannot hold `id`: its price differs from idx[id]
        assert forall|j: int| 0 <= j < levels[0].orders.len() implies (
        #[trigger] levels[0].orders[j]).id != id by {
            if levels[0].orders[j].id == id {
                assert(idx.dom().contains(id) && idx[id] == levels[0].price);
            }
        }
        assert forall|i: int| 0 <= i < r.0.len() implies crate::book::level_ok(
            #[trigger] r.0[i],
            side,
        ) && level_ids_unique(r.0[i]) by {
            if i == 0 {
                assert(r.0[0] == levels[0]);
                assert(crate::book::level_ok(levels[0], side));
                assert(level_ids_unique(levels[0]));
            } else {
                assert(r.0[i] == rt.0[i - 1]);
            }
        }
        assert forall|i: int, j: int| 0 <= i < j < r.0.len() implies crate::book::better_price(
            side,
            (#[trigger] r.0[i]).price,
            (#[trigger] r.0[j]).price,
        ) by {
            if i == 0 {
                assert(r.0[j] == rt.0[j - 1]);
                assert(side_has_id(rt.0, r.0[j].price as OrderId) || true);
                // every level of rt.0 keeps a price of tail
                lemma_remove_prices(tail, p, id, j - 1);
                let k = choose|k: int|
                    0 <= k < tail.len() && (#[trigger] tail[k]).price == rt.0[j - 1].price;
                assert(crate::book::better_price(side, levels[0].price, levels[k + 1].price));
            } else {
                assert(r.0[i] == rt.0[i - 1] && r.0[j] == rt.0[j - 1]);
            }
        }
        assert(!side_has_id(r.0, id)) by {
            if side_has_id(r.0, id) {
                let (i, j): (int, int) = choose|i: int, j: int|
                    0 <= i < r.0.len() && 0 <= j < r.0[i].orders.len() && (
                #[trigger] r.0[i].orders[j]).id == id;
                if i == 0 {
                    assert(levels[0].orders[j].id == id);
                } else {
                    assert(rt.0[i - 1].orders[j].id == id);
                    assert(side_has_id(rt.0, id));
                }
                assert(false);
            }
        }
        assert forall|x: OrderId| x != id implies (#[trigger] side_has_id(r.0, x) <==> side_has_id(
            levels,
            x,
        )) by {
            if side_has_id(r.0, x) {
                let (i, j): (int, int) = choose|i: int, j: int|
                    0 <= i < r.0.len() && 0 <= j < r.0[i].orders.len() && (
                #[trigger] r.0[i].orders[j]).id == x;
                if i == 0 {
                    assert(levels[0].orders[j].id == x);
                } else {
                    assert(rt.0[i - 1].orders[j].id == x);
                    assert(side_has_id(rt.0, x));
                    assert(side_has_id(tail, x));
                    let (i2, j2): (int, int) = choose|i2: int, j2: int|
                        0 <= i2 < tail.len() && 0 <= j2 < tail[i2].orders.len() && (
                    #[trigger] tail[i2].orders[j2]).id == x;
                    assert(levels[i2 + 1].orders[j2].id == x);
                }
            }
            if side_has_id(levels, x) && x != id {
                let (i, j): (int, int) = choose|i: int, j: int|
                    0 <= i < levels.len() && 0 <= j < levels[i].orders.len() && (
                #[trigger] levels[i].orders[j]).id == x;
                if i == 0 {
                    assert(r.0[0].orders[j].id == x);
                } else {
                    assert(tail[i - 1].orders[j].id == x);
                    assert(side_has_id(tail, x));
                    assert(side_has_id(rt.0, x));
                    let (i2, j2): (int, int) = choose|i2: int, j2: int|
                        0 <= i2 < rt.0.len() && 0 <= j2 < rt.0[i2].orders.len() && (
                    #[trigger] rt.0[i2].orders[j2]).id == x;
                    assert(r.0[i2 + 1].orders[j2].id == x);
                }
            }
        }
        assert((r.1.is_some() <==> side_has_id(levels, id))) by {
            if r.1.is_some() {
                assert(side_has_id(tail, id));
                let (i2, j2): (int, int) = choose|i2: int, j2: int|
                    0 <= i2 < tail.len() && 0 <= j2 < tail[i2].orders.len() && (
                #[trigger] tail[i2].orders[j2]).id == id;
                assert(levels[i2 + 1].orders[j2].id == id);
            }
            if side_has_id(levels, id) {
                let (i, j): (int, int) = choose|i: int, j: int|
                    0 <= i < levels.len() && 0 <= j < levels[i].orders.len() && (
                #[trigger] levels[i].orders[j]).id == id;
                assert(i != 0);
                assert(tail[i - 1].orders[j].id == id);
                assert(side_has_id(tail, id));
            }
        }
        if r.1.is_none() {
            assert(r.0 =~= levels);
        }
        assert(side_indexed(r.0, idx.remove(id))) by {
            assert forall|i: int, j: int|
                0 <= i < r.0.len() && 0 <= j < r.0[i].orders.len() implies {
                &&& idx.remove(id).dom().contains((#[trigger] r.0[i].orders[j]).id)
                &&& idx.remove(id)[r.0[i].orders[j].id] == r.0[i].price
            } by {
                if i == 0 {
                    assert(r.0[0] == levels[0]);
                    assert(idx.dom().contains(levels[0].orders[j].id));
                    assert(levels[0].orders[j].id != id);
                }
            }
        }
    }
}

/// Every level of a removal's result keeps a price of the original ledger.
proof fn lemma_remove_prices(levels: Seq<LevelV>, p: Price, id: OrderId, i: int)
    requires
        0 <= i < remove_at_price(levels, p, id).0.len(),
    ensures
        exists|k: int|
            0 <= k < levels.len() && (#[trigger] levels[k]).price == remove_at_price(
                levels,
                p,
                id,
            ).0[i].price,
    decreases levels.len(),
{
    let r = remove_at_price(levels, p, id);
    if levels.len() == 0 {
    } else if levels[0].price == p {
        let rq = remove_from_queue(levels[0].orders, id);
        match rq.1 {
            None => {
                assert(levels[i].price == r.0[i].price);
            },
            Some(_) => {
                if rq.0.len() == 0 {
                    assert(levels[i + 1].price == r.0[i].price);
                } else {
                    if i == 0 {
                        assert(levels[0].price == r.0[0].price);
                    } else {
                        assert(levels[i].price == r.0[i].price);
                    }
                }
            },
        }
    } else {
        if i == 0 {
            assert(levels[0].price == r.0[0].price);
        } else {
            lemma_remove_prices(levels.drop_first(), p, id, i - 1);
            let k = choose|k: int|
                0 <= k < levels.drop_first().len() && (#[trigger] levels.drop_first()[k]).price
                    == remove_at_price(levels.drop_first(), p, id).0[i - 1].price;
            assert(levels[k + 1].price == r.0[i].price);
        }
    }
}

/// Remove the first order carrying `id` from the level at `price`.
fn remove_level(levels: &mut Vec<PriceLevel>, price: Price, id: OrderId) -> (r: Option<Order>)
    ensures
        levels_view(final(levels)@) == remove_at_price(levels_view(old(levels)@), price, id).0,
        r == remove_at_price(levels_view(old(levels)@), price, id).1,
{
    let ghost ls0 = levels_view(levels@);
    let mut i: usize = 0;
    loop
        invariant
            ls0 == levels_view(old(levels)@),
            levels_view(levels@) == ls0,
            i <= levels.len(),
            forall|k: int| 0 <= k < i ==> (#[trigger] ls0[k]).price != price,
        decreases levels.len() - i,
    {
        proof {
            lemma_remove_decompose(ls0, price, id, i as int);
        }
        if i == levels.len() {
            proof {
                assert(ls0.skip(i as int) =~= Seq::<LevelV>::empty());
                assert(remove_at_price(ls0, price, id).0 =~= ls0);
            }
            return None;
        }
        proof {
            assert(ls0.skip(i as int)[0] == ls0[i as int]);
        }
        if levels[i].price == price {
            let ghost q0 = ls0[i as int].orders;
            let n = levels[i].orders.len();
            let mut j: usize = 0;
            loop
                invariant
                    ls0 == levels_view(old(levels)@),
                    levels_view(levels@) == ls0,
                    i < levels.len(),
                    ls0[i as int].price == price,
                    price == levels[i as int].price,
                    forall|k: int| 0 <= k < i ==> (#[trigger] ls0[k]).price != price,
                    q0 == ls0[i as int].orders,
                    n == levels[i as int].orders.len(),
                    j <= n,
                    forall|k: int| 0 <= k < j ==> (#[trigger] q0[k]).id != id,
                decreases n - j,
            {
                proof {
                    lemma_remove_decompose(ls0, price, id, i as int);
                    lemma_remove_queue_decompose(q0, id, j as int);
                }
                if j == n {
                    proof {
                        assert(q0.skip(j as int) =~= Seq::<Order>::empty());
                        assert(remove_from_queue(q0, id).0 =~= q0);
                        assert(remove_from_queue(q0, id).1.is_none());
                        assert(remove_at_price(ls0.skip(i as int), price, id).1.is_none());
                        assert(remove_at_price(ls0.skip(i as int), price, id).0 == ls0.skip(
                            i as int,
                        ));
                        assert(remove_at_price(ls0, price, id).0 =~= ls0);
                    }
                    return None;
                }
                proof {
                    assert(q0.skip(j as int)[0] == q0[j as int]);
                }
                if levels[i].orders[j].id == id {
                    let mut lvl = levels.remove(i);
                    let removed_order = lvl.orders.remove(j);
                    let became_empty = lvl.orders.len() == 0;
                    if !became_empty {
                        levels.insert(i, lvl);
                    }
                    proof {
                        assert(remove_from_queue(q0.skip(j as int), id).1 == Some(q0[j as int]));
                        assert(remove_from_queue(q0.skip(j as int), id).0 =~= q0.skip(
                            j as int,
                        ).drop_first());
                        assert(q0.skip(j as int).drop_first() =~= q0.skip(j as int + 1));
                        assert(remove_from_queue(q0, id).0 =~= q0.take(j as int) + q0.skip(
                            j as int + 1,
                        ));
                        assert(remove_from_queue(q0, id).1 == Some(q0[j as int]));
                        assert(removed_order == q0[j as int]);
                        assert(lvl.orders@ =~= q0.take(j as int) + q0.skip(j as int + 1));
                        let rq0 = remove_from_queue(q0, id).0;
                        if became_empty {
                            assert(remove_at_price(ls0.skip(i as int), price, id).0 =~= ls0.skip(
                                i as int,
                            ).drop_first());
                            assert(ls0.skip(i as int).drop_first() =~= ls0.skip(i as int + 1));
                            assert(levels_view(levels@) =~= ls0.take(i as int) + ls0.skip(
                                i as int + 1,
                            ));
                            assert(levels_view(levels@) =~= remove_at_price(ls0, price, id).0);
                        } else {
                            assert(remove_at_price(ls0.skip(i as int), price, id).0 =~= seq![
                                LevelV { price, orders: rq0 },
                            ] + ls0.skip(i as int).drop_first());
                            assert(ls0.skip(i as int).drop_first() =~= ls0.skip(i as int + 1));
                            assert(levels_view(levels@) =~= ls0.take(i as int) + (seq![
                                LevelV { price, orders: rq0 },
                            ] + ls0.skip(i as int + 1)));
                            assert(levels_view(levels@) =~= remove_at_price(ls0, price, id).0);
                        }
                        assert(remove_at_price(ls0, price, id).1 == Some(removed_order));
                    }
                    return Some(removed_order);
                }
                j = j + 1;
            }
        }
        i = i + 1;
    }
}

/// Amendment keeps the side's structure: same levels and positions, with at
/// most the amended order's amount changed; on failure nothing changes.
proof fn lemma_amend_in_queue_props(orders: Seq<Order>, id: OrderId, new_amount: Amount, side: Side, p: Price)
    requires
        forall|j: int| 0 <= j < orders.len() ==> order_ok(#[trigger] orders[j], side, p),
    ensures
        ({
            let r = amend_in_queue(orders, id, new_amount);
            &&& r.0.len() == orders.len()
            &&& forall|j: int| 0 <= j < orders.len() ==> (#[trigger] r.0[j]).id == orders[j].id
            &&& forall|j: int| 0 <= j < orders.len() ==> order_ok(#[trigger] r.0[j], side, p)
            &&& (r.1.is_err() ==> r.0 == orders)
            &&& (r.1.is_ok() ==> 0 < new_amount)
        }),
    decreases orders.len(),
{
    let r = amend_in_queue(orders, id, new_amount);
    if orders.len() == 0 {
    } else if orders[0].id == id {
        let o = orders[0];
        if new_amount == 0 || new_amount > o.amount || new_amount < o.filled_amount {
        } else {
            assert(r.0 =~= orders.update(0, Order { amount: new_amount, ..o }));
            assert forall|j: int| 0 <= j < orders.len() implies order_ok(
                #[trigger] r.0[j],
                side,
                p,
            ) by {
                if j == 0 {
                    assert(order_ok(o, side, p));
                } else {
                    assert(r.0[j] == orders[j]);
                }
            }
        }
    } else {
        let rest = orders.drop_first();
        assert forall|j: int| 0 <= j < rest.len() implies order_ok(#[trigger] rest[j], side, p) by {
            assert(rest[j] == orders[j + 1]);
        }
        lemma_amend_in_queue_props(rest, id, new_amount, side, p);
        let rr = amend_in_queue(rest, id, new_amount);
        assert forall|j: int| 0 <= j < orders.len() implies (#[trigger] r.0[j]).id == orders[j].id
            && order_ok(r.0[j], side, p) by {
            if j == 0 {
                assert(r.0[0] == orders[0]);
            } else {
                assert(r.0[j] == rr.0[j - 1] && orders[j] == rest[j - 1]);
            }
        }
        if r.1.is_err() {
            assert(r.0 =~= orders);
        }
    }
}

/// Amendment at a price preserves the side's invariants and its id layout;
/// on failure the ledger is unchanged.
proof fn lemma_amend_at_price_props(
    levels: Seq<LevelV>,
    p: Price,
    id: OrderId,
    new_amount: Amount,
    side: Side,
    idx: Map<OrderId, Price>,
)
    requires
        side_ok(levels, side),
        side_levels_ids_unique(levels),
        side_indexed(levels, idx),
    ensures
        ({
            let r = amend_at_price(levels, p, id, new_amount);
            &&& side_ok(r.0, side)
            &&& side_levels_ids_unique(r.0)
            &&& side_indexed(r.0, idx)
            &&& r.0.len() == levels.len()
            &&& (forall|i: int| 0 <= i < levels.len() ==> (#[trigger] r.0[i]).price
                == levels[i].price)
            &&& (forall|x: OrderId| #[trigger] side_has_id(r.0, x) <==> side_has_id(levels, x))
            &&& (r.1.is_err() ==> r.0 == levels)
        }),
    decreases levels.len(),
{
    let r = amend_at_price(levels, p, id, new_amount);
    if levels.len() == 0 {
        assert forall|x: OrderId| #[trigger] side_has_id(r.0, x) <==> side_has_id(levels, x) by {}
    } else if levels[0].price == p {
        let q = levels[0].orders;
        lemma_amend_in_queue_props(q, id, new_amount, side, p);
        let rq = amend_in_queue(q, id, new_amount);
        assert(r.0 =~= seq![LevelV { price: p, orders: rq.0 }] + levels.drop_first());
        assert forall|i: int| 0 <= i < levels.len() implies (#[trigger] r.0[i]).price
            == levels[i].price by {
            if i > 0 {
                assert(r.0[i] == levels[i]);
            }
        }
        assert forall|i: int| 0 <= i < r.0.len() implies crate::book::level_ok(
            #[trigger] r.0[i],
            side,
        ) && level_ids_unique(r.0[i]) by {
            if i == 0 {
                assert forall|j1: int, j2: int| 0 <= j1 < j2 < rq.0.len() implies (
                #[trigger] rq.0[j1]).id != (#[trigger] rq.0[j2]).id by {
                    assert(rq.0[j1].id == q[j1].id && rq.0[j2].id == q[j2].id);
                    assert(level_ids_unique(levels[0]));
                }
            } else {
                assert(r.0[i] == levels[i]);
                assert(crate::book::level_ok(levels[i], side));
                assert(level_ids_unique(levels[i]));
            }
        }
        assert forall|i: int, j: int| 0 <= i < j < r.0.len() implies crate::book::better_price(
            side,
            (#[trigger] r.0[i]).price,
            (#[trigger] r.0[j]).price,
        ) by {
            assert(r.0[i].price == levels[i].price && r.0[j].price == levels[j].price);
        }
        assert forall|x: OrderId| #[trigger] side_has_id(r.0, x) <==> side_has_id(levels, x) by {
            if side_has_id(r.0, x) {
                let (i, j): (int, int) = choose|i: int, j: int|
                    0 <= i < r.0.len() && 0 <= j < r.0[i].orders.len() && (
                #[trigger] r.0[i].orders[j]).id == x;
                if i == 0 {
                    assert(levels[0].orders[j].id == x);
                } else {
                    assert(levels[i].orders[j].id == x);
                }
            }
            if side_has_id(levels, x) {
                let (i, j): (int, int) = choose|i: int, j: int|
                    0 <= i < levels.len() && 0 <= j < levels[i].orders.len() && (
                #[trigger] levels[i].orders[j]).id == x;
                assert(r.0[i].orders[j].id == x);
            }
        }
        assert(side_indexed(r.0, idx)) by {
            assert forall|i: int, j: int|
                0 <= i < r.0.len() && 0 <= j < r.0[i].orders.len() implies {
                &&& idx.dom().contains((#[trigger] r.0[i].orders[j]).id)
                &&& idx[r.0[i].orders[j].id] == r.0[i].price
            } by {
                assert(r.0[i].orders[j].id == levels[i].orders[j].id);
                assert(idx.dom().contains(levels[i].orders[j].id));
            }
        }
        if r.1.is_err() {
            assert(r.0 =~= levels);
        }
    } else {
        let tail = levels.drop_first();
        assert forall|i: int, j: int|
            0 <= i < tail.len() && 0 <= j < tail[i].orders.len() implies {
            &&& idx.dom().contains((#[trigger] tail[i].orders[j]).id)
            &&& idx[tail[i].orders[j].id] == tail[i].price
        } by {
            assert(tail[i] == levels[i + 1]);
        }
        assert forall|i: int, j: int| 0 <= i < j < tail.len() implies crate::book::better_price(
            side,
            (#[trigger] tail[i]).price,
            (#[trigger] tail[j]).price,
        ) by {
            assert(tail[i] == levels[i + 1] && tail[j] == levels[j + 1]);
        }
        assert forall|i: int| 0 <= i < tail.len() implies crate::book::level_ok(
            #[trigger] tail[i],
            side,
        ) && level_ids_unique(tail[i]) by {
            assert(tail[i] == levels[i + 1]);
        }
        lemma_amend_at_price_props(tail, p, id, new_amount, side, idx);
        let rt = amend_at_price(tail, p, id, new_amount);
        assert(r.0 == seq![levels[0]] + rt.0);
        assert forall|i: int| 0 <= i < levels.len() implies (#[trigger] r.0[i]).price
            == levels[i].price by {
            if i > 0 {
                assert(r.0[i] == rt.0[i - 1] && rt.0[i - 1].price == tail[i - 1].price);
            }
        }
        assert forall|i: int| 0 <= i < r.0.len() implies crate::book::level_ok(
            #[trigger] r.0[i],
            side,
        ) && level_ids_unique(r.0[i]) by {
            if i == 0 {
                assert(r.0[0] == levels[0]);
                assert(crate::book::level_ok(levels[0], side));
                assert(level_ids_unique(levels[0]));
            } else {
                assert(r.0[i] == rt.0[i - 1]);
            }
        }
        assert forall|i: int, j: int| 0 <= i < j < r.0.len() implies crate::book::better_price(
            side,
            (#[trigger] r.0[i]).price,
            (#[trigger] r.0[j]).price,
        ) by {
            assert(r.0[i].price == levels[i].price && r.0[j].price == levels[j].price);
        }
        assert forall|x: OrderId| #[trigger] side_has_id(r.0, x) <==> side_has_id(levels, x) by {
            if side_has_id(r.0, x) {
                let (i, j): (int, int) = choose|i: int, j: int|
                    0 <= i < r.0.len() && 0 <= j < r.0[i].orders.len() && (
                #[trigger] r.0[i].orders[j]).id == x;
                if i == 0 {
                    assert(levels[0].orders[j].id == x);
                } else {
                    assert(rt.0[i - 1].orders[j].id == x);
                    assert(side_has_id(rt.0, x));
                    assert(side_has_id(tail, x));
                    let (i2, j2): (int, int) = choose|i2: int, j2: int|
                        0 <= i2 < tail.len() && 0 <= j2 < tail[i2].orders.len() && (
                    #[trigger] tail[i2].orders[j2]).id == x;
                    assert(levels[i2 + 1].orders[j2].id == x);
                }
            }
            if side_has_id(levels, x) {
                let (i, j): (int, int) = choose|i: int, j: int|
                    0 <= i < levels.len() && 0 <= j < levels[i].orders.len() && (
                #[trigger] levels[i].orders[j]).id == x;
                if i == 0 {
                    assert(r.0[0].orders[j].id == x);
                } else {
                    assert(tail[i - 1].orders[j].id == x);
                    assert(side_has_id(tail, x));
                    assert(side_has_id(rt.0, x));
                    let (i2, j2): (int, int) = choose|i2: int, j2: int|
                        0 <= i2 < rt.0.len() && 0 <= j2 < rt.0[i2].orders.len() && (
                    #[trigger] rt.0[i2].orders[j2]).id == x;
                    assert(r.0[i2 + 1].orders[j2].id == x);
                }
            }
        }
        assert(side_indexed(r.0, idx)) by {
            assert forall|i: int, j: int|
                0 <= i < r.0.len() && 0 <= j < r.0[i].orders.len() implies {
                &&& idx.dom().contains((#[trigger] r.0[i].orders[j]).id)
                &&& idx[r.0[i].orders[j].id] == r.0[i].price
            } by {
                if i == 0 {
                    assert(r.0[0] == levels[0]);
                    assert(idx.dom().contains(levels[0].orders[j].id));
                }
            }
        }
        if r.1.is_err() {
            assert(r.0 =~= levels);
        }
    }
}

/// Decompose an amendment past a prefix of levels that do not hold price `p`.
proof fn lemma_amend_decompose(levels: Seq<LevelV>, p: Price, id: OrderId, new_amount: Amount, i: int)
    requires
        0 <= i <= levels.len(),
        forall|k: int| 0 <= k < i ==> (#[trigger] levels[k]).price != p,
    ensures
        amend_at_price(levels, p, id, new_amount).0 =~= levels.take(i) + amend_at_price(
            levels.skip(i),
            p,
            id,
            new_amount,
        ).0,
        amend_at_price(levels, p, id, new_amount).1 == amend_at_price(
            levels.skip(i),
            p,
            id,
            new_amount,
        ).1,
    decreases i,
{
    if i == 0 {
        assert(levels.skip(0) =~= levels);
        assert(levels.take(0) + amend_at_price(levels, p, id, new_amount).0 =~= amend_at_price(
            levels,
            p,
            id,
            new_amount,
        ).0);
    } else {
        let rest = levels.drop_first();
        assert forall|k: int| 0 <= k < i - 1 implies (#[trigger] rest[k]).price != p by {
            assert(rest[k] == levels[k + 1]);
        }
        lemma_amend_decompose(rest, p, id, new_amount, i - 1);
        assert(rest.skip(i - 1) =~= levels.skip(i));
        assert(seq![levels[0]] + (rest.take(i - 1) + amend_at_price(
            levels.skip(i),
            p,
            id,
            new_amount,
        ).0) =~= levels.take(i) + amend_at_price(levels.skip(i), p, id, new_amount).0);
    }
}

/// Decompose a queue amendment past a prefix of orders not carrying `id`.
proof fn lemma_amend_queue_decompose(orders: Seq<Order>, id: OrderId, new_amount: Amount, j: int)
    requires
        0 <= j <= orders.len(),
        forall|k: int| 0 <= k < j ==> (#[trigger] orders[k]).id != id,
    ensures
        amend_in_queue(orders, id, new_amount).0 =~= orders.take(j) + amend_in_queue(
            orders.skip(j),
            id,
            new_amount,
        ).0,
        amend_in_queue(orders, id, new_amount).1 == amend_in_queue(
            orders.skip(j),
            id,
            new_amount,
        ).1,
    decreases j,
{
    if j == 0 {
        assert(orders.skip(0) =~= orders);
        assert(orders.take(0) + amend_in_queue(orders, id, new_amount).0 =~= amend_in_queue(
            orders,
            id,
            new_amount,
        ).0);
    } else {
        let rest = orders.drop_first();
        assert forall|k: int| 0 <= k < j - 1 implies (#[trigger] rest[k]).id != id by {
            assert(rest[k] == orders[k + 1]);
        }
        lemma_amend_queue_decompose(rest, id, new_amount, j - 1);
        assert(rest.skip(j - 1) =~= orders.skip(j));
        assert(seq![orders[0]] + (rest.take(j - 1) + amend_in_queue(
            orders.skip(j),
            id,
            new_amount,
        ).0) =~= orders.take(j) + amend_in_queue(orders.skip(j), id, new_amount).0);
    }
}

/// Amend the amount of the first order carrying `id` at the level at `price`.
fn amend_level(levels: &mut Vec<PriceLevel>, price: Price, id: OrderId, new_amount: Amount) -> (r:
    Result<(), AmendError>)
    ensures
        levels_view(final(levels)@) == amend_at_price(
            levels_view(old(levels)@),
            price,
            id,
            new_amount,
        ).0,
        r == amend_at_price(levels_view(old(levels)@), price, id, new_amount).1,
{
    let ghost ls0 = levels_view(levels@);
    let mut i: usize = 0;
    loop
        invariant
            ls0 == levels_view(old(levels)@),
            levels_view(levels@) == ls0,
            i <= levels.len(),
            forall|k: int| 0 <= k < i ==> (#[trigger] ls0[k]).price != price,
        decreases levels.len() - i,
    {
        proof {
            lemma_amend_decompose(ls0, price, id, new_amount, i as int);
        }
        if i == levels.len() {
            proof {
                assert(ls0.skip(i as int) =~= Seq::<LevelV>::empty());
                assert(amend_at_price(ls0, price, id, new_amount).0 =~= ls0);
            }
            return Err(AmendError::NotFound);
        }
        proof {
            assert(ls0.skip(i as int)[0] == ls0[i as int]);
        }
        if levels[i].price == price {
            let ghost q0 = ls0[i as int].orders;
            let n = levels[i].orders.len();
            let mut j: usize = 0;
            loop
                invariant
                    ls0 == levels_view(old(levels)@),
                    levels_view(levels@) == ls0,
                    i < levels.len(),
                    ls0[i as int].price == price,
                    price == levels[i as int].price,
                    forall|k: int| 0 <= k < i ==> (#[trigger] ls0[k]).price != price,
                    q0 == ls0[i as int].orders,
                    n == levels[i as int].orders.len(),
                    j <= n,
                    forall|k: int| 0 <= k < j ==> (#[trigger] q0[k]).id != id,
                decreases n - j,
            {
                proof {
                    lemma_amend_decompose(ls0, price, id, new_amount, i as int);
                    lemma_amend_queue_decompose(q0, id, new_amount, j as int);
                }
                if j == n {
                    proof {
                        assert(q0.skip(j as int) =~= Seq::<Order>::empty());
                        assert(amend_in_queue(q0, id, new_amount).0 =~= q0);
                        assert(amend_at_price(ls0.skip(i as int), price, id, new_amount).0 =~= seq![
                            LevelV { price, orders: q0 },
                        ] + ls0.skip(i as int).drop_first());
                        assert(ls0.skip(i as int).drop_first() =~= ls0.skip(i as int + 1));
                        assert(ls0.take(i as int) + (seq![LevelV { price, orders: q0 }] + ls0.skip(
                            i as int + 1,
                        )) =~= ls0);
                    }
                    return Err(AmendError::NotFound);
                }
                proof {
                    assert(q0.skip(j as int)[0] == q0[j as int]);
                }
                if levels[i].orders[j].id == id {
                    let cur_amount = levels[i].orders[j].amount;
                    let cur_filled = levels[i].orders[j].filled_amount;
                    if new_amount == 0 || new_amount > cur_amount || new_amount < cur_filled {
                        proof {
                            assert(amend_in_queue(q0.skip(j as int), id, new_amount).1.is_err());
                            assert(amend_in_queue(q0.skip(j as int), id, new_amount).0 == q0.skip(
                                j as int,
                            ));
                            assert(amend_in_queue(q0, id, new_amount).0 =~= q0);
                            assert(amend_at_price(ls0.skip(i as int), price, id, new_amount).0
                                =~= seq![LevelV { price, orders: q0 }] + ls0.skip(
                                i as int,
                            ).drop_first());
                            assert(ls0.skip(i as int).drop_first() =~= ls0.skip(i as int + 1));
                            assert(ls0.take(i as int) + (seq![LevelV { price, orders: q0 }]
                                + ls0.skip(i as int + 1)) =~= ls0);
                        }
                        return Err(
                            AmendError::InvalidAmount {
                                attempted: new_amount,
                                current_amount: cur_amount,
                                filled_amount: cur_filled,
                            },
                        );
                    }
                    let mut lvl = levels.remove(i);
                    let mut o = lvl.orders.remove(j);
                    o.amount = new_amount;
                    lvl.orders.insert(j, o);
                    levels.insert(i, lvl);
                    proof {
                        let q1 = amend_in_queue(q0, id, new_amount).0;
                        assert(amend_in_queue(q0.skip(j as int), id, new_amount).0 == q0.skip(
                            j as int,
                        ).update(0, Order { amount: new_amount, ..q0[j as int] }));
                        assert(q1 =~= q0.update(
                            j as int,
                            Order { amount: new_amount, ..q0[j as int] },
                        ));
                        assert(lvl.orders@ =~= q1);
                        assert(amend_at_price(ls0.skip(i as int), price, id, new_amount).0 =~= seq![
                            LevelV { price, orders: q1 },
                        ] + ls0.skip(i as int).drop_first());
                        assert(ls0.skip(i as int).drop_first() =~= ls0.skip(i as int + 1));
                        assert(levels_view(levels@) =~= ls0.take(i as int) + (seq![
                            LevelV { price, orders: q1 },
                        ] + ls0.skip(i as int + 1)));
                        assert(levels_view(levels@) =~= amend_at_price(
                            ls0,
                            price,
                            id,
                            new_amount,
                        ).0);
                        assert(amend_at_price(ls0, price, id, new_amount).1.is_ok());
                    }
                    return Ok(());
                }
                j = j + 1;
            }
        }
        i = i + 1;
    }
}

} // verus!
