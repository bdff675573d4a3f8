//! The order book aggregate: two price-ordered ledgers of resting orders
//! (bids best-price-first descending, asks ascending) plus an order index
//! mapping an order id to its resting price. Every operation keeps the index
//! consistent with the ledger; `book_wf` states that consistency together
//! with the structural invariants of the ledger.

use vstd::prelude::*;

use crate::types::{opt_price, Amount, Order, OrderId, OrderType, Price, Side};
use std::collections::HashMap;

verus! {

broadcast use vstd::std_specs::hash::group_hash_axioms;

/// One price level: the resting orders at one exact price on one side,
/// oldest first (strict FIFO time priority). A level is never empty.
pub struct PriceLevel {
    pub price: Price,
    pub orders: Vec<Order>,
}

/// The mathematical value of a price level.
#[verifier::ext_equal]
pub ghost struct LevelV {
    pub price: Price,
    pub orders: Seq<Order>,
}

impl View for PriceLevel {
    type V = LevelV;

    open spec fn view(&self) -> LevelV {
        LevelV { price: self.price, orders: self.orders@ }
    }
}

/// The mathematical value of a whole book: both sides and the order index.
#[verifier::ext_equal]
pub ghost struct BookV {
    pub bids: Seq<LevelV>,
    pub asks: Seq<LevelV>,
    pub index: Map<OrderId, Price>,
}

pub open spec fn levels_view(levels: Seq<PriceLevel>) -> Seq<LevelV> {
    levels.map_values(|l: PriceLevel| l@)
}

impl BookV {
    /// The ledger of the given side.
    pub open spec fn side(self, side: Side) -> Seq<LevelV> {
        match side {
            Side::Buy => self.bids,
            Side::Sell => self.asks,
        }
    }

    /// This book with the given side's ledger replaced.
    pub open spec fn with_side(self, side: Side, levels: Seq<LevelV>) -> BookV {
        match side {
            Side::Buy => BookV { bids: levels, ..self },
            Side::Sell => BookV { asks: levels, ..self },
        }
    }
}

/// `a` is a strictly better price than `b` for makers of side `side`:
/// among bids the higher price is served first, among asks the lower.
pub open spec fn better_price(side: Side, a: Price, b: Price) -> bool {
    match side {
        Side::Buy => a > b,
        Side::Sell => a < b,
    }
}

/// A resting order is valid for its side and level: correct side, a limit
/// order, priced at its level's price, and not filled beyond its amount.
pub open spec fn order_ok(o: Order, side: Side, price: Price) -> bool {
    &&& o.side == side
    &&& o.order_type == OrderType::Limit
    &&& o.price == Some(price)
    &&& o.filled_amount <= o.amount
}

pub open spec fn level_ok(l: LevelV, side: Side) -> bool {
    &&& 0 < l.orders.len()
    &&& forall|j: int| 0 <= j < l.orders.len() ==> order_ok(#[trigger] l.orders[j], side, l.price)
}

/// The structural invariant of one side: levels strictly sorted best price
/// first, and every level non-empty and made of valid resting orders.
pub open spec fn side_ok(levels: Seq<LevelV>, side: Side) -> bool {
    &&& forall|i: int, j: int|
        0 <= i < j < levels.len() ==> better_price(
            side,
            (#[trigger] levels[i]).price,
            (#[trigger] levels[j]).price,
        )
    &&& forall|i: int| 0 <= i < levels.len() ==> level_ok(#[trigger] levels[i], side)
}

/// Some resting order on this side carries the given id.
pub open spec fn side_has_id(levels: Seq<LevelV>, id: OrderId) -> bool {
    exists|i: int, j: int|
        0 <= i < levels.len() && 0 <= j < levels[i].orders.len() && (#[trigger] levels[i].orders[j]).id
            == id
}

/// Every resting order of this side is indexed at its level's price.
pub open spec fn side_indexed(levels: Seq<LevelV>, index: Map<OrderId, Price>) -> bool {
    forall|i: int, j: int|
        0 <= i < levels.len() && 0 <= j < levels[i].orders.len() ==> {
            &&& index.dom().contains((#[trigger] levels[i].orders[j]).id)
            &&& index[levels[i].orders[j].id] == levels[i].price
        }
}

pub open spec fn level_ids_unique(l: LevelV) -> bool {
    forall|j1: int, j2: int|
        0 <= j1 < j2 < l.orders.len() ==> (#[trigger] l.orders[j1]).id != (#[trigger] l.orders[j2]).id
}

pub open spec fn side_levels_ids_unique(levels: Seq<LevelV>) -> bool {
    forall|i: int| 0 <= i < levels.len() ==> level_ids_unique(#[trigger] levels[i])
}

/// No order id rests on both sides at once.
pub open spec fn sides_disjoint(bids: Seq<LevelV>, asks: Seq<LevelV>) -> bool {
    forall|id: OrderId|
        !(#[trigger] side_has_id(bids, id) && #[trigger] side_has_id(asks, id))
}

/// Every indexed id actually rests in the ledger.
pub open spec fn index_covered(b: BookV) -> bool {
    forall|id: OrderId|
        #[trigger] b.index.dom().contains(id) ==> side_has_id(b.bids, id) || side_has_id(
            b.asks,
            id,
        )
}

/// Well-formedness of the whole book. This includes index consistency: an id
/// is in the order index if and only if it rests in exactly one side's
/// ledger, and the indexed price is the price of the level holding it.
pub open spec fn book_wf(b: BookV) -> bool {
    &&& side_ok(b.bids, Side::Buy)
    &&& side_ok(b.asks, Side::Sell)
    &&& side_levels_ids_unique(b.bids)
    &&& side_levels_ids_unique(b.asks)
    &&& side_indexed(b.bids, b.index)
    &&& side_indexed(b.asks, b.index)
    &&& sides_disjoint(b.bids, b.asks)
    &&& index_covered(b)
}

/// The best (first) price of a side, or `None` if the side is empty.
pub open spec fn best_price_of(levels: Seq<LevelV>) -> Option<Price> {
    if levels.len() == 0 {
        None
    } else {
        Some(levels[0].price)
    }
}

/// The ledger after appending `o` to the tail of its price's level, creating
/// the level at its sorted position if absent.
pub open spec fn insert_into_levels(levels: Seq<LevelV>, o: Order, side: Side) -> Seq<LevelV>
    decreases levels.len(),
{
    let p = opt_price(o.price);
    if levels.len() == 0 {
        seq![LevelV { price: p, orders: seq![o] }]
    } else if levels[0].price == p {
        seq![LevelV { price: p, orders: levels[0].orders.push(o) }] + levels.drop_first()
    } else if better_price(side, p, levels[0].price) {
        seq![LevelV { price: p, orders: seq![o] }] + levels
    } else {
        seq![levels[0]] + insert_into_levels(levels.drop_first(), o, side)
    }
}

/// An order book for one market. Owned and mutated by a single logical
/// thread of control; no operation blocks or performs I/O.
pub struct OrderBook {
    pub(crate) bids: Vec<PriceLevel>,
    pub(crate) asks: Vec<PriceLevel>,
    pub(crate) order_locations: HashMap<OrderId, Price>,
}

impl View for OrderBook {
    type V = BookV;

    open(crate) spec fn view(&self) -> BookV {
        BookV {
            bids: levels_view(self.bids@),
            asks: levels_view(self.asks@),
            index: self.order_locations@,
        }
    }
}

impl OrderBook {
    /// An empty book: no resting orders, empty index.
    pub fn new() -> (r: OrderBook)
        ensures
            r@.bids.len() == 0,
            r@.asks.len() == 0,
            r@.index == Map::<OrderId, Price>::empty(),
            book_wf(r@),
    {
        let r = OrderBook {
            bids: Vec::new(),
            asks: Vec::new(),
            order_locations: HashMap::new(),
        };
        proof {
            assert(levels_view(r.bids@) =~= Seq::<LevelV>::empty());
            assert(levels_view(r.asks@) =~= Seq::<LevelV>::empty());
        }
        r
    }

    /// The highest resting bid price, or `None` if no bids rest.
    pub fn get_best_bid(&self) -> (r: Option<Price>)
        ensures
            r == best_price_of(self@.bids),
    {
        if self.bids.len() == 0 {
            None
        } else {
            Some(self.bids[0].price)
        }
    }

    /// The lowest resting ask price, or `None` if no asks rest.
    pub fn get_best_ask(&self) -> (r: Option<Price>)
        ensures
            r == best_price_of(self@.asks),
    {
        if self.asks.len() == 0 {
            None
        } else {
            Some(self.asks[0].price)
        }
    }

    /// Rest a limit buy order in the bid ledger and index it.
    pub fn add_bid(&mut self, order: Order)
        requires
            book_wf(old(self)@),
            order.side == Side::Buy,
            order.order_type == OrderType::Limit,
            order.price.is_some(),
            order.filled_amount <= order.amount,
            !old(self)@.index.dom().contains(order.id),
        ensures
            book_wf(final(self)@),
            final(self)@.bids == insert_into_levels(old(self)@.bids, order, Side::Buy),
            final(self)@.asks == old(self)@.asks,
            final(self)@.index == old(self)@.index.insert(order.id, opt_price(order.price)),
    {
        let ghost b0 = self@;
        let price = order.price.unwrap();
        let ghost o = order;
        self.order_locations.insert(order.id, price);
        insert_level(&mut self.bids, order, Side::Buy, price);
        proof {
            lemma_insert_wf(b0.bids, o, Side::Buy, b0.index);
            lemma_insert_ids(b0.bids, o, Side::Buy);
            assert forall|id: OrderId|
                !(#[trigger] side_has_id(self@.bids, id) && #[trigger] side_has_id(
                    self@.asks,
                    id,
                )) by {
                if side_has_id(self@.bids, id) && side_has_id(self@.asks, id) {
                    assert(side_has_id(b0.bids, id) || id == o.id);
                    assert(!(side_has_id(b0.bids, id) && side_has_id(b0.asks, id)));
                    // an ask resting with o.id would have been indexed
                    if id == o.id {
                        lemma_side_id_indexed(b0.asks, b0.index, id);
                    }
                }
            }
            assert forall|id: OrderId| #[trigger]
                self@.index.dom().contains(id) implies side_has_id(self@.bids, id)
                || side_has_id(self@.asks, id) by {
                if id != o.id {
                    assert(b0.index.dom().contains(id));
                }
            }
            assert(side_indexed(self@.asks, self@.index)) by {
                assert forall|i: int, j: int|
                    0 <= i < self@.asks.len() && 0 <= j < self@.asks[i].orders.len() implies {
                    &&& self@.index.dom().contains((#[trigger] self@.asks[i].orders[j]).id)
                    &&& self@.index[self@.asks[i].orders[j].id] == self@.asks[i].price
                } by {
                    assert(b0.index.dom().contains(self@.asks[i].orders[j].id));
                }
            }
        }
    }

    /// Rest a limit sell order in the ask ledger and index it.
    pub fn add_ask(&mut self, order: Order)
        requires
            book_wf(old(self)@),
            order.side == Side::Sell,
            order.order_type == OrderType::Limit,
            order.price.is_some(),
            order.filled_amount <= order.amount,
            !old(self)@.index.dom().contains(order.id),
        ensures
            book_wf(final(self)@),
            final(self)@.asks == insert_into_levels(old(self)@.asks, order, Side::Sell),
            final(self)@.bids == old(self)@.bids,
            final(self)@.index == old(self)@.index.insert(order.id, opt_price(order.price)),
    {
        let ghost b0 = self@;
        let price = order.price.unwrap();
        let ghost o = order;
        self.order_locations.insert(order.id, price);
        insert_level(&mut self.asks, order, Side::Sell, price);
        proof {
            lemma_insert_wf(b0.asks, o, Side::Sell, b0.index);
            lemma_insert_ids(b0.asks, o, Side::Sell);
            assert forall|id: OrderId|
                !(#[trigger] side_has_id(self@.bids, id) && #[trigger] side_has_id(
                    self@.asks,
                    id,
                )) by {
                if side_has_id(self@.bids, id) && side_has_id(self@.asks, id) {
                    assert(side_has_id(b0.asks, id) || id == o.id);
                    assert(!(side_has_id(b0.bids, id) && side_has_id(b0.asks, id)));
                    if id == o.id {
                        lemma_side_id_indexed(b0.bids, b0.index, id);
                    }
                }
            }
            assert forall|id: OrderId| #[trigger]
                self@.index.dom().contains(id) implies side_has_id(self@.bids, id)
                || side_has_id(self@.asks, id) by {
                if id != o.id {
                    assert(b0.index.dom().contains(id));
                }
            }
            assert(side_indexed(self@.bids, self@.index)) by {
                assert forall|i: int, j: int|
                    0 <= i < self@.bids.len() && 0 <= j < self@.bids[i].orders.len() implies {
                    &&& self@.index.dom().contains((#[trigger] self@.bids[i].orders[j]).id)
                    &&& self@.index[self@.bids[i].orders[j].id] == self@.bids[i].price
                } by {
                    assert(b0.index.dom().contains(self@.bids[i].orders[j].id));
                }
            }
        }
    }
}

/// If an id rests on a side that is indexed, the index holds it.
pub proof fn lemma_side_id_indexed(levels: Seq<LevelV>, index: Map<OrderId, Price>, id: OrderId)
    requires
        side_indexed(levels, index),
        side_has_id(levels, id),
    ensures
        index.dom().contains(id),
{
    let (i, j): (int, int) = choose|i: int, j: int|
        0 <= i < levels.len() && 0 <= j < levels[i].orders.len() && (#[trigger] levels[i].orders[j]).id
            == id;
    assert(index.dom().contains(levels[i].orders[j].id));
}

/// Decompose the insertion past a prefix of levels that neither hold the
/// order's price nor come after it in priority order.
proof fn lemma_insert_decompose(levels: Seq<LevelV>, o: Order, side: Side, i: int)
    requires
        0 <= i <= levels.len(),
        forall|k: int|
            0 <= k < i ==> (#[trigger] levels[k]).price != opt_price(o.price) && !better_price(
                side,
                opt_price(o.price),
                levels[k].price,
            ),
    ensures
        insert_into_levels(levels, o, side) =~= levels.take(i) + insert_into_levels(
            levels.skip(i),
            o,
            side,
        ),
    decreases i,
{
    if i == 0 {
        assert(levels.skip(0) =~= levels);
        assert(levels.take(0) + insert_into_levels(levels, o, side) =~= insert_into_levels(
            levels,
            o,
            side,
        ));
    } else {
        let rest = levels.drop_first();
        assert forall|k: int|
            0 <= k < i - 1 implies (#[trigger] rest[k]).price != opt_price(o.price)
            && !better_price(side, opt_price(o.price), rest[k].price) by {
            assert(rest[k] == levels[k + 1]);
        }
        lemma_insert_decompose(rest, o, side, i - 1);
        assert(rest.skip(i - 1) =~= levels.skip(i));
        assert(seq![levels[0]] + (rest.take(i - 1) + insert_into_levels(levels.skip(i), o, side))
            =~= levels.take(i) + insert_into_levels(levels.skip(i), o, side));
    }
}

/// Insertion preserves sortedness, level validity, and the indexing of every
/// order once the new order's id is added to the index.
proof fn lemma_insert_wf(levels: Seq<LevelV>, o: Order, side: Side, index: Map<OrderId, Price>)
    requires
        side_ok(levels, side),
        o.side == side,
        o.order_type == OrderType::Limit,
        o.price.is_some(),
        o.filled_amount <= o.amount,
        side_indexed(levels, index),
        side_levels_ids_unique(levels),
        !index.dom().contains(o.id),
    ensures
        side_ok(insert_into_levels(levels, o, side), side),
        side_indexed(
            insert_into_levels(levels, o, side),
            index.insert(o.id, opt_price(o.price)),
        ),
        side_levels_ids_unique(insert_into_levels(levels, o, side)),
    decreases levels.len(),
{
    let p = opt_price(o.price);
    let r = insert_into_levels(levels, o, side);
    let index2 = index.insert(o.id, p);
    if levels.len() == 0 {
        assert(order_ok(r[0].orders[0], side, p));
    } else if levels[0].price == p {
        assert forall|i: int| 0 <= i < r.len() implies level_ok(#[trigger] r[i], side) by {
            if i == 0 {
                assert forall|j: int| 0 <= j < r[0].orders.len() implies order_ok(
                    #[trigger] r[0].orders[j],
                    side,
                    r[0].price,
                ) by {
                    if j < levels[0].orders.len() {
                        assert(order_ok(levels[0].orders[j], side, levels[0].price));
                    }
                }
            } else {
                assert(r[i] == levels[i]);
                assert(level_ok(levels[i], side));
            }
        }
        assert forall|i: int, j: int|
            0 <= i < r.len() && 0 <= j < r[i].orders.len() implies {
            &&& index2.dom().contains((#[trigger] r[i].orders[j]).id)
            &&& index2[r[i].orders[j].id] == r[i].price
        } by {
            if i == 0 && j == levels[0].orders.len() {
            } else {
                assert(r[i].orders[j] == levels[i].orders[j]);
                assert(index.dom().contains(levels[i].orders[j].id));
            }
        }
        assert forall|i: int| 0 <= i < r.len() implies level_ids_unique(#[trigger] r[i]) by {
            if i == 0 {
                assert forall|j1: int, j2: int|
                    0 <= j1 < j2 < r[0].orders.len() implies (#[trigger] r[0].orders[j1]).id != (
                #[trigger] r[0].orders[j2]).id by {
                    if j2 == levels[0].orders.len() {
                        // the new order's id is absent from the index, existing ones present
                        assert(index.dom().contains(levels[0].orders[j1].id));
                    } else {
                        assert(level_ids_unique(levels[0]));
                    }
                }
            } else {
                assert(r[i] == levels[i]);
                assert(level_ids_unique(levels[i]));
            }
        }
    } else if better_price(side, p, levels[0].price) {
        assert forall|i: int, j: int| 0 <= i < j < r.len() implies better_price(
            side,
            (#[trigger] r[i]).price,
            (#[trigger] r[j]).price,
        ) by {
            if i == 0 {
                assert(r[j] == levels[j - 1]);
                if j > 1 {
                    assert(better_price(side, levels[0].price, levels[j - 1].price));
                }
            } else {
                assert(r[i] == levels[i - 1]);
                assert(r[j] == levels[j - 1]);
            }
        }
        assert forall|i: int| 0 <= i < r.len() implies level_ok(#[trigger] r[i], side) by {
            if i == 0 {
                assert(order_ok(r[0].orders[0], side, p));
            } else {
                assert(r[i] == levels[i - 1]);
            }
        }
        assert forall|i: int, j: int|
            0 <= i < r.len() && 0 <= j < r[i].orders.len() implies {
            &&& index2.dom().contains((#[trigger] r[i].orders[j]).id)
            &&& index2[r[i].orders[j].id] == r[i].price
        } by {
            if i > 0 {
                assert(r[i].orders[j] == levels[i - 1].orders[j]);
                assert(index.dom().contains(levels[i - 1].orders[j].id));
            }
        }
        assert forall|i: int| 0 <= i < r.len() implies level_ids_unique(#[trigger] r[i]) by {
            if i > 0 {
                assert(r[i] == levels[i - 1]);
                assert(level_ids_unique(levels[i - 1]));
            }
        }
    } else {
        let rest = levels.drop_first();
        assert forall|i: int, j: int|
            0 <= i < rest.len() && 0 <= j < rest[i].orders.len() implies {
            &&& index.dom().contains((#[trigger] rest[i].orders[j]).id)
            &&& index[rest[i].orders[j].id] == rest[i].price
        } by {
            assert(rest[i] == levels[i + 1]);
        }
        assert forall|i: int, j: int| 0 <= i < j < rest.len() implies better_price(
            side,
            (#[trigger] rest[i]).price,
            (#[trigger] rest[j]).price,
        ) by {
            assert(rest[i] == levels[i + 1] && rest[j] == levels[j + 1]);
        }
        assert forall|i: int| 0 <= i < rest.len() implies level_ok(#[trigger] rest[i], side)
            && level_ids_unique(rest[i]) by {
            assert(rest[i] == levels[i + 1]);
        }
        lemma_insert_wf(rest, o, side, index);
        lemma_insert_ids(rest, o, side);
        let rr = insert_into_levels(rest, o, side);
        assert(r == seq![levels[0]] + rr);
        assert forall|i: int, j: int| 0 <= i < j < r.len() implies better_price(
            side,
            (#[trigger] r[i]).price,
            (#[trigger] r[j]).price,
        ) by {
            if i == 0 {
                assert(r[j] == rr[j - 1]);
                lemma_insert_head_price(rest, o, side);
                if rr[j - 1].price != p && rest.len() > 0 {
                    // rr prices are rest prices or p
                    lemma_insert_prices(rest, o, side, j - 1);
                }
                if rr[j - 1].price == p {
                    assert(better_price(side, levels[0].price, p));
                } else {
                    let k = choose|k: int|
                        0 <= k < rest.len() && (#[trigger] rest[k]).price == rr[j - 1].price;
                    assert(better_price(side, levels[0].price, levels[k + 1].price));
                }
            } else {
                assert(r[i] == rr[i - 1] && r[j] == rr[j - 1]);
            }
        }
        assert forall|i: int| 0 <= i < r.len() implies level_ok(#[trigger] r[i], side)
            && level_ids_unique(r[i]) by {
            if i == 0 {
                assert(level_ok(levels[0], side));
                assert(level_ids_unique(levels[0]));
            } else {
                assert(r[i] == rr[i - 1]);
            }
        }
        assert forall|i: int, j: int|
            0 <= i < r.len() && 0 <= j < r[i].orders.len() implies {
            &&& index2.dom().contains((#[trigger] r[i].orders[j]).id)
            &&& index2[r[i].orders[j].id] == r[i].price
        } by {
            if i == 0 {
                assert(levels[0].orders[j] == r[0].orders[j]);
                assert(index.dom().contains(levels[0].orders[j].id));
            } else {
                assert(r[i].orders[j] == rr[i - 1].orders[j]);
            }
        }
    }
}

/// Every price of the inserted ledger is the new order's price or one of the
/// original prices.
proof fn lemma_insert_prices(levels: Seq<LevelV>, o: Order, side: Side, i: int)
    requires
        0 <= i < insert_into_levels(levels, o, side).len(),
        insert_into_levels(levels, o, side)[i].price != opt_price(o.price),
    ensures
        exists|k: int|
            0 <= k < levels.len() && (#[trigger] levels[k]).price == insert_into_levels(
                levels,
                o,
                side,
            )[i].price,
    decreases levels.len(),
{
    let p = opt_price(o.price);
    let r = insert_into_levels(levels, o, side);
    if levels.len() == 0 {
    } else if levels[0].price == p {
        assert(levels[i] == r[i]);
    } else if better_price(side, p, levels[0].price) {
        assert(levels[i - 1] == r[i]);
    } else {
        if i == 0 {
            assert(levels[0].price == r[0].price);
        } else {
            lemma_insert_prices(levels.drop_first(), o, side, i - 1);
            let k = choose|k: int|
                0 <= k < levels.drop_first().len() && (#[trigger] levels.drop_first()[k]).price
                    == insert_into_levels(levels.drop_first(), o, side)[i - 1].price;
            assert(levels[k + 1].price == r[i].price);
        }
    }
}

/// The head of the inserted ledger carries the better of the new order's
/// price and the old best price.
pub proof fn lemma_insert_head_price(levels: Seq<LevelV>, o: Order, side: Side)
    ensures
        insert_into_levels(levels, o, side).len() > 0,
        levels.len() == 0 ==> insert_into_levels(levels, o, side)[0].price == opt_price(o.price),
        levels.len() > 0 ==> insert_into_levels(levels, o, side)[0].price == if better_price(
            side,
            opt_price(o.price),
            levels[0].price,
        ) {
            opt_price(o.price)
        } else {
            levels[0].price
        },
{
}

/// The ids resting after an insertion are the old ids plus the new order's.
pub proof fn lemma_insert_ids(levels: Seq<LevelV>, o: Order, side: Side)
    ensures
        forall|x: OrderId| #[trigger]
            side_has_id(insert_into_levels(levels, o, side), x) <==> (side_has_id(levels, x) || x
                == o.id),
    decreases levels.len(),
{
    let p = opt_price(o.price);
    let r = insert_into_levels(levels, o, side);
    if levels.len() == 0 {
        assert forall|x: OrderId| #[trigger] side_has_id(r, x) <==> (side_has_id(levels, x) || x
            == o.id) by {
            if x == o.id {
                assert(r[0].orders[0].id == x);
                assert(side_has_id(r, x));
            }
            if side_has_id(r, x) && x != o.id {
                let (i, j): (int, int) = choose|i: int, j: int|
                    0 <= i < r.len() && 0 <= j < r[i].orders.len() && (#[trigger] r[i].orders[j]).id
                        == x;
                assert(false);
            }
        }
    } else if levels[0].price == p {
        assert forall|x: OrderId| #[trigger] side_has_id(r, x) <==> (side_has_id(levels, x) || x
            == o.id) by {
            if x == o.id {
                assert(r[0].orders[levels[0].orders.len() as int].id == x);
            }
            if side_has_id(levels, x) {
                let (i, j): (int, int) = choose|i: int, j: int|
                    0 <= i < levels.len() && 0 <= j < levels[i].orders.len() && (
                #[trigger] levels[i].orders[j]).id == x;
                assert(r[i].orders[j].id == x);
            }
            if side_has_id(r, x) && x != o.id {
                let (i, j): (int, int) = choose|i: int, j: int|
                    0 <= i < r.len() && 0 <= j < r[i].orders.len() && (#[trigger] r[i].orders[j]).id
                        == x;
                assert(levels[i].orders[j].id == x);
            }
        }
    } else if better_price(side, p, levels[0].price) {
        assert forall|x: OrderId| #[trigger] side_has_id(r, x) <==> (side_has_id(levels, x) || x
            == o.id) by {
            if x == o.id {
                assert(r[0].orders[0].id == x);
            }
            if side_has_id(levels, x) {
                let (i, j): (int, int) = choose|i: int, j: int|
                    0 <= i < levels.len() && 0 <= j < levels[i].orders.len() && (
                #[trigger] levels[i].orders[j]).id == x;
                assert(r[i + 1].orders[j].id == x);
            }
            if side_has_id(r, x) && x != o.id {
                let (i, j): (int, int) = choose|i: int, j: int|
                    0 <= i < r.len() && 0 <= j < r[i].orders.len() && (#[trigger] r[i].orders[j]).id
                        == x;
                assert(levels[i - 1].orders[j].id == x);
            }
        }
    } else {
        lemma_insert_ids(levels.drop_first(), o, side);
        let rest = levels.drop_first();
        let rr = insert_into_levels(rest, o, side);
        assert forall|x: OrderId| #[trigger] side_has_id(r, x) <==> (side_has_id(levels, x) || x
            == o.id) by {
            if side_has_id(levels, x) {
                let (i, j): (int, int) = choose|i: int, j: int|
                    0 <= i < levels.len() && 0 <= j < levels[i].orders.len() && (
                #[trigger] levels[i].orders[j]).id == x;
                if i == 0 {
                    assert(r[0].orders[j].id == x);
                } else {
                    assert(rest[i - 1].orders[j].id == x);
                    assert(side_has_id(rest, x));
                    assert(side_has_id(rr, x));
                    let (i2, j2): (int, int) = choose|i2: int, j2: int|
                        0 <= i2 < rr.len() && 0 <= j2 < rr[i2].orders.len() && (
                    #[trigger] rr[i2].orders[j2]).id == x;
                    assert(r[i2 + 1].orders[j2].id == x);
                }
            }
            if x == o.id {
                assert(side_has_id(rr, x));
                let (i2, j2): (int, int) = choose|i2: int, j2: int|
                    0 <= i2 < rr.len() && 0 <= j2 < rr[i2].orders.len() && (
                #[trigger] rr[i2].orders[j2]).id == x;
                assert(r[i2 + 1].orders[j2].id == x);
            }
            if side_has_id(r, x) && x != o.id && !side_has_id(levels, x) {
                let (i, j): (int, int) = choose|i: int, j: int|
                    0 <= i < r.len() && 0 <= j < r[i].orders.len() && (#[trigger] r[i].orders[j]).id
                        == x;
                if i == 0 {
                    assert(levels[0].orders[j].id == x);
                } else {
                    assert(rr[i - 1].orders[j].id == x);
                    assert(side_has_id(rr, x));
                    let (i2, j2): (int, int) = choose|i2: int, j2: int|
                        0 <= i2 < rest.len() && 0 <= j2 < rest[i2].orders.len() && (
                    #[trigger] rest[i2].orders[j2]).id == x;
                    assert(levels[i2 + 1].orders[j2].id == x);
                }
                assert(false);
            }
        }
    }
}

/// Append `order` to the level holding `price`, creating the level at its
/// sorted position if absent.
fn insert_level(levels: &mut Vec<PriceLevel>, order: Order, side: Side, price: Price)
    requires
        order.price == Some(price),
    ensures
        levels_view(final(levels)@) == insert_into_levels(levels_view(old(levels)@), order, side),
{
    let ghost ls0 = levels_view(levels@);
    let mut i: usize = 0;
    loop
        invariant
            order.price == Some(price),
            i <= levels.len(),
            ls0 == levels_view(old(levels)@),
            levels_view(levels@) == ls0,
            forall|k: int|
                0 <= k < i ==> (#[trigger] ls0[k]).price != price && !better_price(
                    side,
                    price,
                    ls0[k].price,
                ),
        decreases levels.len() - i,
    {
        proof {
            lemma_insert_decompose(ls0, order, side, i as int);
        }
        if i == levels.len() {
            let mut orders_vec: Vec<Order> = Vec::new();
            orders_vec.push(order);
            levels.push(PriceLevel { price, orders: orders_vec });
            proof {
                assert(ls0.skip(i as int) =~= Seq::<LevelV>::empty());
                assert(insert_into_levels(ls0.skip(i as int), order, side) =~= seq![
                    LevelV { price, orders: seq![order] },
                ]);
                assert(levels_view(levels@) =~= ls0.take(i as int) + insert_into_levels(
                    ls0.skip(i as int),
                    order,
                    side,
                ));
            }
            return ;
        }
        let cur = levels[i].price;
        proof {
            assert(ls0.skip(i as int)[0] == ls0[i as int]);
        }
        if cur == price {
            let mut lvl = levels.remove(i);
            lvl.orders.push(order);
            levels.insert(i, lvl);
            proof {
                assert(insert_into_levels(ls0.skip(i as int), order, side) =~= seq![
                    LevelV { price, orders: ls0[i as int].orders.push(order) },
                ] + ls0.skip(i as int).drop_first());
                assert(ls0.skip(i as int).drop_first() =~= ls0.skip(i as int + 1));
                assert(levels_view(levels@) =~= ls0.take(i as int) + insert_into_levels(
                    ls0.skip(i as int),
                    order,
                    side,
                ));
            }
            return ;
        }
        let goes_before = match side {
            Side::Buy => price > cur,
            Side::Sell => price < cur,
        };
        if goes_before {
            let mut orders_vec: Vec<Order> = Vec::new();
            orders_vec.push(order);
            levels.insert(i, PriceLevel { price, orders: orders_vec });
            proof {
                assert(insert_into_levels(ls0.skip(i as int), order, side) =~= seq![
                    LevelV { price, orders: seq![order] },
                ] + ls0.skip(i as int));
                assert(levels_view(levels@) =~= ls0.take(i as int) + insert_into_levels(
                    ls0.skip(i as int),
                    order,
                    side,
                ));
            }
            return ;
        }
        i = i + 1;
    }
}

} // verus!
