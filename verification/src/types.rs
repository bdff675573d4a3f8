//! Plain data carried through the matching core: orders, trades, and the
//! typed failure of an amendment. Prices and amounts are exact integer
//! quantities (a price in ticks, an amount in minimal units); identifiers are
//! 128-bit values chosen by the caller's id source.

use vstd::prelude::*;

verus! {

/// A price, in integer ticks.
pub type Price = u64;

/// A quantity of the traded asset, in integer minimal units.
pub type Amount = u64;

/// An order identifier; unique among resting orders at any time.
pub type OrderId = u128;

/// A trade identifier, freshly generated for each trade.
pub type TradeId = u128;

/// The identifier of the order's owner.
pub type UserId = u128;

#[derive(Clone, Copy, Debug, PartialEq, Eq, Hash, Structural)]
pub enum Side {
    Buy,
    Sell,
}

#[derive(Clone, Copy, Debug, PartialEq, Eq, Hash, Structural)]
pub enum OrderType {
    Limit,
    Market,
}

/// An order, created and validated by the caller before it reaches the core.
/// A `Limit` order always carries a price; a `Market` order never does.
#[derive(Debug, PartialEq)]
pub struct Order {
    pub id: OrderId,
    pub user_id: UserId,
    pub market_id: String,
    pub side: Side,
    pub order_type: OrderType,
    pub amount: Amount,
    pub filled_amount: Amount,
    pub price: Option<Price>,
    pub timestamp: i64,
}

impl Order {
    /// The quantity of this order that has not executed yet.
    pub open spec fn remaining(self) -> int {
        self.amount - self.filled_amount
    }
}

impl Clone for Order {
    fn clone(&self) -> (r: Self)
        ensures
            r == *self,
    {
        Order {
            id: self.id,
            user_id: self.user_id,
            market_id: self.market_id.clone(),
            side: self.side,
            order_type: self.order_type,
            amount: self.amount,
            filled_amount: self.filled_amount,
            price: self.price,
            timestamp: self.timestamp,
        }
    }
}

/// A trade produced by one matching pass: `amount` units executed at the
/// maker's resting price. Immutable once created.
#[derive(Debug, PartialEq)]
pub struct Trade {
    pub id: TradeId,
    pub market_id: String,
    pub taker_order_id: OrderId,
    pub maker_order_id: OrderId,
    pub amount: Amount,
    pub price: Price,
    pub timestamp: i64,
    pub taker_side: Side,
}

impl Clone for Trade {
    fn clone(&self) -> (r: Self)
        ensures
            r == *self,
    {
        Trade {
            id: self.id,
            market_id: self.market_id.clone(),
            taker_order_id: self.taker_order_id,
            maker_order_id: self.maker_order_id,
            amount: self.amount,
            price: self.price,
            timestamp: self.timestamp,
            taker_side: self.taker_side,
        }
    }
}

/// The typed failure of an amendment. `InvalidAmount` reports the attempted
/// value together with the bounds it violated: an amendment must be positive,
/// must not grow the order, and must not go below the filled quantity.
#[derive(Clone, Copy, Debug, PartialEq, Eq, Structural)]
pub enum AmendError {
    NotFound,
    InvalidAmount { attempted: Amount, current_amount: Amount, filled_amount: Amount },
}

/// The side a taker order executes against.
pub open spec fn opposite(side: Side) -> Side {
    match side {
        Side::Buy => Side::Sell,
        Side::Sell => Side::Buy,
    }
}

/// The price a limit order carries; an arbitrary default for a market order
/// (never consulted on that path).
pub open spec fn opt_price(p: Option<Price>) -> Price {
    match p {
        Some(x) => x,
        None => 0,
    }
}

} // verus!
