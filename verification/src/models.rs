//! Domain types of the venue: sides, order taxonomy, orders, trades,
//! positions, accounts, books, funding rates and the error surface.
//!
//! Identifiers are 128-bit opaque values; timestamps are milliseconds
//! on a caller-supplied clock; money is `Dec` (see `decimal`).

use vstd::prelude::*;
use crate::decimal::{Dec, AMT_MAX, BAL_MAX, POS_MAX, SCALE};

verus! {

#[derive(Clone, Copy, Debug, PartialEq, Eq, Structural, Hash)]
pub enum Side {
    Buy,
    Sell,
}

/// Only `Limit` and `Market` are matched; the stop variants are part
/// of the taxonomy but rejected by placement.
#[derive(Clone, Copy, Debug, PartialEq, Eq, Structural, Hash)]
pub enum OrderType {
    Limit,
    Market,
    Stop,
    StopLimit,
}

/// GTC posts any remainder, IOC discards it, FOK demands that the
/// whole quantity be fillable or nothing happens.
#[derive(Clone, Copy, Debug, PartialEq, Eq, Structural, Hash)]
pub enum TimeInForce {
    GTC,
    IOC,
    FOK,
}

#[derive(Clone, Copy, Debug, PartialEq, Eq, Structural, Hash)]
pub enum MarginType {
    Isolated,
    Cross,
}

/// Funding and liquidation apply only to `Margin` positions.
#[derive(Clone, Copy, Debug, PartialEq, Eq, Structural, Hash)]
pub enum PositionType {
    Spot,
    Margin,
}

/// A trading order. `quantity` is the original size, `filled_quantity`
/// how much of it has traded; a resting order keeps `filled < quantity`.
#[derive(Clone, Debug)]
pub struct Order {
    pub id: u128,
    pub user_id: u128,
    pub symbol: String,
    pub side: Side,
    pub order_type: OrderType,
    pub price: Dec,
    pub quantity: Dec,
    pub filled_quantity: Dec,
    pub leverage: Option<Dec>,
    pub time_in_force: TimeInForce,
    pub created_at: i64,
    pub updated_at: i64,
}

impl Order {
    /// Machine-range validity of an order handed to the venue:
    /// non-negative in-range amounts, leverage above one when set.
    pub open spec fn valid(&self) -> bool {
        &&& 0 <= self.price@ <= AMT_MAX
        &&& 0 <= self.quantity@ <= AMT_MAX
        &&& self.filled_quantity@ == 0
        &&& match self.leverage {
            Some(l) => SCALE < l@ <= AMT_MAX,
            None => true,
        }
        &&& 0 <= self.created_at
        &&& 0 <= self.updated_at
    }
}

/// Record of one fill: price is always the resting order's price.
#[derive(Clone, Debug)]
pub struct Trade {
    pub id: u128,
    pub symbol: String,
    pub buyer_order_id: u128,
    pub seller_order_id: u128,
    pub price: Dec,
    pub quantity: Dec,
    pub executed_at: i64,
}

/// Open market position of one user on one symbol. `quantity` is the
/// net size (never negative); `side` gives its direction; `entry_price`
/// is the weighted-average entry, meaningful only while `quantity > 0`.
#[derive(Clone, Debug)]
pub struct Position {
    pub user_id: u128,
    pub symbol: String,
    pub side: Side,
    pub position_type: PositionType,
    pub quantity: Dec,
    pub entry_price: Dec,
    pub leverage: Option<Dec>,
    pub margin_type: Option<MarginType>,
    pub margin: Option<Dec>,
    pub liquidation_price: Option<Dec>,
    pub updated_at: i64,
}

impl Position {
    /// Machine-range well-formedness: quantity and entry in range,
    /// margin inside the representable balance band.
    pub open spec fn wf(&self) -> bool {
        &&& 0 <= self.quantity@ <= POS_MAX
        &&& 0 <= self.entry_price@ <= AMT_MAX
        &&& match self.leverage {
            Some(l) => SCALE < l@ <= AMT_MAX,
            None => true,
        }
        &&& match self.margin {
            Some(m) => -BAL_MAX <= m@ <= BAL_MAX,
            None => true,
        }
        &&& 0 <= self.updated_at
    }
}

/// User balances (one per asset) and positions (one per symbol).
#[derive(Debug)]
pub struct Account {
    pub user_id: u128,
    pub balances: Vec<(String, Dec)>,
    pub positions: Vec<Position>,
}

/// Order book of one symbol: bids best (highest) first, asks best
/// (lowest) first; ties in price keep insertion order.
#[derive(Debug)]
pub struct OrderBook {
    pub symbol: String,
    pub bids: Vec<Order>,
    pub asks: Vec<Order>,
}

/// A computed funding rate, clamped into [-0.00075, 0.00075], due at
/// `next_funding_time`.
#[derive(Clone, Debug)]
pub struct FundingRate {
    pub symbol: String,
    pub rate: Dec,
    pub next_funding_time: i64,
}

#[derive(Clone, Copy, Debug, PartialEq, Eq, Structural, Hash)]
pub enum OrderError {
    InsufficientBalance,
    InvalidOrder,
    OrderNotFound,
    WouldLiquidate,
    FundingError,
}

impl OrderError {
    /// Human-readable description of the error.
    pub fn message(&self) -> (r: String)
        ensures
            self == OrderError::InsufficientBalance ==> r@ == "Insufficient balance"@,
            self == OrderError::InvalidOrder ==> r@ == "Invalid order parameters"@,
            self == OrderError::OrderNotFound ==> r@ == "Order not found"@,
            self == OrderError::WouldLiquidate ==> r@ == "Position would be liquidated"@,
            self == OrderError::FundingError ==> r@ == "Funding payment failed"@,
    {
        match self {
            OrderError::InsufficientBalance => String::from_str("Insufficient balance"),
            OrderError::InvalidOrder => String::from_str("Invalid order parameters"),
            OrderError::OrderNotFound => String::from_str("Order not found"),
            OrderError::WouldLiquidate => String::from_str("Position would be liquidated"),
            OrderError::FundingError => String::from_str("Funding payment failed"),
        }
    }
}

} // verus!
