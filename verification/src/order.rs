use vstd::prelude::*;

verus! {

pub type Price = u64;

pub type OrderId = u64;

pub type TradeId = u64;

pub type Amount = u64;

/// The side of the book an order belongs to.
#[derive(Debug, Clone, Copy, PartialEq, Eq, Structural)]
pub enum Side {
    Bid,
    Ask,
}

/// A limit order.
#[derive(Debug, Clone, Copy)]
pub struct Order {
    pub id: OrderId,
    pub side: Side,
    pub price: Price,
    pub amount: u64,
}

impl Order {
    pub fn new(id: OrderId, side: Side, price: Price, amount: u64) -> (order: Self)
        ensures
            order == (Order { id, side, price, amount }),
    {
        Order { id, side, price, amount }
    }
}

/// A request handed to the engine.
#[derive(Debug, Clone)]
pub enum OrderEvent {
    New(Box<Order>),
    Cancel(OrderId),
}

/// A change of state reported by the engine.
#[derive(Debug, Clone)]
pub enum MarketEvent {
    Trade(Box<Trade>),
    OrderCancelled(OrderId),
    OrderFilled(OrderId),
    OrderPartiallyFilled(OrderId),
    OrderPlaced(OrderId),
    OrderUpdated(OrderId),
}

/// An execution between an incoming order and a resting one.
#[derive(Debug, Clone, Copy)]
pub struct Trade {
    pub id: TradeId,
    pub price: u64,
    pub amount: u64,
}

} // verus!
