use vstd::prelude::*;

verus! {

/// Errors reported by the matching engine.
#[derive(Debug)]
pub enum EngineError {
    /// No resting order with this id was found.
    OrderNotFound(u64),
    /// An order id was used twice.
    DuplicateOrderId(u64),
    /// Any other failure while processing an order.
    Processing(String),
}

} // verus!
