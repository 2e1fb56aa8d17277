//! The basic data of the book: the instrument, orders, trade records,
//! matching signals and the request errors.

use vstd::prelude::*;

verus! {

/// The instrument that one book trades. The book holds a reference to
/// exactly one `Security` for its whole lifetime and never reads it.
pub struct Security {
    pub isin: String,
    pub name: String,
}

/// A buy or sell order. Prices are integer ticks; `order_limit` is `None`
/// for a market order. `amount_executed` counts the quantity already
/// filled and never exceeds `amount` while the order rests.
#[derive(Clone, Copy)]
pub struct Order {
    pub order_id: i64,
    pub is_buy_order: bool,
    pub order_limit: Option<i64>,
    pub amount: i64,
    pub amount_executed: i64,
}

impl Order {
    /// A fresh order is unassigned (`order_id == -1`) and unfilled.
    pub fn new(is_buy_order: bool, order_limit: Option<i64>, _security: &Security, amount: i64) -> (r: Order)
        ensures
            r.order_id == -1,
            r.is_buy_order == is_buy_order,
            r.order_limit == order_limit,
            r.amount == amount,
            r.amount_executed == 0,
    {
        Order { order_id: -1, is_buy_order, order_limit, amount, amount_executed: 0 }
    }

    pub fn order_id(&self) -> (r: i64)
        ensures
            r == self.order_id,
    {
        self.order_id
    }

    /// Quantity still unfilled.
    pub open spec fn spec_remaining(self) -> int {
        self.amount - self.amount_executed
    }

    pub fn remaining(&self) -> (r: i64)
        requires
            0 <= self.amount_executed <= self.amount,
        ensures
            r == self.spec_remaining(),
    {
        self.amount - self.amount_executed
    }
}

/// An immutable trade record: the two counterpart orders, the price the
/// trade happened at (the resting order's quote) and the quantity filled.
#[derive(Clone, Copy)]
pub struct Execution {
    pub buying_order_id: i64,
    pub selling_order_id: i64,
    pub price: i64,
    pub quantity: i64,
}

/// How an insertion classified the new order: only `BuyAtMarket`,
/// `SellAtMarket`, `NewHighestBid` and `NewLowestAsk` can cross, so only
/// they trigger an execution round; `NoOperation` never does.
#[derive(Clone, Copy, PartialEq, Eq, Structural)]
pub enum MatchingSignal {
    BuyAtMarket,
    SellAtMarket,
    NewHighestBid,
    NewLowestAsk,
    NoOperation,
}

/// The four caller-visible rejections. None of them leaves the book
/// changed in any way.
#[derive(Clone, Copy, PartialEq, Eq, Structural, Debug)]
pub enum OrderbookError {
    /// The order's quantity was not positive.
    InvalidQuantity,
    /// The order's limit price was not positive.
    InvalidPrice,
    /// A new worst resting price would sit too far from the market price.
    PriceOutOfBand,
    /// Cancellation of an id that is not resting in the registry.
    OrderNotFound,
}

/// What one order id contributes to one execution record.
pub open spec fn exec_contrib(e: Execution, id: int) -> int {
    (if e.buying_order_id == id {
        e.quantity as int
    } else {
        0
    }) + (if e.selling_order_id == id {
        e.quantity as int
    } else {
        0
    })
}

/// The total quantity a given order id has traded over a whole log.
pub open spec fn exec_total(log: Seq<Execution>, id: int) -> int
    decreases log.len(),
{
    if log.len() == 0 {
        0
    } else {
        exec_total(log.drop_last(), id) + exec_contrib(log.last(), id)
    }
}

/// Appending one record adds exactly its contribution to every id's total.
pub proof fn lemma_exec_total_push(log: Seq<Execution>, e: Execution, id: int)
    ensures
        exec_total(log.push(e), id) == exec_total(log, id) + exec_contrib(e, id),
{
    assert(log.push(e).drop_last() =~= log);
    assert(log.push(e).last() == e);
}

/// An id no record names has traded nothing.
pub proof fn lemma_exec_total_absent(log: Seq<Execution>, id: int)
    requires
        forall|k: int|
            0 <= k < log.len() ==> (#[trigger] log[k]).buying_order_id != id
                && log[k].selling_order_id != id,
    ensures
        exec_total(log, id) == 0,
    decreases log.len(),
{
    if log.len() > 0 {
        assert(log.last() == log[log.len() - 1]);
        lemma_exec_total_absent(log.drop_last(), id);
    }
}

} // verus!
