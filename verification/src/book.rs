//! The order book itself: one bid ladder, one ask ladder, the two
//! at-market queues, the order registry, the execution log and the
//! market price, together with the invariant that ties them together.

use vstd::prelude::*;
use crate::ladder::Ladder;
use crate::order::{Execution, Order, Security, exec_total};

verus! {

/// Everything recorded about an order at admission; it never changes
/// afterwards, even after the order leaves the registry, so conservation
/// can be stated for every id ever assigned.
pub ghost struct Placed {
    pub is_buy: bool,
    pub limit: Option<int>,
    pub amount: int,
}

pub struct Orderbook<'a> {
    pub security: &'a Security,
    pub starting_price: i64,
    /// The price of the most recent execution, seeding the price collar.
    pub current_market_price: i64,
    /// The registry: the order with id `i` lives at index `i`; `None`
    /// once it has fully filled or been cancelled (or was never assigned).
    pub orders: Vec<Option<Order>>,
    pub buy_at_market_orders: Vec<i64>,
    pub sell_at_market_orders: Vec<i64>,
    pub buy_ladder: Ladder,
    pub sell_ladder: Ladder,
    /// The audit trail: every execution ever produced, in match order.
    pub executions: Vec<Execution>,
    /// Ghost record of every admitted order's immutable fields.
    pub placed: Ghost<Map<int, Placed>>,
}

impl<'a> Orderbook<'a> {
    /// The next id to be assigned: ids are the registry's indices.
    pub open spec fn next_id(self) -> int {
        self.orders@.len() as int
    }

    /// Order `id` is resting in the book right now.
    pub open spec fn live(self, id: int) -> bool {
        0 <= id < self.orders@.len() && self.orders@[id] is Some
    }

    /// The resting order with id `id` (meaningful only when live).
    pub open spec fn ord(self, id: int) -> Order {
        self.orders@[id]->0
    }

    /// The ladder of the given side.
    pub open spec fn ladder(self, is_buy: bool) -> Ladder {
        if is_buy {
            self.buy_ladder
        } else {
            self.sell_ladder
        }
    }

    /// The at-market queue of the given side.
    pub open spec fn at_market(self, is_buy: bool) -> Seq<i64> {
        if is_buy {
            self.buy_at_market_orders@
        } else {
            self.sell_at_market_orders@
        }
    }

    /// A live order's fields are sane and agree with its admission record.
    pub open spec fn order_ok(self, id: int) -> bool {
        let o = self.ord(id);
        &&& o.order_id == id
        &&& 1 <= o.amount
        &&& 0 <= o.amount_executed < o.amount
        &&& (o.order_limit is Some ==> 1 <= o.order_limit->0)
        &&& self.placed@.contains_key(id)
        &&& self.placed@[id] == (Placed {
            is_buy: o.is_buy_order,
            limit: match o.order_limit {
                Some(p) => Some(p as int),
                None => None,
            },
            amount: o.amount as int,
        })
        &&& exec_total(self.executions@, id) == o.amount_executed
    }

    /// A live order sits in exactly the queue its side and kind dictate.
    pub open spec fn order_queued(self, id: int) -> bool {
        let o = self.ord(id);
        match o.order_limit {
            Some(p) => self.ladder(o.is_buy_order).queue_at(p as int).contains(o.order_id),
            None => self.at_market(o.is_buy_order).contains(o.order_id),
        }
    }

    /// Everyone a ladder queue names is live, on that side, resting at
    /// that price; and the queue lists ids in arrival order (ids are
    /// assigned monotonically, so arrival order is id order).
    pub open spec fn ladder_queues_ok(self, is_buy: bool) -> bool {
        let l = self.ladder(is_buy);
        &&& forall|p: int, k: int|
            0 <= k < l.queue_at(p).len() ==> {
                let id = #[trigger] l.queue_at(p)[k];
                &&& self.live(id as int)
                &&& self.ord(id as int).is_buy_order == is_buy
                &&& self.ord(id as int).order_limit == Some(p as i64)
                &&& p == p as i64 as int
            }
        &&& forall|p: int, k1: int, k2: int|
            0 <= k1 < k2 < l.queue_at(p).len() ==> #[trigger] l.queue_at(p)[k1]
                < #[trigger] l.queue_at(p)[k2]
    }

    /// The same for an at-market queue.
    pub open spec fn at_market_ok(self, is_buy: bool) -> bool {
        let q = self.at_market(is_buy);
        &&& forall|k: int|
            0 <= k < q.len() ==> {
                let id = #[trigger] q[k];
                &&& self.live(id as int)
                &&& self.ord(id as int).is_buy_order == is_buy
                &&& self.ord(id as int).order_limit is None
            }
        &&& forall|k1: int, k2: int| 0 <= k1 < k2 < q.len() ==> #[trigger] q[k1] < #[trigger] q[k2]
    }

    /// Every execution record names a real buyer and a real seller, a
    /// positive price and a positive quantity.
    pub open spec fn log_ok(self) -> bool {
        forall|k: int|
            0 <= k < self.executions@.len() ==> {
                let e = #[trigger] self.executions@[k];
                &&& 1 <= e.quantity
                &&& 1 <= e.price
                &&& e.buying_order_id != e.selling_order_id
                &&& self.placed@.contains_key(e.buying_order_id as int)
                &&& self.placed@[e.buying_order_id as int].is_buy
                &&& self.placed@.contains_key(e.selling_order_id as int)
                &&& !self.placed@[e.selling_order_id as int].is_buy
            }
    }

    /// Conservation: no id ever trades more than the quantity it was
    /// admitted with, whether it still rests or is long gone.
    pub open spec fn conservation_ok(self) -> bool {
        forall|id: int| #[trigger]
            self.placed@.contains_key(id) ==> exec_total(self.executions@, id)
                <= self.placed@[id].amount && self.placed@[id].amount >= 1
    }

    /// The book's whole invariant. Every public operation preserves it.
    pub open spec fn wf(self) -> bool {
        &&& self.buy_ladder.wf() && self.buy_ladder.is_buy
        &&& self.sell_ladder.wf() && !self.sell_ladder.is_buy
        &&& 1 <= self.current_market_price
        &&& forall|id: int| #[trigger] self.placed@.contains_key(id) <==> 0 <= id < self.next_id()
        &&& forall|id: int| #[trigger] self.live(id) ==> self.order_ok(id) && self.order_queued(id)
        &&& self.ladder_queues_ok(true)
        &&& self.ladder_queues_ok(false)
        &&& self.at_market_ok(true)
        &&& self.at_market_ok(false)
        &&& self.log_ok()
        &&& self.conservation_ok()
    }

    /// A fresh book for one instrument: empty ladders, queues, registry
    /// and log; the market price starts at `starting_price`.
    pub fn new(security: &'a Security, starting_price: i64) -> (r: Orderbook<'a>)
        requires
            1 <= starting_price,
        ensures
            r.wf(),
            r.security == security,
            r.next_id() == 0,
            r.current_market_price == starting_price,
            r.starting_price == starting_price,
            r.executions@.len() == 0,
            r.buy_ladder.spec_is_empty(),
            r.sell_ladder.spec_is_empty(),
            r.at_market(true).len() == 0,
            r.at_market(false).len() == 0,
            forall|id: int| !r.live(id),
    {
        let r = Orderbook {
            security,
            starting_price,
            current_market_price: starting_price,
            orders: Vec::new(),
            buy_at_market_orders: Vec::new(),
            sell_at_market_orders: Vec::new(),
            buy_ladder: Ladder::new(true),
            sell_ladder: Ladder::new(false),
            executions: Vec::new(),
            placed: Ghost(Map::empty()),
        };
        r
    }

    /// The best (highest) resting bid price, if any bid rests.
    pub fn best_bid(&self) -> (r: Option<i64>)
        requires
            self.wf(),
        ensures
            self.buy_ladder.spec_is_empty() ==> r is None,
            !self.buy_ladder.spec_is_empty() ==> r == Some(self.buy_ladder.best),
    {
        self.buy_ladder.best_price()
    }

    /// The worst (lowest) resting bid price, if any bid rests.
    pub fn worst_bid(&self) -> (r: Option<i64>)
        requires
            self.wf(),
        ensures
            self.buy_ladder.spec_is_empty() ==> r is None,
            !self.buy_ladder.spec_is_empty() ==> r == Some(self.buy_ladder.worst() as i64),
    {
        self.buy_ladder.worst_price()
    }

    /// The best (lowest) resting ask price, if any ask rests.
    pub fn best_ask(&self) -> (r: Option<i64>)
        requires
            self.wf(),
        ensures
            self.sell_ladder.spec_is_empty() ==> r is None,
            !self.sell_ladder.spec_is_empty() ==> r == Some(self.sell_ladder.best),
    {
        self.sell_ladder.best_price()
    }

    /// The worst (highest) resting ask price, if any ask rests.
    pub fn worst_ask(&self) -> (r: Option<i64>)
        requires
            self.wf(),
        ensures
            self.sell_ladder.spec_is_empty() ==> r is None,
            !self.sell_ladder.spec_is_empty() ==> r == Some(self.sell_ladder.worst() as i64),
    {
        self.sell_ladder.worst_price()
    }

    pub fn market_price(&self) -> (r: i64)
        ensures
            r == self.current_market_price,
    {
        self.current_market_price
    }

    /// The audit trail so far, in match order.
    pub fn execution_log(&self) -> (r: &Vec<Execution>)
        ensures
            r == &self.executions,
    {
        &self.executions
    }

    /// Look an order up in the registry by id.
    pub fn get_order(&self, order_id: i64) -> (r: Option<&Order>)
        requires
            self.wf(),
        ensures
            self.live(order_id as int) ==> r is Some && *r->0 == self.ord(order_id as int),
            !self.live(order_id as int) ==> r is None,
    {
        if order_id < 0 {
            return None;
        }
        if order_id as u64 >= self.orders.len() as u64 {
            return None;
        }
        let i = order_id as usize;
        match &self.orders[i] {
            Some(o) => Some(o),
            None => None,
        }
    }
}

} // verus!
