//! Insertion: validation, id assignment, the price-collar guard, and the
//! classification of each admitted order into a matching signal.

use vstd::prelude::*;
use crate::book::{Orderbook, Placed};
use crate::order::{MatchingSignal, Order, OrderbookError, exec_total};

verus! {

/// The price collar: a new worst resting bid must not fall below ten
/// twelfths of the market price (about a sixth below it), and a new
/// worst resting ask must not rise above twelve tenths of it (a fifth
/// above it) — the ratio 10:12, applied directly on the bid side and
/// inverted on the ask side.
pub open spec fn collar_rejects(mkt: int, is_buy: bool, p: int) -> bool {
    if is_buy {
        12 * p < 10 * mkt
    } else {
        10 * p > 12 * mkt
    }
}

impl<'a> Orderbook<'a> {
    /// Whether admitting a limit order at `p` on this side would extend
    /// the ladder at its worst end (the only case the collar guards).
    pub open spec fn extends_worst(self, is_buy: bool, p: int) -> bool {
        &&& !self.ladder(is_buy).spec_is_empty()
        &&& self.ladder(is_buy).strictly_better(self.ladder(is_buy).worst(), p)
    }

    /// Exactly when `place_order` rejects, and with which error.
    pub open spec fn rejection(self, o: Order) -> Option<OrderbookError> {
        if o.amount <= 0 {
            Some(OrderbookError::InvalidQuantity)
        } else if o.order_limit is Some && o.order_limit->0 <= 0 {
            Some(OrderbookError::InvalidPrice)
        } else if o.order_limit is Some && self.extends_worst(o.is_buy_order, o.order_limit->0 as int)
            && collar_rejects(self.current_market_price as int, o.is_buy_order, o.order_limit->0 as int) {
            Some(OrderbookError::PriceOutOfBand)
        } else {
            None
        }
    }

    /// The matching signal an admitted order is classified into: market
    /// orders by side; a limit order at or above (buy) / at or below
    /// (sell) the current best is a new best; anything else cannot cross.
    pub open spec fn signal_of(self, is_buy: bool, limit: Option<int>) -> MatchingSignal {
        match limit {
            None => if is_buy {
                MatchingSignal::BuyAtMarket
            } else {
                MatchingSignal::SellAtMarket
            },
            Some(p) => {
                let l = self.ladder(is_buy);
                if l.spec_is_empty() || l.strictly_better(p, l.best as int) || p == l.best as int {
                    if is_buy {
                        MatchingSignal::NewHighestBid
                    } else {
                        MatchingSignal::NewLowestAsk
                    }
                } else {
                    MatchingSignal::NoOperation
                }
            },
        }
    }

    /// Everything insertion leaves alone, stated once.
    pub open spec fn insert_frame(self, post: Orderbook<'a>) -> bool {
        &&& post.security == self.security
        &&& post.starting_price == self.starting_price
        &&& post.current_market_price == self.current_market_price
        &&& post.executions@ == self.executions@
    }

    /// How insertion rewrites the queues for an admitted order `o` with
    /// assigned id `id`: its own queue gains `id` at the back, every
    /// other queue on both sides is untouched.
    pub open spec fn inserted_queues(self, post: Orderbook<'a>, is_buy: bool, limit: Option<i64>, id: i64) -> bool {
        match limit {
            None => {
                &&& post.at_market(is_buy) == self.at_market(is_buy).push(id)
                &&& post.at_market(!is_buy) == self.at_market(!is_buy)
                &&& post.buy_ladder == self.buy_ladder
                &&& post.sell_ladder == self.sell_ladder
            },
            Some(p) => {
                &&& post.at_market(true) == self.at_market(true)
                &&& post.at_market(false) == self.at_market(false)
                &&& post.ladder(!is_buy) == self.ladder(!is_buy)
                &&& post.ladder(is_buy).is_buy == is_buy
                &&& post.ladder(is_buy).queue_at(p as int) == self.ladder(is_buy).queue_at(
                    p as int,
                ).push(id)
                &&& forall|q: int|
                    q != p ==> post.ladder(is_buy).queue_at(q) == self.ladder(is_buy).queue_at(q)
                &&& !post.ladder(is_buy).spec_is_empty()
                &&& post.ladder(is_buy).best as int == if self.ladder(is_buy).spec_is_empty()
                    || self.ladder(is_buy).strictly_better(p as int, self.ladder(is_buy).best as int) {
                    p as int
                } else {
                    self.ladder(is_buy).best as int
                }
                &&& post.ladder(is_buy).worst() == if self.ladder(is_buy).spec_is_empty()
                    || self.ladder(is_buy).strictly_better(self.ladder(is_buy).worst(), p as int) {
                    p as int
                } else {
                    self.ladder(is_buy).worst()
                }
            },
        }
    }

    /// Validate, admit and classify one order: assign it the next id,
    /// record it in the registry, enqueue it where its side, kind and
    /// price dictate, and name the signal the caller must act on. No
    /// mutation happens on a rejected request.
    pub(crate) fn insert_order(&mut self, order: &mut Order) -> (r: Result<(i64, MatchingSignal), OrderbookError>)
        requires
            old(self).wf(),
            old(self).next_id() < i64::MAX,
            old(order).amount_executed == 0,
        ensures
            final(self).wf(),
            r is Err <==> old(self).rejection(*old(order)) is Some,
            r is Err ==> r->Err_0 == old(self).rejection(*old(order))->0 && *final(self) == *old(
                self,
            ) && *final(order) == *old(order),
            r is Ok ==> {
                let id = r->Ok_0.0;
                &&& id == old(self).next_id()
                &&& r->Ok_0.1 == old(self).signal_of(
                    old(order).is_buy_order,
                    match old(order).order_limit {
                        Some(p) => Some(p as int),
                        None => None,
                    },
                )
                &&& *final(order) == Order { order_id: id, ..*old(order) }
                &&& final(self).orders@ == old(self).orders@.push(Some(*final(order)))
                &&& final(self).placed@ == old(self).placed@.insert(
                    id as int,
                    Placed {
                        is_buy: old(order).is_buy_order,
                        limit: match old(order).order_limit {
                            Some(p) => Some(p as int),
                            None => None,
                        },
                        amount: old(order).amount as int,
                    },
                )
                &&& old(self).insert_frame(*final(self))
                &&& old(self).inserted_queues(
                    *final(self),
                    old(order).is_buy_order,
                    old(order).order_limit,
                    id,
                )
                &&& final(self).live(id as int)
                &&& final(self).ord(id as int) == *final(order)
            },
    {
        let ghost pre: Orderbook<'a> = *self;
        if order.amount <= 0 {
            return Err(OrderbookError::InvalidQuantity);
        }
        let is_buy = order.is_buy_order;
        if let Some(limit) = order.order_limit {
            if limit <= 0 {
                return Err(OrderbookError::InvalidPrice);
            }
            // The collar is checked before any mutation, so a rejected
            // request leaves the book exactly as it was.
            let extends = if is_buy {
                !self.buy_ladder.is_empty() && {
                    let w = self.buy_ladder.worst_price();
                    match w {
                        Some(wp) => limit < wp,
                        None => false,
                    }
                }
            } else {
                !self.sell_ladder.is_empty() && {
                    let w = self.sell_ladder.worst_price();
                    match w {
                        Some(wp) => limit > wp,
                        None => false,
                    }
                }
            };
            if extends {
                let mkt = self.current_market_price;
                let reject = if is_buy {
                    (limit as i128) * 12 < (mkt as i128) * 10
                } else {
                    (limit as i128) * 10 > (mkt as i128) * 12
                };
                if reject {
                    return Err(OrderbookError::PriceOutOfBand);
                }
            }
        }
        let new_order_id: i64 = self.orders.len() as i64;
        order.order_id = new_order_id;
        self.orders.push(Some(*order));
        proof {
            self.placed@ = self.placed@.insert(
                new_order_id as int,
                Placed {
                    is_buy: order.is_buy_order,
                    limit: match order.order_limit {
                        Some(p) => Some(p as int),
                        None => None,
                    },
                    amount: order.amount as int,
                },
            );
        }
        let signal: MatchingSignal;
        match order.order_limit {
            None => {
                if is_buy {
                    self.buy_at_market_orders.push(new_order_id);
                    signal = MatchingSignal::BuyAtMarket;
                } else {
                    self.sell_at_market_orders.push(new_order_id);
                    signal = MatchingSignal::SellAtMarket;
                }
            },
            Some(limit) => {
                if is_buy {
                    if self.buy_ladder.is_empty() || limit > self.buy_ladder.best {
                        self.buy_ladder.insert_new_best(new_order_id, limit);
                        signal = MatchingSignal::NewHighestBid;
                    } else if limit < self.buy_ladder.best - (self.buy_ladder.levels.len() as i64
                        - 1) {
                        self.buy_ladder.insert_new_worst(new_order_id, limit);
                        signal = MatchingSignal::NoOperation;
                    } else {
                        self.buy_ladder.insert_within(new_order_id, limit);
                        signal = if limit == self.buy_ladder.best {
                            MatchingSignal::NewHighestBid
                        } else {
                            MatchingSignal::NoOperation
                        };
                    }
                } else {
                    if self.sell_ladder.is_empty() || limit < self.sell_ladder.best {
                        self.sell_ladder.insert_new_best(new_order_id, limit);
                        signal = MatchingSignal::NewLowestAsk;
                    } else if limit > self.sell_ladder.best + (self.sell_ladder.levels.len() as i64
                        - 1) {
                        self.sell_ladder.insert_new_worst(new_order_id, limit);
                        signal = MatchingSignal::NoOperation;
                    } else {
                        self.sell_ladder.insert_within(new_order_id, limit);
                        signal = if limit == self.sell_ladder.best {
                            MatchingSignal::NewLowestAsk
                        } else {
                            MatchingSignal::NoOperation
                        };
                    }
                }
                proof {
                    let l0 = pre.ladder(is_buy);
                    let l1 = self.ladder(is_buy);
                    if l0.spec_is_empty() || l0.strictly_better(limit as int, l0.best as int)
                        || l0.strictly_better(l0.worst(), limit as int) {
                        assert(l1.queue_at(limit as int) == l0.queue_at(limit as int).push(
                            new_order_id,
                        )) by {
                            assert(l0.queue_at(limit as int) =~= Seq::<i64>::empty());
                            assert(l1.queue_at(limit as int) =~= l0.queue_at(limit as int).push(
                                new_order_id,
                            ));
                        }
                    }
                }
            },
        }
        proof {
            self.lemma_insert_wf(pre, *order, new_order_id);
        }
        Ok((new_order_id, signal))
    }

    /// Admitting one order preserves the book invariant: the new id is
    /// fresh, greater than every resting id, and lands at the back of
    /// exactly one queue.
    proof fn lemma_insert_wf(self, pre: Orderbook<'a>, o: Order, id: i64)
        requires
            pre.wf(),
            pre.next_id() < i64::MAX,
            id == pre.next_id(),
            o.order_id == id,
            1 <= o.amount,
            o.amount_executed == 0,
            o.order_limit is Some ==> 1 <= o.order_limit->0,
            self.orders@ == pre.orders@.push(Some(o)),
            self.placed@ == pre.placed@.insert(
                id as int,
                Placed {
                    is_buy: o.is_buy_order,
                    limit: match o.order_limit {
                        Some(p) => Some(p as int),
                        None => None,
                    },
                    amount: o.amount as int,
                },
            ),
            pre.insert_frame(self),
            pre.inserted_queues(self, o.is_buy_order, o.order_limit, id),
            self.buy_ladder.wf() && self.buy_ladder.is_buy,
            self.sell_ladder.wf() && !self.sell_ladder.is_buy,
        ensures
            self.wf(),
    {
        let log = self.executions@;
        assert(forall|k: int|
            0 <= k < log.len() ==> (#[trigger] log[k]).buying_order_id != id && log[k].selling_order_id
                != id) by {
            assert forall|k: int| 0 <= k < log.len() implies (#[trigger] log[k]).buying_order_id
                != id && log[k].selling_order_id != id by {
                assert(pre.placed@.contains_key(log[k].buying_order_id as int));
                assert(pre.placed@.contains_key(log[k].selling_order_id as int));
            }
        }
        crate::order::lemma_exec_total_absent(log, id as int);
        assert forall|jd: int| #[trigger] self.live(jd) implies self.order_ok(jd)
            && self.order_queued(jd) by {
            if jd == id {
                assert(self.ord(jd) == o);
                match o.order_limit {
                    Some(p) => {
                        let q1 = self.ladder(o.is_buy_order).queue_at(p as int);
                        assert(q1 == pre.ladder(o.is_buy_order).queue_at(p as int).push(id));
                        assert(q1[q1.len() - 1] == id);
                        assert(q1.contains(id));
                    },
                    None => {
                        let q1 = self.at_market(o.is_buy_order);
                        assert(q1[q1.len() - 1] == id);
                        assert(q1.contains(id));
                    },
                }
            } else {
                assert(pre.live(jd));
                assert(pre.order_ok(jd));
                assert(self.ord(jd) == pre.ord(jd));
                let po = pre.ord(jd);
                match po.order_limit {
                    Some(p) => {
                        let q0 = pre.ladder(po.is_buy_order).queue_at(p as int);
                        let q1 = self.ladder(po.is_buy_order).queue_at(p as int);
                        let w = choose|w: int| 0 <= w < q0.len() && q0[w] == po.order_id;
                        assert(q1[w] == po.order_id);
                        assert(q1.contains(po.order_id));
                    },
                    None => {
                        let q0 = pre.at_market(po.is_buy_order);
                        let q1 = self.at_market(po.is_buy_order);
                        let w = choose|w: int| 0 <= w < q0.len() && q0[w] == po.order_id;
                        assert(q1[w] == po.order_id);
                        assert(q1.contains(po.order_id));
                    },
                }
            }
        }
        self.lemma_insert_side(pre, o, id, true);
        self.lemma_insert_side(pre, o, id, false);
        assert(self.ladder_queues_ok(true) && self.ladder_queues_ok(false));
        assert(self.at_market_ok(true) && self.at_market_ok(false));
    }

    /// One side's queue invariants survive the insertion.
    proof fn lemma_insert_side(self, pre: Orderbook<'a>, o: Order, id: i64, side: bool)
        requires
            pre.wf(),
            pre.next_id() < i64::MAX,
            id == pre.next_id(),
            o.order_id == id,
            o.order_limit is Some ==> 1 <= o.order_limit->0,
            self.orders@ == pre.orders@.push(Some(o)),
            pre.inserted_queues(self, o.is_buy_order, o.order_limit, id),
        ensures
            self.ladder_queues_ok(side),
            self.at_market_ok(side),
    {
            let l0 = pre.ladder(side);
            let l1 = self.ladder(side);
            assert forall|p: int, k: int| #![trigger l1.queue_at(p)[k]]
                0 <= k < l1.queue_at(p).len() implies {
                let jd = l1.queue_at(p)[k];
                &&& self.live(jd as int)
                &&& self.ord(jd as int).is_buy_order == side
                &&& self.ord(jd as int).order_limit == Some(p as i64)
                &&& p == p as i64 as int
            } by {
                let jd = l1.queue_at(p)[k];
                if side == o.is_buy_order && o.order_limit is Some && p == o.order_limit->0 as int {
                    assert(l1.queue_at(p) == l0.queue_at(p).push(id));
                    if k == l1.queue_at(p).len() - 1 {
                        assert(jd == id);
                    } else {
                        assert(l0.queue_at(p)[k] == jd);
                        assert(pre.live(jd as int));
                    }
                } else {
                    assert(l1.queue_at(p) == l0.queue_at(p));
                    assert(l0.queue_at(p)[k] == jd);
                    assert(pre.live(jd as int));
                }
            }
            assert forall|p: int, k1: int, k2: int|
                0 <= k1 < k2 < l1.queue_at(p).len() implies l1.queue_at(p)[k1] < l1.queue_at(
                p,
            )[k2] by {
                if side == o.is_buy_order && o.order_limit is Some && p == o.order_limit->0 as int {
                    assert(l1.queue_at(p) == l0.queue_at(p).push(id));
                    if k2 == l1.queue_at(p).len() - 1 {
                        let jd = l0.queue_at(p)[k1];
                        assert(pre.live(jd as int));
                        assert(jd < id);
                    } else {
                        assert(l0.queue_at(p)[k1] == l1.queue_at(p)[k1]);
                        assert(l0.queue_at(p)[k2] == l1.queue_at(p)[k2]);
                    }
                } else {
                    assert(l1.queue_at(p) == l0.queue_at(p));
                }
            }
            let q0 = pre.at_market(side);
            let q1 = self.at_market(side);
            assert forall|k: int| #![trigger q1[k]] 0 <= k < q1.len() implies {
                let jd = q1[k];
                &&& self.live(jd as int)
                &&& self.ord(jd as int).is_buy_order == side
                &&& self.ord(jd as int).order_limit is None
            } by {
                if side == o.is_buy_order && o.order_limit is None && k == q1.len() - 1 {
                    assert(q1[k] == id);
                } else {
                    assert(q1[k] == q0[k]);
                    assert(pre.live(q0[k] as int));
                }
            }
            assert forall|k1: int, k2: int| 0 <= k1 < k2 < q1.len() implies q1[k1] < q1[k2] by {
                if side == o.is_buy_order && o.order_limit is None && k2 == q1.len() - 1 {
                    assert(q1[k1] == q0[k1]);
                    assert(pre.live(q0[k1] as int));
                } else {
                    assert(q1[k1] == q0[k1] && q1[k2] == q0[k2]);
                }
            }
    }
}

} // verus!
