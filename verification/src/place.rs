//! Placement: validate and admit an order, then act on its matching
//! signal. Only a signal that can cross (a market order or a new best
//! limit) triggers an execution round; a new worst or interior limit
//! order cannot cross anything and simply rests.

use vstd::prelude::*;
use crate::book::{Orderbook, Placed};
use crate::order::{MatchingSignal, Order, OrderbookError};
use crate::matching::lim_int;

verus! {

impl<'a> Orderbook<'a> {
    /// Everything a successful insertion did: `mid` is `self` with `o`
    /// admitted under the fresh id `id` and enqueued where it belongs.
    pub open spec fn admitted(self, mid: Orderbook<'a>, o: Order, id: i64) -> bool {
        &&& mid.wf()
        &&& id as int == self.next_id()
        &&& mid.orders@ == self.orders@.push(Some(Order { order_id: id, ..o }))
        &&& mid.placed@ == self.placed@.insert(
            id as int,
            Placed {
                is_buy: o.is_buy_order,
                limit: lim_int(o.order_limit),
                amount: o.amount as int,
            },
        )
        &&& self.insert_frame(mid)
        &&& self.inserted_queues(mid, o.is_buy_order, o.order_limit, id)
        &&& mid.live(id as int)
        &&& mid.ord(id as int) == Order { order_id: id, ..o }
    }

    /// What a successful placement guarantees: the order was admitted
    /// under id `id` into `self` (giving some intermediate book), and the
    /// execution round then ran exactly when the signal could cross.
    pub open spec fn place_post(self, post: Orderbook<'a>, o: Order, id: i64) -> bool {
        &&& id as int == self.next_id()
        &&& post.next_id() == self.next_id() + 1
        &&& post.placed@ == self.placed@.insert(
            id as int,
            Placed {
                is_buy: o.is_buy_order,
                limit: lim_int(o.order_limit),
                amount: o.amount as int,
            },
        )
        &&& post.security == self.security
        &&& exists|mid: Orderbook<'a>|
            {
                &&& #[trigger] self.admitted(mid, o, id)
                &&& if self.signal_of(o.is_buy_order, lim_int(o.order_limit))
                    == MatchingSignal::NoOperation {
                    post == mid
                } else {
                    mid.round_post(post, id, o.is_buy_order, o.order_limit, o.amount as int)
                }
            }
    }

    /// Place one order. A rejected request (and exactly the requests
    /// `rejection` names are rejected) changes nothing. An accepted
    /// order is admitted under the next id, which is returned even if
    /// the order is immediately matched away in full; the execution
    /// round runs exactly for the signals that can cross.
    #[verifier::rlimit(100)]
    pub fn place_order(&mut self, order: Order) -> (r: Result<i64, OrderbookError>)
        requires
            old(self).wf(),
            old(self).next_id() < i64::MAX,
            order.amount_executed == 0,
        ensures
            final(self).wf(),
            r is Err <==> old(self).rejection(order) is Some,
            r is Err ==> r->Err_0 == old(self).rejection(order)->0 && *final(self) == *old(self),
            r is Ok ==> old(self).place_post(*final(self), order, r->Ok_0),
    {
        let ghost order0: Order = order;
        let mut order = order;
        match self.insert_order(&mut order) {
            Ok((order_id, matching_signal)) => {
                let ghost mid: Orderbook<'a> = *self;
                proof {
                    assert(old(self).admitted(mid, order0, order_id));
                }
                match matching_signal {
                    MatchingSignal::BuyAtMarket => {
                        self.match_against_sell_side_at_market(&order);
                    },
                    MatchingSignal::SellAtMarket => {
                        self.match_against_buy_side_at_market(&order);
                    },
                    MatchingSignal::NewHighestBid => {
                        self.match_against_sell_side(&order);
                    },
                    MatchingSignal::NewLowestAsk => {
                        self.match_against_buy_side(&order);
                    },
                    MatchingSignal::NoOperation => {},
                }
                proof {
                    assert(old(self).admitted(mid, order0, order_id));
                    if matching_signal == MatchingSignal::NoOperation {
                        assert(*self == mid);
                    } else {
                        assert(mid.round_post(
                            *self,
                            order_id,
                            order0.is_buy_order,
                            order0.order_limit,
                            order0.amount as int,
                        ));
                    }
                    assert(old(self).place_post(*self, order0, order_id));
                }
                Ok(order_id)
            },
            Err(error) => Err(error),
        }
    }
}

} // verus!
