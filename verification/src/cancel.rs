//! Cancellation: remove one resting order from its queue and from the
//! registry, letting the ladder bounds advance past any level this
//! empties. Cancellation never triggers matching: removing liquidity
//! cannot create a crossing.

use vstd::prelude::*;
use crate::book::Orderbook;
use crate::order::{Order, OrderbookError};

verus! {

/// Remove the one occurrence of `id` from a FIFO of distinct ids.
pub(crate) fn remove_value_vec(v: &mut Vec<i64>, id: i64)
    requires
        old(v)@.contains(id),
        forall|k1: int, k2: int| 0 <= k1 < k2 < old(v)@.len() ==> old(v)@[k1] != old(v)@[k2],
    ensures
        final(v)@ == old(v)@.remove_value(id),
{
    let ghost pre = v@;
    let n: usize = v.len();
    let mut j: usize = 0;
    while j < n && v[j] != id
        invariant
            v@ == pre,
            n == pre.len(),
            0 <= j <= n,
            forall|k: int| 0 <= k < j ==> pre[k] != id,
            pre.contains(id),
        decreases n - j,
    {
        j = j + 1;
    }
    proof {
        if j == n {
            let w = choose|w: int| 0 <= w < pre.len() && pre[w] == id;
            assert(false);
        }
    }
    v.remove(j);
    proof {
        assert(pre.index_of_first(id) == Some(j as int)) by {
            pre.index_of_first_ensures(id);
            if let Some(w) = pre.index_of_first(id) {
                assert(!(w < j) && !(j < w));
            }
        }
        assert(v@ == pre.remove(j as int));
    }
}

impl<'a> Orderbook<'a> {
    /// How cancellation rewrites the queues for the removed order `o`:
    /// its own queue loses exactly `o`'s id, every other queue on both
    /// sides is untouched.
    pub open spec fn cancelled_queues(self, post: Orderbook<'a>, o: Order) -> bool {
        match o.order_limit {
            None => {
                &&& post.at_market(o.is_buy_order) == self.at_market(o.is_buy_order).remove_value(
                    o.order_id,
                )
                &&& post.at_market(!o.is_buy_order) == self.at_market(!o.is_buy_order)
                &&& post.buy_ladder == self.buy_ladder
                &&& post.sell_ladder == self.sell_ladder
            },
            Some(p) => {
                &&& post.at_market(true) == self.at_market(true)
                &&& post.at_market(false) == self.at_market(false)
                &&& post.ladder(!o.is_buy_order) == self.ladder(!o.is_buy_order)
                &&& post.ladder(o.is_buy_order).wf()
                &&& post.ladder(o.is_buy_order).is_buy == o.is_buy_order
                &&& post.ladder(o.is_buy_order).queue_at(p as int) == self.ladder(
                    o.is_buy_order,
                ).queue_at(p as int).remove_value(o.order_id)
                &&& forall|q: int|
                    q != p ==> post.ladder(o.is_buy_order).queue_at(q) == self.ladder(
                        o.is_buy_order,
                    ).queue_at(q)
            },
        }
    }

    /// Cancel the resting order with the given id. `OrderNotFound` is
    /// returned, and nothing changes, exactly when no such order rests —
    /// whether the id was never assigned, was filled away, or was
    /// already cancelled. On success the order leaves its queue and the
    /// registry, and nothing else moves.
    pub fn cancel_order(&mut self, order_id: i64) -> (r: Result<(), OrderbookError>)
        requires
            old(self).wf(),
        ensures
            final(self).wf(),
            r is Err <==> !old(self).live(order_id as int),
            r is Err ==> r->Err_0 == OrderbookError::OrderNotFound && *final(self) == *old(self),
            r is Ok ==> {
                &&& final(self).orders@ == old(self).orders@.update(order_id as int, None)
                &&& !final(self).live(order_id as int)
                &&& final(self).placed@ == old(self).placed@
                &&& old(self).insert_frame(*final(self))
                &&& old(self).cancelled_queues(*final(self), old(self).ord(order_id as int))
            },
    {
        let ghost pre: Orderbook<'a> = *self;
        if order_id < 0 {
            return Err(OrderbookError::OrderNotFound);
        }
        if order_id as u64 >= self.orders.len() as u64 {
            return Err(OrderbookError::OrderNotFound);
        }
        let i = order_id as usize;
        let o: Order = match &self.orders[i] {
            Some(o) => *o,
            None => {
                return Err(OrderbookError::OrderNotFound);
            },
        };
        proof {
            assert(pre.live(order_id as int));
            assert(pre.order_queued(order_id as int));
        }
        match o.order_limit {
            Some(p) => {
                if o.is_buy_order {
                    proof {
                        assert(pre.buy_ladder.queue_at(p as int).contains(order_id));
                        assert(pre.buy_ladder.in_range(p as int));
                    }
                    self.buy_ladder.remove_id(order_id, p);
                } else {
                    proof {
                        assert(pre.sell_ladder.queue_at(p as int).contains(order_id));
                        assert(pre.sell_ladder.in_range(p as int));
                    }
                    self.sell_ladder.remove_id(order_id, p);
                }
            },
            None => {
                if o.is_buy_order {
                    remove_value_vec(&mut self.buy_at_market_orders, order_id);
                } else {
                    remove_value_vec(&mut self.sell_at_market_orders, order_id);
                }
            },
        }
        self.orders[i] = None;
        proof {
            self.lemma_cancel_wf(pre, order_id);
        }
        Ok(())
    }

    /// Removing one resting order preserves the book invariant.
    pub(crate) proof fn lemma_cancel_wf(self, pre: Orderbook<'a>, id: i64)
        requires
            pre.wf(),
            pre.live(id as int),
            self.orders@ == pre.orders@.update(id as int, None),
            self.placed@ == pre.placed@,
            pre.insert_frame(self),
            pre.cancelled_queues(self, pre.ord(id as int)),
            self.buy_ladder.wf() && self.buy_ladder.is_buy,
            self.sell_ladder.wf() && !self.sell_ladder.is_buy,
        ensures
            self.wf(),
    {
        let o = pre.ord(id as int);
        assert forall|jd: int| #[trigger] self.live(jd) implies self.order_ok(jd)
            && self.order_queued(jd) by {
            assert(jd != id);
            assert(pre.live(jd));
            assert(pre.order_ok(jd));
            assert(self.ord(jd) == pre.ord(jd));
            let po = pre.ord(jd);
            match po.order_limit {
                Some(p) => {
                    let q0 = pre.ladder(po.is_buy_order).queue_at(p as int);
                    let q1 = self.ladder(po.is_buy_order).queue_at(p as int);
                    if o.order_limit is Some && po.is_buy_order == o.is_buy_order && p as int
                        == o.order_limit->0 as int {
                        assert(q1 == q0.remove_value(id));
                        Self::lemma_remove_value_keeps(q0, id, po.order_id);
                    } else {
                        assert(q1 == q0);
                        assert(q1.contains(po.order_id));
                    }
                },
                None => {
                    let q0 = pre.at_market(po.is_buy_order);
                    let q1 = self.at_market(po.is_buy_order);
                    if o.order_limit is None && po.is_buy_order == o.is_buy_order {
                        assert(q1 == q0.remove_value(id));
                        Self::lemma_remove_value_keeps(q0, id, po.order_id);
                    } else {
                        assert(q1 == q0);
                        assert(q1.contains(po.order_id));
                    }
                },
            }
        }
        self.lemma_cancel_side(pre, id, true);
        self.lemma_cancel_side(pre, id, false);
    }

    /// In a duplicate-free queue, removing `id` keeps every other member.
    proof fn lemma_remove_value_keeps(q: Seq<i64>, id: i64, other: i64)
        requires
            forall|k1: int, k2: int| 0 <= k1 < k2 < q.len() ==> q[k1] != q[k2],
            q.contains(other),
            other != id,
        ensures
            q.remove_value(id).contains(other),
    {
        q.index_of_first_ensures(id);
        match q.index_of_first(id) {
            Some(j) => {
                q.remove_ensures(j);
                let w = choose|w: int| 0 <= w < q.len() && q[w] == other;
                if w < j {
                    assert(q.remove(j)[w] == other);
                } else {
                    assert(q.remove(j)[w - 1] == other);
                }
                assert(q.remove_value(id).contains(other));
            },
            None => {
            },
        }
    }

    /// One side's queue invariants survive the removal.
    proof fn lemma_cancel_side(self, pre: Orderbook<'a>, id: i64, side: bool)
        requires
            pre.wf(),
            pre.live(id as int),
            self.orders@ == pre.orders@.update(id as int, None),
            pre.cancelled_queues(self, pre.ord(id as int)),
        ensures
            self.ladder_queues_ok(side),
            self.at_market_ok(side),
    {
        let o = pre.ord(id as int);
        let l0 = pre.ladder(side);
        let l1 = self.ladder(side);
        assert forall|p: int, k: int| #![trigger l1.queue_at(p)[k]]
            0 <= k < l1.queue_at(p).len() implies {
            let jd = l1.queue_at(p)[k];
            &&& self.live(jd as int)
            &&& self.ord(jd as int).is_buy_order == side
            &&& self.ord(jd as int).order_limit == Some(p as i64)
            &&& p == p as i64 as int
        } by {
            let jd = l1.queue_at(p)[k];
            let q0 = l0.queue_at(p);
            let q1 = l1.queue_at(p);
            if o.order_limit is Some && side == o.is_buy_order && p == o.order_limit->0 as int {
                assert(q1 == q0.remove_value(id));
                assert(q0.contains(id));
                q0.index_of_first_ensures(id);
                let j = q0.index_of_first(id)->0;
                q0.remove_ensures(j);
                if k < j {
                    assert(q1[k] == q0[k]);
                } else {
                    assert(q1[k] == q0[k + 1]);
                }
                assert(jd != id);
                assert(pre.live(jd as int));
            } else {
                assert(q1 == q0);
                assert(q0[k] == jd);
                assert(pre.live(jd as int));
                if jd == id {
                    assert(pre.ord(id as int).is_buy_order == side);
                    assert(pre.ord(id as int).order_limit == Some(p as i64));
                    assert(false);
                }
            }
        }
        assert forall|p: int, k1: int, k2: int|
            0 <= k1 < k2 < l1.queue_at(p).len() implies l1.queue_at(p)[k1] < l1.queue_at(
            p,
        )[k2] by {
            let q0 = l0.queue_at(p);
            let q1 = l1.queue_at(p);
            if o.order_limit is Some && side == o.is_buy_order && p == o.order_limit->0 as int {
                assert(q0.contains(id));
                q0.index_of_first_ensures(id);
                let j = q0.index_of_first(id)->0;
                q0.remove_ensures(j);
                assert(q1 == q0.remove(j));
                if k2 < j {
                } else if k1 < j {
                    assert(q1[k1] == q0[k1] && q1[k2] == q0[k2 + 1]);
                } else {
                    assert(q1[k1] == q0[k1 + 1] && q1[k2] == q0[k2 + 1]);
                }
            } else {
                assert(q1 == q0);
            }
        }
        let q0 = pre.at_market(side);
        let q1 = self.at_market(side);
        assert forall|k: int| #![trigger q1[k]] 0 <= k < q1.len() implies {
            let jd = q1[k];
            &&& self.live(jd as int)
            &&& self.ord(jd as int).is_buy_order == side
            &&& self.ord(jd as int).order_limit is None
        } by {
            let jd = q1[k];
            if o.order_limit is None && side == o.is_buy_order {
                assert(q1 == q0.remove_value(id));
                assert(q0.contains(id));
                q0.index_of_first_ensures(id);
                let j = q0.index_of_first(id)->0;
                q0.remove_ensures(j);
                if k < j {
                    assert(q1[k] == q0[k]);
                } else {
                    assert(q1[k] == q0[k + 1]);
                }
                assert(jd != id);
                assert(pre.live(jd as int));
            } else {
                assert(q1 == q0);
                assert(q0[k] == jd);
                if jd == id {
                    assert(pre.ord(id as int).is_buy_order == side);
                    assert(pre.ord(id as int).order_limit is None);
                    assert(false);
                }
            }
        }
        assert forall|k1: int, k2: int| 0 <= k1 < k2 < q1.len() implies q1[k1] < q1[k2] by {
            if o.order_limit is None && side == o.is_buy_order {
                assert(q0.contains(id));
                q0.index_of_first_ensures(id);
                let j = q0.index_of_first(id)->0;
                q0.remove_ensures(j);
                assert(q1 == q0.remove(j));
                if k2 < j {
                } else if k1 < j {
                    assert(q1[k1] == q0[k1] && q1[k2] == q0[k2 + 1]);
                } else {
                    assert(q1[k1] == q0[k1 + 1] && q1[k2] == q0[k2 + 1]);
                }
            } else {
                assert(q1 == q0);
            }
        }
    }
}

} // verus!
