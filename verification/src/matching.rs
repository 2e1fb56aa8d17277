//! The execution engine: after an insertion whose signal can cross, walk
//! the opposing side in price-time order, producing executions until the
//! incoming order is filled or no opposing liquidity qualifies. Resting
//! market orders on the opposing side are drained first (they accept any
//! price); then limit levels from the opposing best, each level strictly
//! FIFO. The execution price is the resting order's quote.

use vstd::prelude::*;
use vstd::pervasive::unreached;
use crate::book::Orderbook;
use crate::order::{Execution, Order, exec_total};

verus! {

pub open spec fn lim_int(limit: Option<i64>) -> Option<int> {
    match limit {
        Some(l) => Some(l as int),
        None => None,
    }
}

pub open spec fn min_int(a: int, b: int) -> int {
    if a < b {
        a
    } else {
        b
    }
}

/// `q1` is what is left of `q0` after consuming from the front.
pub open spec fn suffix_of(q0: Seq<i64>, q1: Seq<i64>) -> bool {
    q1.len() <= q0.len() && q1 == q0.skip(q0.len() - q1.len())
}

/// Every queue of `l1` is a suffix of the same-price queue of `l0`.
#[verifier::opaque]
pub open spec fn ladder_suffix(l0: crate::ladder::Ladder, l1: crate::ladder::Ladder) -> bool {
    forall|p: int| suffix_of(#[trigger] l0.queue_at(p), l1.queue_at(p))
}

pub proof fn lemma_suffix_refl(q: Seq<i64>)
    ensures
        suffix_of(q, q),
{
    assert(q =~= q.skip(0));
}

pub proof fn lemma_suffix_drop_first(q: Seq<i64>)
    requires
        q.len() > 0,
    ensures
        suffix_of(q, q.drop_first()),
{
    assert(q.drop_first() =~= q.skip(1));
}

pub proof fn lemma_suffix_trans(a: Seq<i64>, b: Seq<i64>, c: Seq<i64>)
    requires
        suffix_of(a, b),
        suffix_of(b, c),
    ensures
        suffix_of(a, c),
{
    assert(c =~= a.skip(a.len() - c.len()));
}

pub proof fn lemma_ladder_suffix_trans(
    a: crate::ladder::Ladder,
    b: crate::ladder::Ladder,
    c: crate::ladder::Ladder,
)
    requires
        ladder_suffix(a, b),
        ladder_suffix(b, c),
    ensures
        ladder_suffix(a, c),
{
    reveal(ladder_suffix);
    assert forall|p: int| suffix_of(#[trigger] a.queue_at(p), c.queue_at(p)) by {
        lemma_suffix_trans(a.queue_at(p), b.queue_at(p), c.queue_at(p));
    }
}

/// The opposing-side queue at price `p`, as seen by an incoming order
/// of side `is_buy`.
pub open spec fn opp_queue(b: Orderbook, is_buy: bool, p: int) -> Seq<i64> {
    b.ladder(!is_buy).queue_at(p)
}

/// Price priority across one round: relative to the round's start `b0`,
/// a book `b1` has consumed a limit level only if every opposing market
/// order is gone and every strictly better level is empty.
#[verifier::opaque]
pub open spec fn only_best_consumed(b0: Orderbook, b1: Orderbook, is_buy: bool) -> bool {
    forall|p: int|
        #[trigger] opp_queue(b1, is_buy, p) != opp_queue(b0, is_buy, p) ==> {
            &&& b1.at_market(!is_buy).len() == 0
            &&& forall|p1: int|
                b0.ladder(!is_buy).strictly_better(p1, p) ==> (#[trigger] opp_queue(
                    b1,
                    is_buy,
                    p1,
                )).len() == 0
        }
}

/// One pairing keeps the price-priority discipline: a pairing touches
/// the opposing ladder only at its current best level, and only when the
/// opposing at-market queue is already empty.
pub proof fn lemma_priority_step(
    b0: Orderbook,
    cur: Orderbook,
    post: Orderbook,
    is_buy: bool,
    popped: bool,
)
    requires
        only_best_consumed(b0, cur, is_buy),
        cur.ladder(!is_buy).wf(),
        b0.ladder(!is_buy).is_buy == !is_buy,
        cur.ladder(!is_buy).is_buy == !is_buy,
        if popped {
            &&& !cur.ladder(!is_buy).spec_is_empty()
            &&& cur.at_market(!is_buy).len() == 0
            &&& post.at_market(!is_buy) == cur.at_market(!is_buy)
            &&& opp_queue(post, is_buy, cur.ladder(!is_buy).best as int) == opp_queue(
                cur,
                is_buy,
                cur.ladder(!is_buy).best as int,
            ).drop_first()
            &&& forall|q: int|
                q != cur.ladder(!is_buy).best ==> #[trigger] opp_queue(post, is_buy, q)
                    == opp_queue(cur, is_buy, q)
        } else {
            &&& post.ladder(!is_buy) == cur.ladder(!is_buy)
            &&& (post.at_market(!is_buy) == cur.at_market(!is_buy) || cur.at_market(
                !is_buy,
            ).len() > 0)
        },
    ensures
        only_best_consumed(b0, post, is_buy),
{
    reveal(only_best_consumed);
    assert forall|p: int|
        #[trigger] opp_queue(post, is_buy, p) != opp_queue(b0, is_buy, p) implies {
        &&& post.at_market(!is_buy).len() == 0
        &&& forall|p1: int|
            b0.ladder(!is_buy).strictly_better(p1, p) ==> (#[trigger] opp_queue(
                post,
                is_buy,
                p1,
            )).len() == 0
    } by {
        if !popped {
            assert(opp_queue(post, is_buy, p) == opp_queue(cur, is_buy, p));
            assert(opp_queue(cur, is_buy, p) != opp_queue(b0, is_buy, p));
            assert(cur.at_market(!is_buy).len() == 0);
            assert(post.at_market(!is_buy) == cur.at_market(!is_buy));
            assert forall|p1: int|
                b0.ladder(!is_buy).strictly_better(p1, p) implies (#[trigger] opp_queue(
                post,
                is_buy,
                p1,
            )).len() == 0 by {
                assert(opp_queue(cur, is_buy, p1).len() == 0);
                assert(opp_queue(post, is_buy, p1) == opp_queue(cur, is_buy, p1));
            }
        } else {
            let lopc = cur.ladder(!is_buy);
            let bb = lopc.best as int;
            if p == bb {
                assert forall|p1: int|
                    b0.ladder(!is_buy).strictly_better(p1, p) implies (#[trigger] opp_queue(
                    post,
                    is_buy,
                    p1,
                )).len() == 0 by {
                    assert(lopc.strictly_better(p1, bb));
                    assert(!lopc.in_range(p1));
                    assert(opp_queue(cur, is_buy, p1) =~= Seq::<i64>::empty());
                    assert(opp_queue(post, is_buy, p1) == opp_queue(cur, is_buy, p1));
                }
            } else {
                assert(opp_queue(post, is_buy, p) == opp_queue(cur, is_buy, p));
                assert(opp_queue(cur, is_buy, p) != opp_queue(b0, is_buy, p));
                assert forall|p1: int|
                    b0.ladder(!is_buy).strictly_better(p1, p) implies (#[trigger] opp_queue(
                    post,
                    is_buy,
                    p1,
                )).len() == 0 by {
                    assert(opp_queue(cur, is_buy, p1).len() == 0);
                    if p1 == bb {
                        assert(opp_queue(cur, is_buy, bb).len() > 0);
                        assert(false);
                    } else {
                        assert(opp_queue(post, is_buy, p1) == opp_queue(cur, is_buy, p1));
                    }
                }
            }
        }
    }
}

/// The fields of an order that never change while it rests.
pub open spec fn same_core(a: Order, b: Order) -> bool {
    &&& b.order_id == a.order_id
    &&& b.is_buy_order == a.is_buy_order
    &&& b.order_limit == a.order_limit
    &&& b.amount == a.amount
}

impl<'a> Orderbook<'a> {
    /// Some opposing liquidity can still trade against an incoming order
    /// of this side and limit: either a resting opposing market order, or
    /// an opposing best level whose price crosses the limit.
    pub open spec fn cross_possible(self, is_buy: bool, limit: Option<i64>) -> bool {
        let opp = self.ladder(!is_buy);
        self.at_market(!is_buy).len() > 0 || (!opp.spec_is_empty() && opp.crosses(
            lim_int(limit),
            opp.best as int,
        ))
    }

    /// Side `o.is_buy_order` of `post` is side `o.is_buy_order` of `self`
    /// with `o` removed from its queue and nothing else moved.
    pub open spec fn side_removed(self, post: Orderbook<'a>, o: Order) -> bool {
        match o.order_limit {
            Some(p) => {
                &&& post.ladder(o.is_buy_order).wf()
                &&& post.ladder(o.is_buy_order).is_buy == o.is_buy_order
                &&& post.ladder(o.is_buy_order).queue_at(p as int) == self.ladder(
                    o.is_buy_order,
                ).queue_at(p as int).remove_value(o.order_id)
                &&& forall|q: int|
                    q != p ==> post.ladder(o.is_buy_order).queue_at(q) == self.ladder(
                        o.is_buy_order,
                    ).queue_at(q)
                &&& post.at_market(o.is_buy_order) == self.at_market(o.is_buy_order)
            },
            None => {
                &&& post.at_market(o.is_buy_order) == self.at_market(o.is_buy_order).remove_value(
                    o.order_id,
                )
                &&& post.ladder(o.is_buy_order) == self.ladder(o.is_buy_order)
            },
        }
    }

    /// Side `s` of `post` is side `s` of `self`, untouched.
    pub open spec fn side_unchanged(self, post: Orderbook<'a>, s: bool) -> bool {
        &&& post.ladder(s) == self.ladder(s)
        &&& post.at_market(s) == self.at_market(s)
    }

    /// What every record a round appends states exactly, with `self` the
    /// book at the round's start: the counterpart is an admitted order of
    /// the opposing side; a limit counterpart trades at its own admitted
    /// price, which crosses the incoming limit; a resting market
    /// counterpart trades at the round-start market price; and the
    /// quantity is the lesser of the two orders' remainders at that point
    /// of the log — which also pins how many records the round produces.
    #[verifier::opaque]
    pub open spec fn records_exact(
        self,
        log: Seq<Execution>,
        inc: i64,
        is_buy: bool,
        limit: Option<i64>,
        amt: int,
    ) -> bool {
        let n0 = self.executions@.len() as int;
        forall|k: int|
            n0 <= k < log.len() ==> {
                let e = #[trigger] log[k];
                let cp = if is_buy {
                    e.selling_order_id
                } else {
                    e.buying_order_id
                };
                &&& self.placed@.contains_key(cp as int)
                &&& (match self.placed@[cp as int].limit {
                    Some(p) => e.price as int == p && self.ladder(!is_buy).crosses(
                        lim_int(limit),
                        p,
                    ),
                    None => e.price == self.current_market_price,
                })
                &&& e.quantity as int == min_int(
                    amt - exec_total(log.subrange(0, k), inc as int),
                    self.placed@[cp as int].amount - exec_total(log.subrange(0, k), cp as int),
                )
            }
    }

    /// Everything one execution round guarantees, relating the book
    /// before the walk (`self`, with the incoming order already resting)
    /// to the book after it (`post`). `inc` is the incoming order's id,
    /// `amt` its quantity; `traded` below is what the round filled of it.
    pub open spec fn round_post(
        self,
        post: Orderbook<'a>,
        inc: i64,
        is_buy: bool,
        limit: Option<i64>,
        amt: int,
    ) -> bool {
        let n0 = self.executions@.len() as int;
        let log1 = post.executions@;
        let traded = exec_total(log1, inc as int);
        &&& post.wf()
        // The log only grows, and every new record has the incoming order
        // on its own side of the trade.
        &&& log1.len() >= n0
        &&& log1.subrange(0, n0) == self.executions@
        &&& forall|k: int|
            n0 <= k < log1.len() ==> (if is_buy {
                (#[trigger] log1[k]).buying_order_id
            } else {
                log1[k].selling_order_id
            }) == inc
        // Each record trades at the resting counterpart's quote, within
        // the incoming limit, for the lesser of the two remainders.
        &&& self.records_exact(log1, inc, is_buy, limit, amt)
        // The incoming order rests afterwards exactly when it is a limit
        // order with quantity left over.
        &&& (post.live(inc as int) <==> (limit is Some && traded < amt))
        // The walk only stops short of filling the incoming order when no
        // qualifying opposing liquidity remains.
        &&& traded < amt ==> !post.cross_possible(is_buy, limit)
        &&& 0 <= traded <= amt
        // Identity, admission records and the instrument never change.
        &&& post.placed@ == self.placed@
        &&& post.orders@.len() == self.orders@.len()
        &&& post.security == self.security
        &&& post.starting_price == self.starting_price
        // The incoming order's own side: untouched while it rests; on a
        // full fill or a discarded market remainder it leaves its queue
        // and nothing else on its side moves.
        &&& if post.live(inc as int) {
            self.side_unchanged(post, is_buy)
        } else {
            self.side_removed(
                post,
                Order {
                    order_id: inc,
                    is_buy_order: is_buy,
                    order_limit: limit,
                    amount: amt as i64,
                    amount_executed: 0,
                },
            )
        }
        // A placement that cannot cross executes nothing at all.
        &&& (!self.cross_possible(is_buy, limit) ==> {
            &&& post.executions@ == self.executions@
            &&& post.current_market_price == self.current_market_price
            &&& self.side_unchanged(post, !is_buy)
            &&& (limit is Some ==> post.orders@ == self.orders@ && self.side_unchanged(
                post,
                is_buy,
            ))
            &&& (limit is None ==> post.orders@ == self.orders@.update(inc as int, None))
        })
        // The opposing queues are consumed strictly from the front.
        &&& ladder_suffix(self.ladder(!is_buy), post.ladder(!is_buy))
        &&& suffix_of(self.at_market(!is_buy), post.at_market(!is_buy))
        &&& post.ladder(!is_buy).is_buy == !is_buy
        // Time priority: of the surviving opposing orders, only the one
        // at the very front of its queue can have been partially filled.
        &&& forall|jd: int|
            0 <= jd < self.orders@.len() && jd != inc && #[trigger] post.orders@[jd] is Some
                && self.orders@[jd] is Some ==> {
                let a = self.orders@[jd]->0;
                let b = post.orders@[jd]->0;
                b.amount_executed == a.amount_executed || (b.is_buy_order == !is_buy && (match b.order_limit {
                    Some(p) => {
                        &&& !post.ladder(!is_buy).spec_is_empty()
                        &&& p == post.ladder(!is_buy).best
                        &&& post.ladder(!is_buy).queue_at(p as int)[0] == b.order_id
                        &&& post.at_market(!is_buy).len() == 0
                    },
                    None => post.at_market(!is_buy).len() > 0 && post.at_market(!is_buy)[0]
                        == b.order_id,
                }))
            }
        // Price priority: a limit level is consumed only once every
        // opposing market order and every strictly better level is gone.
        &&& only_best_consumed(self, post, is_buy)
        // Any order gone from the registry was filled in full, and any
        // order that survives keeps everything but its fill count.
        &&& forall|jd: int|
            0 <= jd < self.orders@.len() && jd != inc && self.orders@[jd] is Some
                && #[trigger] post.orders@[jd] is None ==> exec_total(log1, jd)
                == self.placed@[jd].amount
        &&& forall|jd: int|
            0 <= jd < self.orders@.len() && #[trigger] post.orders@[jd] is Some
                ==> self.orders@[jd] is Some && same_core(self.orders@[jd]->0, post.orders@[jd]->0)
                && post.orders@[jd]->0.amount_executed >= self.orders@[jd]->0.amount_executed
        // The market price becomes the last execution's price, if the
        // round produced any.
        &&& if log1.len() > n0 {
            post.current_market_price == log1.last().price
        } else {
            post.current_market_price == self.current_market_price
        }
    }

    /// After removing one order of side `side` from its queue (a filled
    /// counterpart, a filled incoming order, or a discarded market
    /// remainder), that side's queue invariants still hold.
    pub(crate) proof fn lemma_side_ok_removed(self, pre: Orderbook<'a>, removed: i64, side: bool)
        requires
            pre.wf(),
            pre.live(removed as int),
            pre.ord(removed as int).is_buy_order == side,
            pre.side_removed(self, pre.ord(removed as int)),
            self.orders@.len() == pre.orders@.len(),
            forall|jd: int|
                pre.live(jd) && (#[trigger] pre.ord(jd)).is_buy_order == side && jd != removed
                    ==> self.live(jd) && same_core(pre.ord(jd), self.ord(jd)),
        ensures
            self.ladder_queues_ok(side),
            self.at_market_ok(side),
    {
        let o = pre.ord(removed as int);
        let l0 = pre.ladder(side);
        let l1 = self.ladder(side);
        assert forall|p: int, k: int| #![trigger l1.queue_at(p)[k]]
            0 <= k < l1.queue_at(p).len() implies {
            let jd = l1.queue_at(p)[k];
            &&& self.live(jd as int)
            &&& self.ord(jd as int).is_buy_order == side
            &&& self.ord(jd as int).order_limit == Some(p as i64)
            &&& p == p as i64 as int
        } by {
            let jd = l1.queue_at(p)[k];
            let q0 = l0.queue_at(p);
            let q1 = l1.queue_at(p);
            if o.order_limit is Some && p == o.order_limit->0 as int {
                assert(q1 == q0.remove_value(removed));
                assert(q0.contains(removed));
                q0.index_of_first_ensures(removed);
                let j = q0.index_of_first(removed)->0;
                q0.remove_ensures(j);
                if k < j {
                    assert(q1[k] == q0[k]);
                } else {
                    assert(q1[k] == q0[k + 1]);
                }
                assert(jd != removed);
                assert(pre.live(jd as int) && pre.ord(jd as int).is_buy_order == side);
            } else {
                assert(q1 == q0);
                assert(q0[k] == jd);
                assert(pre.live(jd as int) && pre.ord(jd as int).is_buy_order == side);
                if jd == removed {
                    assert(pre.ord(removed as int).order_limit == Some(p as i64));
                    assert(false);
                }
            }
        }
        assert forall|p: int, k1: int, k2: int|
            0 <= k1 < k2 < l1.queue_at(p).len() implies l1.queue_at(p)[k1] < l1.queue_at(
            p,
        )[k2] by {
            let q0 = l0.queue_at(p);
            let q1 = l1.queue_at(p);
            if o.order_limit is Some && p == o.order_limit->0 as int {
                assert(q0.contains(removed));
                q0.index_of_first_ensures(removed);
                let j = q0.index_of_first(removed)->0;
                q0.remove_ensures(j);
                assert(q1 == q0.remove(j));
                if k2 < j {
                } else if k1 < j {
                    assert(q1[k1] == q0[k1] && q1[k2] == q0[k2 + 1]);
                } else {
                    assert(q1[k1] == q0[k1 + 1] && q1[k2] == q0[k2 + 1]);
                }
            } else {
                assert(q1 == q0);
            }
        }
        let q0 = pre.at_market(side);
        let q1 = self.at_market(side);
        assert forall|k: int| #![trigger q1[k]] 0 <= k < q1.len() implies {
            let jd = q1[k];
            &&& self.live(jd as int)
            &&& self.ord(jd as int).is_buy_order == side
            &&& self.ord(jd as int).order_limit is None
        } by {
            let jd = q1[k];
            if o.order_limit is None {
                assert(q1 == q0.remove_value(removed));
                assert(q0.contains(removed));
                q0.index_of_first_ensures(removed);
                let j = q0.index_of_first(removed)->0;
                q0.remove_ensures(j);
                if k < j {
                    assert(q1[k] == q0[k]);
                } else {
                    assert(q1[k] == q0[k + 1]);
                }
                assert(jd != removed);
                assert(pre.live(jd as int) && pre.ord(jd as int).is_buy_order == side);
            } else {
                assert(q1 == q0);
                assert(q0[k] == jd);
                assert(pre.live(jd as int) && pre.ord(jd as int).is_buy_order == side);
                if jd == removed {
                    assert(pre.ord(removed as int).order_limit is None);
                    assert(false);
                }
            }
        }
        assert forall|k1: int, k2: int| 0 <= k1 < k2 < q1.len() implies q1[k1] < q1[k2] by {
            if o.order_limit is None {
                assert(q0.contains(removed));
                q0.index_of_first_ensures(removed);
                let j = q0.index_of_first(removed)->0;
                q0.remove_ensures(j);
                assert(q1 == q0.remove(j));
                if k2 < j {
                } else if k1 < j {
                    assert(q1[k1] == q0[k1] && q1[k2] == q0[k2 + 1]);
                } else {
                    assert(q1[k1] == q0[k1 + 1] && q1[k2] == q0[k2 + 1]);
                }
            } else {
                assert(q1 == q0);
            }
        }
    }

    /// When one side's queues do not move and none of its orders dies,
    /// that side's queue invariants still hold.
    pub(crate) proof fn lemma_side_ok_unchanged(self, pre: Orderbook<'a>, side: bool)
        requires
            pre.wf(),
            pre.side_unchanged(self, side),
            self.orders@.len() == pre.orders@.len(),
            forall|jd: int|
                pre.live(jd) && (#[trigger] pre.ord(jd)).is_buy_order == side ==> self.live(jd)
                    && same_core(pre.ord(jd), self.ord(jd)),
        ensures
            self.ladder_queues_ok(side),
            self.at_market_ok(side),
    {
        let l0 = pre.ladder(side);
        let l1 = self.ladder(side);
        assert forall|p: int, k: int| #![trigger l1.queue_at(p)[k]]
            0 <= k < l1.queue_at(p).len() implies {
            let jd = l1.queue_at(p)[k];
            &&& self.live(jd as int)
            &&& self.ord(jd as int).is_buy_order == side
            &&& self.ord(jd as int).order_limit == Some(p as i64)
            &&& p == p as i64 as int
        } by {
            let jd = l1.queue_at(p)[k];
            assert(l0.queue_at(p)[k] == jd);
            assert(pre.live(jd as int) && pre.ord(jd as int).is_buy_order == side);
        }
        assert forall|p: int, k1: int, k2: int|
            0 <= k1 < k2 < l1.queue_at(p).len() implies l1.queue_at(p)[k1] < l1.queue_at(
            p,
        )[k2] by {
            assert(l0.queue_at(p)[k1] == l1.queue_at(p)[k1]);
            assert(l0.queue_at(p)[k2] == l1.queue_at(p)[k2]);
        }
        let q0 = pre.at_market(side);
        let q1 = self.at_market(side);
        assert forall|k: int| #![trigger q1[k]] 0 <= k < q1.len() implies {
            let jd = q1[k];
            &&& self.live(jd as int)
            &&& self.ord(jd as int).is_buy_order == side
            &&& self.ord(jd as int).order_limit is None
        } by {
            assert(q0[k] == q1[k]);
            assert(pre.live(q0[k] as int) && pre.ord(q0[k] as int).is_buy_order == side);
        }
    }

    /// In a duplicate-free queue whose front is `id`, dropping the front
    /// is the same as removing `id`.
    pub(crate) proof fn lemma_drop_first_is_remove_value(q: Seq<i64>, id: i64)
        requires
            q.len() > 0,
            q[0] == id,
        ensures
            q.drop_first() == q.remove_value(id),
    {
        assert(q.contains(id));
        q.index_of_first_ensures(id);
        let j = q.index_of_first(id)->0;
        assert(j == 0);
        assert(q.remove(0) =~= q.drop_first());
    }

    /// One pairing preserves the book invariant: the executed quantity is
    /// recorded against both orders, a fully filled order leaves its
    /// queue and the registry, and everything else stands still.
    proof fn lemma_match_step(
        self,
        pre: Orderbook<'a>,
        inc: i64,
        cp: i64,
        f: i64,
        e: Execution,
    )
        requires
            pre.wf(),
            pre.live(inc as int),
            pre.live(cp as int),
            pre.ord(cp as int).is_buy_order == !pre.ord(inc as int).is_buy_order,
            1 <= e.price,
            f == min_int(pre.ord(inc as int).spec_remaining(), pre.ord(cp as int).spec_remaining()),
            e.quantity == f,
            e.buying_order_id == (if pre.ord(inc as int).is_buy_order {
                inc
            } else {
                cp
            }),
            e.selling_order_id == (if pre.ord(inc as int).is_buy_order {
                cp
            } else {
                inc
            }),
            self.executions@ == pre.executions@.push(e),
            self.current_market_price == e.price,
            self.placed@ == pre.placed@,
            self.orders@ == pre.orders@.update(
                cp as int,
                if pre.ord(cp as int).spec_remaining() == f {
                    None
                } else {
                    Some(
                        Order {
                            amount_executed: (pre.ord(cp as int).amount_executed + f) as i64,
                            ..pre.ord(cp as int)
                        },
                    )
                },
            ).update(
                inc as int,
                if pre.ord(inc as int).spec_remaining() == f {
                    None
                } else {
                    Some(
                        Order {
                            amount_executed: (pre.ord(inc as int).amount_executed + f) as i64,
                            ..pre.ord(inc as int)
                        },
                    )
                },
            ),
            if pre.ord(cp as int).spec_remaining() == f {
                pre.side_removed(self, pre.ord(cp as int))
            } else {
                pre.side_unchanged(self, pre.ord(cp as int).is_buy_order)
            },
            if pre.ord(inc as int).spec_remaining() == f {
                pre.side_removed(self, pre.ord(inc as int))
            } else {
                pre.side_unchanged(self, pre.ord(inc as int).is_buy_order)
            },
        ensures
            self.wf(),
            exec_total(self.executions@, inc as int) == pre.ord(inc as int).amount_executed + f,
            exec_total(self.executions@, cp as int) == pre.ord(cp as int).amount_executed + f,
    {
        let io = pre.ord(inc as int);
        let co = pre.ord(cp as int);
        assert(inc != cp);
        crate::order::lemma_exec_total_push(pre.executions@, e, inc as int);
        crate::order::lemma_exec_total_push(pre.executions@, e, cp as int);
        let io_full = io.spec_remaining() == f;
        let cp_full = co.spec_remaining() == f;
        // Every live order is sane and still queued where it belongs.
        assert forall|jd: int| #[trigger] self.live(jd) implies self.order_ok(jd)
            && self.order_queued(jd) by {
            if jd != inc && jd != cp {
                assert(pre.live(jd));
                assert(pre.order_ok(jd));
                crate::order::lemma_exec_total_push(pre.executions@, e, jd);
                assert(self.ord(jd) == pre.ord(jd));
                let po = pre.ord(jd);
                match po.order_limit {
                    Some(p) => {
                        let q0 = pre.ladder(po.is_buy_order).queue_at(p as int);
                        let q1 = self.ladder(po.is_buy_order).queue_at(p as int);
                        if q1 == q0 {
                            assert(q1.contains(po.order_id));
                        } else {
                            let dead = if po.is_buy_order == co.is_buy_order {
                                cp
                            } else {
                                inc
                            };
                            assert(q1 == q0.remove_value(dead));
                            Self::lemma_remove_keeps(q0, dead, po.order_id);
                        }
                    },
                    None => {
                        let q0 = pre.at_market(po.is_buy_order);
                        let q1 = self.at_market(po.is_buy_order);
                        if q1 == q0 {
                            assert(q1.contains(po.order_id));
                        } else {
                            let dead = if po.is_buy_order == co.is_buy_order {
                                cp
                            } else {
                                inc
                            };
                            assert(q1 == q0.remove_value(dead));
                            Self::lemma_remove_keeps(q0, dead, po.order_id);
                        }
                    },
                }
            } else if jd == inc {
                assert(!io_full);
                assert(self.ord(jd) == Order {
                    amount_executed: (io.amount_executed + f) as i64,
                    ..io
                });
                assert(pre.side_unchanged(self, io.is_buy_order));
                assert(pre.order_queued(jd));
            } else {
                assert(!cp_full);
                assert(self.ord(jd) == Order {
                    amount_executed: (co.amount_executed + f) as i64,
                    ..co
                });
                assert(pre.side_unchanged(self, co.is_buy_order));
                assert(pre.order_queued(jd));
            }
        }
        // Queue invariants, one side at a time.
        if cp_full {
            self.lemma_side_ok_removed(pre, cp, co.is_buy_order);
        } else {
            self.lemma_side_ok_unchanged(pre, co.is_buy_order);
        }
        if io_full {
            self.lemma_side_ok_removed(pre, inc, io.is_buy_order);
        } else {
            self.lemma_side_ok_unchanged(pre, io.is_buy_order);
        }
        // The log stays well formed and conservative.
        assert forall|k: int| 0 <= k < self.executions@.len() implies {
            let x = #[trigger] self.executions@[k];
            &&& 1 <= x.quantity
            &&& 1 <= x.price
            &&& x.buying_order_id != x.selling_order_id
            &&& self.placed@.contains_key(x.buying_order_id as int)
            &&& self.placed@[x.buying_order_id as int].is_buy
            &&& self.placed@.contains_key(x.selling_order_id as int)
            &&& !self.placed@[x.selling_order_id as int].is_buy
        } by {
            if k < pre.executions@.len() {
                assert(self.executions@[k] == pre.executions@[k]);
            } else {
                assert(self.executions@[k] == e);
            }
        }
        assert forall|jd: int| #[trigger] self.placed@.contains_key(jd) implies exec_total(
            self.executions@,
            jd,
        ) <= self.placed@[jd].amount && self.placed@[jd].amount >= 1 by {
            crate::order::lemma_exec_total_push(pre.executions@, e, jd);
            if jd == inc as int || jd == cp as int {
                assert(pre.order_ok(jd));
            }
        }
    }

    /// Walk the opposing side in price-time order for the incoming order
    /// `inc` (already resting), produce executions, and discard a market
    /// order's unfilled remainder. This is the whole execution round.
    #[verifier::rlimit(100)]
    #[verifier::spinoff_prover]
    pub(crate) fn run_round(&mut self, inc: i64, is_buy: bool, limit: Option<i64>)
        requires
            old(self).wf(),
            old(self).live(inc as int),
            old(self).ord(inc as int).is_buy_order == is_buy,
            old(self).ord(inc as int).order_limit == limit,
            old(self).ord(inc as int).amount_executed == 0,
        ensures
            old(self).round_post(
                *final(self),
                inc,
                is_buy,
                limit,
                old(self).ord(inc as int).amount as int,
            ),
    {
        let ghost b0: Orderbook<'a> = *self;
        let ghost n0: int = self.executions@.len() as int;
        let ghost amt: int = b0.ord(inc as int).amount as int;
        let round_mkt: i64 = self.current_market_price;
        let nreg: usize = self.orders.len();
        proof {
            assert(b0.order_ok(inc as int));
            assert(0 <= inc as int && (inc as int) < (nreg as int));
        }
        let ii: usize = inc as usize;
        proof {
            let lop = b0.ladder(!is_buy);
            assert(ladder_suffix(lop, self.ladder(!is_buy))) by {
                reveal(ladder_suffix);
                assert forall|p: int|
                    suffix_of(#[trigger] lop.queue_at(p), self.ladder(!is_buy).queue_at(p)) by {
                    lemma_suffix_refl(lop.queue_at(p));
                }
            }
            lemma_suffix_refl(b0.at_market(!is_buy));
            assert(b0.records_exact(self.executions@, inc, is_buy, limit, amt)) by {
                reveal(Orderbook::records_exact);
            }
            assert(only_best_consumed(b0, *self, is_buy)) by {
                reveal(only_best_consumed);
            }
        }
        loop
            invariant_except_break
                b0.wf(),
                b0.live(inc as int),
                b0.ord(inc as int).is_buy_order == is_buy,
                b0.ord(inc as int).order_limit == limit,
                b0.ord(inc as int).amount_executed == 0,
                amt == b0.ord(inc as int).amount as int,
                1 <= amt,
                n0 == b0.executions@.len() as int,
                round_mkt == b0.current_market_price,
                1 <= round_mkt,
                ii as int == inc as int,
                self.wf(),
                self.live(inc as int),
                same_core(b0.ord(inc as int), self.ord(inc as int)),
                self.placed@ == b0.placed@,
                self.orders@.len() == b0.orders@.len(),
                self.security == b0.security,
                self.starting_price == b0.starting_price,
                self.executions@.len() >= n0,
                self.executions@.subrange(0, n0) == b0.executions@,
                forall|k: int|
                    n0 <= k < self.executions@.len() ==> (if is_buy {
                        (#[trigger] self.executions@[k]).buying_order_id
                    } else {
                        self.executions@[k].selling_order_id
                    }) == inc,
                b0.records_exact(self.executions@, inc, is_buy, limit, amt),
                b0.side_unchanged(*self, is_buy),
                ladder_suffix(b0.ladder(!is_buy), self.ladder(!is_buy)),
                suffix_of(b0.at_market(!is_buy), self.at_market(!is_buy)),
                forall|jd: int|
                    0 <= jd < b0.orders@.len() && jd != inc && b0.orders@[jd] is Some
                        && #[trigger] self.orders@[jd] is None ==> exec_total(self.executions@, jd)
                        == b0.placed@[jd].amount,
                forall|jd: int|
                    0 <= jd < b0.orders@.len() && #[trigger] self.orders@[jd] is Some
                        ==> b0.orders@[jd] is Some && same_core(
                        b0.orders@[jd]->0,
                        self.orders@[jd]->0,
                    ) && self.orders@[jd]->0.amount_executed >= b0.orders@[jd]->0.amount_executed,
                if self.executions@.len() > n0 {
                    self.current_market_price == self.executions@.last().price
                } else {
                    *self == b0
                },
                self.executions@.len() > n0 ==> b0.cross_possible(is_buy, limit),
                forall|jd: int|
                    0 <= jd < b0.orders@.len() && jd != inc && #[trigger] self.orders@[jd]
                        is Some && b0.orders@[jd] is Some ==> self.orders@[jd]->0.amount_executed
                        == b0.orders@[jd]->0.amount_executed,
                only_best_consumed(b0, *self, is_buy),
            ensures
                self.wf(),
                self.placed@ == b0.placed@,
                self.orders@.len() == b0.orders@.len(),
                self.security == b0.security,
                self.starting_price == b0.starting_price,
                self.executions@.len() >= n0,
                self.executions@.subrange(0, n0) == b0.executions@,
                forall|k: int|
                    n0 <= k < self.executions@.len() ==> (if is_buy {
                        (#[trigger] self.executions@[k]).buying_order_id
                    } else {
                        self.executions@[k].selling_order_id
                    }) == inc,
                b0.records_exact(self.executions@, inc, is_buy, limit, amt),
                ladder_suffix(b0.ladder(!is_buy), self.ladder(!is_buy)),
                suffix_of(b0.at_market(!is_buy), self.at_market(!is_buy)),
                forall|jd: int|
                    0 <= jd < b0.orders@.len() && jd != inc && b0.orders@[jd] is Some
                        && #[trigger] self.orders@[jd] is None ==> exec_total(self.executions@, jd)
                        == b0.placed@[jd].amount,
                forall|jd: int|
                    0 <= jd < b0.orders@.len() && #[trigger] self.orders@[jd] is Some
                        ==> b0.orders@[jd] is Some && same_core(
                        b0.orders@[jd]->0,
                        self.orders@[jd]->0,
                    ) && self.orders@[jd]->0.amount_executed >= b0.orders@[jd]->0.amount_executed,
                if self.executions@.len() > n0 {
                    self.current_market_price == self.executions@.last().price
                } else {
                    *self == b0
                },
                self.executions@.len() > n0 ==> b0.cross_possible(is_buy, limit),
                forall|jd: int|
                    0 <= jd < b0.orders@.len() && jd != inc && #[trigger] self.orders@[jd]
                        is Some && b0.orders@[jd] is Some ==> {
                        let a = b0.orders@[jd]->0;
                        let b = self.orders@[jd]->0;
                        b.amount_executed == a.amount_executed || (b.is_buy_order == !is_buy && (match b.order_limit {
                            Some(p) => {
                                &&& !self.ladder(!is_buy).spec_is_empty()
                                &&& p == self.ladder(!is_buy).best
                                &&& self.ladder(!is_buy).queue_at(p as int)[0] == b.order_id
                                &&& self.at_market(!is_buy).len() == 0
                            },
                            None => self.at_market(!is_buy).len() > 0 && self.at_market(
                                !is_buy,
                            )[0] == b.order_id,
                        }))
                    },
                only_best_consumed(b0, *self, is_buy),
                self.live(inc as int) ==> {
                    &&& b0.side_unchanged(*self, is_buy)
                    &&& !self.cross_possible(is_buy, limit)
                    &&& exec_total(self.executions@, inc as int) == self.ord(
                        inc as int,
                    ).amount_executed < amt
                },
                !self.live(inc as int) ==> {
                    &&& exec_total(self.executions@, inc as int) == amt
                    &&& b0.side_removed(
                        *self,
                        Order {
                            order_id: inc,
                            is_buy_order: is_buy,
                            order_limit: limit,
                            amount: amt as i64,
                            amount_executed: 0,
                        },
                    )
                },
            decreases amt - self.ord(inc as int).amount_executed,
        {
            let ghost cur: Orderbook<'a> = *self;
            let io: Order = match &self.orders[ii] {
                Some(o) => *o,
                None => unreached(),
            };
            // Pick the front-most qualifying opposing counterpart:
            // resting market orders first, then the best qualifying level.
            let cp: i64;
            let cprice: i64;
            let from_mkt: bool;
            let opp_mkt_front: Option<i64> = if is_buy {
                if self.sell_at_market_orders.len() > 0 {
                    Some(self.sell_at_market_orders[0])
                } else {
                    None
                }
            } else {
                if self.buy_at_market_orders.len() > 0 {
                    Some(self.buy_at_market_orders[0])
                } else {
                    None
                }
            };
            match opp_mkt_front {
                Some(front) => {
                    cp = front;
                    cprice = round_mkt;
                    from_mkt = true;
                },
                None => {
                    let crossing: bool = if is_buy {
                        !self.sell_ladder.is_empty() && (match limit {
                            Some(l) => self.sell_ladder.best <= l,
                            None => true,
                        })
                    } else {
                        !self.buy_ladder.is_empty() && (match limit {
                            Some(l) => self.buy_ladder.best >= l,
                            None => true,
                        })
                    };
                    if !crossing {
                        proof {
                            assert(!self.cross_possible(is_buy, limit));
                        }
                        break;
                    }
                    if is_buy {
                        cp = self.sell_ladder.front_of_best();
                        cprice = self.sell_ladder.best;
                    } else {
                        cp = self.buy_ladder.front_of_best();
                        cprice = self.buy_ladder.best;
                    }
                    from_mkt = false;
                },
            }
            proof {
                if from_mkt {
                    assert(cur.at_market(!is_buy)[0] == cp);
                    assert(cur.live(cp as int));
                } else {
                    let opp = cur.ladder(!is_buy);
                    assert(opp.queue_at(opp.best as int)[0] == cp);
                    assert(cur.live(cp as int));
                }
                assert(cur.ord(cp as int).is_buy_order == !is_buy);
                assert(cur.order_ok(cp as int));
                assert(cur.order_ok(inc as int));
                assert(0 <= cp as int && (cp as int) < self.orders@.len());
                if from_mkt {
                    assert(cur.ord(cp as int).order_limit is None);
                    assert(cprice == b0.current_market_price);
                } else {
                    assert(cur.ord(cp as int).order_limit == Some(cprice));
                    assert(b0.ladder(!is_buy).crosses(lim_int(limit), cprice as int));
                }
            }
            let nn: usize = self.orders.len();
            proof {
                assert((cp as int) < (nn as int));
            }
            let ci: usize = cp as usize;
            let co: Order = match &self.orders[ci] {
                Some(o) => *o,
                None => unreached(),
            };
            let irem: i64 = io.amount - io.amount_executed;
            let crem: i64 = co.amount - co.amount_executed;
            let f: i64 = if irem < crem {
                irem
            } else {
                crem
            };
            let e = Execution {
                buying_order_id: if is_buy {
                    inc
                } else {
                    cp
                },
                selling_order_id: if is_buy {
                    cp
                } else {
                    inc
                },
                price: cprice,
                quantity: f,
            };
            self.executions.push(e);
            self.current_market_price = cprice;
            // Settle the counterpart: a full fill dequeues and
            // unregisters it; a partial fill leaves it at the front.
            if crem == f {
                self.orders[ci] = None;
                if from_mkt {
                    if is_buy {
                        self.sell_at_market_orders.remove(0);
                    } else {
                        self.buy_at_market_orders.remove(0);
                    }
                    proof {
                        Self::lemma_drop_first_is_remove_value(cur.at_market(!is_buy), cp);
                        assert(cur.at_market(!is_buy).remove(0) =~= cur.at_market(
                            !is_buy,
                        ).drop_first());
                    }
                } else {
                    if is_buy {
                        self.sell_ladder.pop_front_best();
                    } else {
                        self.buy_ladder.pop_front_best();
                    }
                    proof {
                        let opp = cur.ladder(!is_buy);
                        Self::lemma_drop_first_is_remove_value(
                            opp.queue_at(opp.best as int),
                            cp,
                        );
                    }
                }
            } else {
                self.orders[ci] = Some(
                    Order { amount_executed: co.amount_executed + f, ..co },
                );
            }
            // Settle the incoming order: on a full fill it leaves its
            // queue and the registry and the round is over.
            if irem == f {
                self.orders[ii] = None;
                match limit {
                    Some(p) => {
                        proof {
                            let own = cur.ladder(is_buy);
                            assert(own.queue_at(p as int).contains(inc));
                            assert(own.in_range(p as int));
                        }
                        if is_buy {
                            self.buy_ladder.remove_id(inc, p);
                        } else {
                            self.sell_ladder.remove_id(inc, p);
                        }
                    },
                    None => {
                        if is_buy {
                            crate::cancel::remove_value_vec(&mut self.buy_at_market_orders, inc);
                        } else {
                            crate::cancel::remove_value_vec(&mut self.sell_at_market_orders, inc);
                        }
                    },
                }
                proof {
                    self.lemma_match_step(cur, inc, cp, f, e);
                    let lopp0 = cur.ladder(!is_buy);
                    let lopp1 = self.ladder(!is_buy);
                    assert(ladder_suffix(lopp0, lopp1)) by {
                        reveal(ladder_suffix);
                        assert forall|p: int|
                            suffix_of(#[trigger] lopp0.queue_at(p), lopp1.queue_at(p)) by {
                            if lopp1.queue_at(p) == lopp0.queue_at(p) {
                                lemma_suffix_refl(lopp0.queue_at(p));
                            } else {
                                assert(lopp1.queue_at(p) == lopp0.queue_at(p).drop_first());
                                lemma_suffix_drop_first(lopp0.queue_at(p));
                            }
                        }
                    }
                    if self.at_market(!is_buy) == cur.at_market(!is_buy) {
                        lemma_suffix_refl(cur.at_market(!is_buy));
                    } else {
                        assert(self.at_market(!is_buy) == cur.at_market(!is_buy).drop_first());
                        lemma_suffix_drop_first(cur.at_market(!is_buy));
                    }
                    self.lemma_round_frames(cur, b0, inc, is_buy, cp, e, n0, limit, amt);
                    if !from_mkt && crem == f {
                        let lopc = cur.ladder(!is_buy);
                        assert(opp_queue(*self, is_buy, lopc.best as int) == opp_queue(
                            cur,
                            is_buy,
                            lopc.best as int,
                        ).drop_first());
                        assert forall|q: int|
                            q != lopc.best implies #[trigger] opp_queue(*self, is_buy, q)
                                == opp_queue(cur, is_buy, q) by {}
                    }
                    lemma_priority_step(b0, cur, *self, is_buy, !from_mkt && crem == f);
                    if crem == f {
                        Self::lemma_untouched_survivors(b0, cur, *self, inc, cp);
                    }
                    Self::lemma_front_partial_survivor(b0, cur, *self, inc, cp, is_buy);
                    assert(exec_total(self.executions@, inc as int) == amt);
                    assert(b0.side_removed(
                        *self,
                        Order {
                            order_id: inc,
                            is_buy_order: is_buy,
                            order_limit: limit,
                            amount: amt as i64,
                            amount_executed: 0,
                        },
                    ));
                }
                break;
            } else {
                self.orders[ii] = Some(
                    Order { amount_executed: io.amount_executed + f, ..io },
                );
                proof {
                    self.lemma_match_step(cur, inc, cp, f, e);
                    let lopp0 = cur.ladder(!is_buy);
                    let lopp1 = self.ladder(!is_buy);
                    assert(ladder_suffix(lopp0, lopp1)) by {
                        reveal(ladder_suffix);
                        assert forall|p: int|
                            suffix_of(#[trigger] lopp0.queue_at(p), lopp1.queue_at(p)) by {
                            if lopp1.queue_at(p) == lopp0.queue_at(p) {
                                lemma_suffix_refl(lopp0.queue_at(p));
                            } else {
                                assert(lopp1.queue_at(p) == lopp0.queue_at(p).drop_first());
                                lemma_suffix_drop_first(lopp0.queue_at(p));
                            }
                        }
                    }
                    if self.at_market(!is_buy) == cur.at_market(!is_buy) {
                        lemma_suffix_refl(cur.at_market(!is_buy));
                    } else {
                        assert(self.at_market(!is_buy) == cur.at_market(!is_buy).drop_first());
                        lemma_suffix_drop_first(cur.at_market(!is_buy));
                    }
                    self.lemma_round_frames(cur, b0, inc, is_buy, cp, e, n0, limit, amt);
                    if !from_mkt && crem == f {
                        let lopc = cur.ladder(!is_buy);
                        assert(opp_queue(*self, is_buy, lopc.best as int) == opp_queue(
                            cur,
                            is_buy,
                            lopc.best as int,
                        ).drop_first());
                        assert forall|q: int|
                            q != lopc.best implies #[trigger] opp_queue(*self, is_buy, q)
                                == opp_queue(cur, is_buy, q) by {}
                    }
                    lemma_priority_step(b0, cur, *self, is_buy, !from_mkt && crem == f);
                    Self::lemma_untouched_survivors(b0, cur, *self, inc, cp);
                }
            }
        }
        // A market order never rests: whatever of it the walk could not
        // fill is discarded, and its id leaves the registry.
        if limit.is_none() {
            let still_resting: bool = match &self.orders[ii] {
                Some(_) => true,
                None => false,
            };
            if still_resting {
                let ghost cur: Orderbook<'a> = *self;
                self.orders[ii] = None;
                if is_buy {
                    crate::cancel::remove_value_vec(&mut self.buy_at_market_orders, inc);
                } else {
                    crate::cancel::remove_value_vec(&mut self.sell_at_market_orders, inc);
                }
                proof {
                    self.lemma_cancel_wf(cur, inc);
                    lemma_priority_step(b0, cur, *self, is_buy, false);
                    assert(b0.side_removed(
                        *self,
                        Order {
                            order_id: inc,
                            is_buy_order: is_buy,
                            order_limit: limit,
                            amount: amt as i64,
                            amount_executed: 0,
                        },
                    ));
                }
            }
        }
        proof {
            if b0.executions@.len() < self.executions@.len() {
                assert(self.executions@.subrange(0, n0) == b0.executions@);
            } else {
                assert(self.executions@ =~= b0.executions@);
            }
        }
    }

    /// The bookkeeping invariants of the round survive one pairing: the
    /// log stays an extension with the incoming order as taker, the
    /// opposing queues stay suffixes of what they were, departures were
    /// full fills, and survivors keep their immutable fields.
    proof fn lemma_round_frames(
        self,
        cur: Orderbook<'a>,
        b0: Orderbook<'a>,
        inc: i64,
        is_buy: bool,
        cp: i64,
        e: Execution,
        n0: int,
        limit: Option<i64>,
        amt: int,
    )
        requires
            cur.wf(),
            amt == cur.ord(inc as int).amount as int,
            e.quantity as int == min_int(
                cur.ord(inc as int).spec_remaining(),
                cur.ord(cp as int).spec_remaining(),
            ),
            match cur.ord(cp as int).order_limit {
                Some(p) => e.price == p && b0.ladder(!is_buy).crosses(lim_int(limit), p as int),
                None => e.price == b0.current_market_price,
            },
            b0.records_exact(cur.executions@, inc, is_buy, limit, amt),
            cur.live(inc as int),
            cur.live(cp as int),
            cur.ord(inc as int).is_buy_order == is_buy,
            cur.ord(cp as int).is_buy_order == !is_buy,
            self.executions@ == cur.executions@.push(e),
            e.buying_order_id == (if is_buy {
                inc
            } else {
                cp
            }),
            e.selling_order_id == (if is_buy {
                cp
            } else {
                inc
            }),
            self.current_market_price == e.price,
            self.placed@ == cur.placed@,
            exec_total(self.executions@, cp as int) == cur.ord(cp as int).amount
                || self.orders@[cp as int] is Some,
            forall|jd: int|
                0 <= jd < cur.orders@.len() && jd != inc as int && jd != cp as int
                    ==> self.orders@[jd] == cur.orders@[jd],
            self.orders@.len() == cur.orders@.len(),
            forall|jd: int|
                0 <= jd < cur.orders@.len() && #[trigger] self.orders@[jd] is Some
                    ==> cur.orders@[jd] is Some && same_core(
                    cur.orders@[jd]->0,
                    self.orders@[jd]->0,
                ) && self.orders@[jd]->0.amount_executed >= cur.orders@[jd]->0.amount_executed,
            // the opposing queues lose at most their fronts
            ladder_suffix(cur.ladder(!is_buy), self.ladder(!is_buy)),
            suffix_of(cur.at_market(!is_buy), self.at_market(!is_buy)),
            // what held of `cur` relative to the round's start
            b0.orders@.len() == cur.orders@.len(),
            b0.placed@ == cur.placed@,
            cur.executions@.len() >= n0,
            n0 == b0.executions@.len(),
            cur.executions@.subrange(0, n0) == b0.executions@,
            forall|k: int|
                n0 <= k < cur.executions@.len() ==> (if is_buy {
                    (#[trigger] cur.executions@[k]).buying_order_id
                } else {
                    cur.executions@[k].selling_order_id
                }) == inc,
            ladder_suffix(b0.ladder(!is_buy), cur.ladder(!is_buy)),
            suffix_of(b0.at_market(!is_buy), cur.at_market(!is_buy)),
            forall|jd: int|
                0 <= jd < b0.orders@.len() && jd != inc && b0.orders@[jd] is Some
                    && #[trigger] cur.orders@[jd] is None ==> exec_total(cur.executions@, jd)
                    == b0.placed@[jd].amount,
            forall|jd: int|
                0 <= jd < b0.orders@.len() && #[trigger] cur.orders@[jd] is Some
                    ==> b0.orders@[jd] is Some && same_core(b0.orders@[jd]->0, cur.orders@[jd]->0)
                    && cur.orders@[jd]->0.amount_executed >= b0.orders@[jd]->0.amount_executed,
        ensures
            self.executions@.len() > n0,
            self.executions@.subrange(0, n0) == b0.executions@,
            forall|k: int|
                n0 <= k < self.executions@.len() ==> (if is_buy {
                    (#[trigger] self.executions@[k]).buying_order_id
                } else {
                    self.executions@[k].selling_order_id
                }) == inc,
            ladder_suffix(b0.ladder(!is_buy), self.ladder(!is_buy)),
            suffix_of(b0.at_market(!is_buy), self.at_market(!is_buy)),
            forall|jd: int|
                0 <= jd < b0.orders@.len() && jd != inc && b0.orders@[jd] is Some
                    && #[trigger] self.orders@[jd] is None ==> exec_total(self.executions@, jd)
                    == b0.placed@[jd].amount,
            forall|jd: int|
                0 <= jd < b0.orders@.len() && #[trigger] self.orders@[jd] is Some
                    ==> b0.orders@[jd] is Some && same_core(b0.orders@[jd]->0, self.orders@[jd]->0)
                    && self.orders@[jd]->0.amount_executed >= b0.orders@[jd]->0.amount_executed,
            self.current_market_price == self.executions@.last().price,
            b0.records_exact(self.executions@, inc, is_buy, limit, amt),
    {
        reveal(Orderbook::records_exact);
        assert(cur.order_ok(inc as int));
        assert(cur.order_ok(cp as int));
        assert forall|k: int| n0 <= k < self.executions@.len() implies {
            let e2 = #[trigger] self.executions@[k];
            let cpk = if is_buy {
                e2.selling_order_id
            } else {
                e2.buying_order_id
            };
            &&& b0.placed@.contains_key(cpk as int)
            &&& (match b0.placed@[cpk as int].limit {
                Some(p) => e2.price as int == p && b0.ladder(!is_buy).crosses(lim_int(limit), p),
                None => e2.price == b0.current_market_price,
            })
            &&& e2.quantity as int == min_int(
                amt - exec_total(self.executions@.subrange(0, k), inc as int),
                b0.placed@[cpk as int].amount - exec_total(
                    self.executions@.subrange(0, k),
                    cpk as int,
                ),
            )
        } by {
            if k < cur.executions@.len() {
                assert(self.executions@[k] == cur.executions@[k]);
                assert(self.executions@.subrange(0, k) =~= cur.executions@.subrange(0, k));
            } else {
                assert(self.executions@[k] == e);
                assert(self.executions@.subrange(0, k) =~= cur.executions@);
            }
        }
        assert(self.executions@.subrange(0, n0) =~= cur.executions@.subrange(0, n0));
        assert forall|k: int| n0 <= k < self.executions@.len() implies (if is_buy {
            (#[trigger] self.executions@[k]).buying_order_id
        } else {
            self.executions@[k].selling_order_id
        }) == inc by {
            if k < cur.executions@.len() {
                assert(self.executions@[k] == cur.executions@[k]);
            } else {
                assert(self.executions@[k] == e);
            }
        }
        lemma_ladder_suffix_trans(
            b0.ladder(!is_buy),
            cur.ladder(!is_buy),
            self.ladder(!is_buy),
        );
        lemma_suffix_trans(b0.at_market(!is_buy), cur.at_market(!is_buy), self.at_market(!is_buy));
        assert forall|jd: int|
            0 <= jd < b0.orders@.len() && jd != inc && b0.orders@[jd] is Some
                && #[trigger] self.orders@[jd] is None implies exec_total(self.executions@, jd)
                == b0.placed@[jd].amount by {
            crate::order::lemma_exec_total_push(cur.executions@, e, jd);
            if jd == cp as int {
                assert(cur.order_ok(jd));
            } else {
                assert(cur.orders@[jd] is None);
                assert(exec_total(cur.executions@, jd) == b0.placed@[jd].amount);
                assert(jd != inc as int && jd != cp as int);
            }
        }
    }

    /// A resting buy market order matches against the sell side: resting
    /// sell market orders first, then ask levels from the lowest up.
    pub(crate) fn match_against_sell_side_at_market(&mut self, order: &Order)
        requires
            old(self).wf(),
            old(self).live(order.order_id as int),
            old(self).ord(order.order_id as int) == *order,
            order.is_buy_order,
            order.order_limit is None,
            order.amount_executed == 0,
        ensures
            old(self).round_post(
                *final(self),
                order.order_id,
                true,
                None,
                order.amount as int,
            ),
    {
        self.run_round(order.order_id, true, None)
    }

    /// A resting sell market order matches against the buy side: resting
    /// buy market orders first, then bid levels from the highest down.
    pub(crate) fn match_against_buy_side_at_market(&mut self, order: &Order)
        requires
            old(self).wf(),
            old(self).live(order.order_id as int),
            old(self).ord(order.order_id as int) == *order,
            !order.is_buy_order,
            order.order_limit is None,
            order.amount_executed == 0,
        ensures
            old(self).round_post(
                *final(self),
                order.order_id,
                false,
                None,
                order.amount as int,
            ),
    {
        self.run_round(order.order_id, false, None)
    }

    /// A new highest bid matches against the sell side while the best ask
    /// is at or below its limit.
    pub(crate) fn match_against_sell_side(&mut self, order: &Order)
        requires
            old(self).wf(),
            old(self).live(order.order_id as int),
            old(self).ord(order.order_id as int) == *order,
            order.is_buy_order,
            order.order_limit is Some,
            order.amount_executed == 0,
        ensures
            old(self).round_post(
                *final(self),
                order.order_id,
                true,
                order.order_limit,
                order.amount as int,
            ),
    {
        self.run_round(order.order_id, true, order.order_limit)
    }

    /// A new lowest ask matches against the buy side while the best bid
    /// is at or above its limit.
    pub(crate) fn match_against_buy_side(&mut self, order: &Order)
        requires
            old(self).wf(),
            old(self).live(order.order_id as int),
            old(self).ord(order.order_id as int) == *order,
            !order.is_buy_order,
            order.order_limit is Some,
            order.amount_executed == 0,
        ensures
            old(self).round_post(
                *final(self),
                order.order_id,
                false,
                order.order_limit,
                order.amount as int,
            ),
    {
        self.run_round(order.order_id, false, order.order_limit)
    }

    /// Survivors other than the two orders of a pairing keep their fill
    /// counts relative to the round's start.
    proof fn lemma_untouched_survivors(
        b0: Orderbook<'a>,
        cur: Orderbook<'a>,
        post: Orderbook<'a>,
        inc: i64,
        cp: i64,
    )
        requires
            forall|jd: int|
                0 <= jd < b0.orders@.len() && jd != inc && #[trigger] cur.orders@[jd] is Some
                    && b0.orders@[jd] is Some ==> cur.orders@[jd]->0.amount_executed
                    == b0.orders@[jd]->0.amount_executed,
            cur.orders@.len() == b0.orders@.len(),
            post.orders@.len() == cur.orders@.len(),
            !(post.orders@[cp as int] is Some),
            forall|jd: int|
                0 <= jd < cur.orders@.len() && jd != inc as int && jd != cp as int
                    ==> post.orders@[jd] == cur.orders@[jd],
        ensures
            forall|jd: int|
                0 <= jd < b0.orders@.len() && jd != inc && #[trigger] post.orders@[jd] is Some
                    && b0.orders@[jd] is Some ==> post.orders@[jd]->0.amount_executed
                    == b0.orders@[jd]->0.amount_executed,
    {
    }

    /// At the end of a round, every survivor except the front-most
    /// counterpart of the final pairing keeps its fill count.
    proof fn lemma_front_partial_survivor(
        b0: Orderbook<'a>,
        cur: Orderbook<'a>,
        post: Orderbook<'a>,
        inc: i64,
        cp: i64,
        is_buy: bool,
    )
        requires
            cur.wf(),
            cur.live(cp as int),
            cur.ord(cp as int).is_buy_order == !is_buy,
            forall|jd: int|
                0 <= jd < b0.orders@.len() && jd != inc && #[trigger] cur.orders@[jd] is Some
                    && b0.orders@[jd] is Some ==> cur.orders@[jd]->0.amount_executed
                    == b0.orders@[jd]->0.amount_executed,
            cur.orders@.len() == b0.orders@.len(),
            post.orders@.len() == cur.orders@.len(),
            forall|jd: int|
                0 <= jd < cur.orders@.len() && jd != inc as int && jd != cp as int
                    ==> post.orders@[jd] == cur.orders@[jd],
            post.orders@[cp as int] is Some ==> {
                let b = post.orders@[cp as int]->0;
                &&& same_core(cur.ord(cp as int), b)
                &&& (match b.order_limit {
                    Some(p) => {
                        &&& !post.ladder(!is_buy).spec_is_empty()
                        &&& p == post.ladder(!is_buy).best
                        &&& post.ladder(!is_buy).queue_at(p as int)[0] == b.order_id
                        &&& post.at_market(!is_buy).len() == 0
                    },
                    None => post.at_market(!is_buy).len() > 0 && post.at_market(!is_buy)[0]
                        == b.order_id,
                })
            },
        ensures
            forall|jd: int|
                0 <= jd < b0.orders@.len() && jd != inc && #[trigger] post.orders@[jd] is Some
                    && b0.orders@[jd] is Some ==> {
                    let a = b0.orders@[jd]->0;
                    let b = post.orders@[jd]->0;
                    b.amount_executed == a.amount_executed || (b.is_buy_order == !is_buy && (match b.order_limit {
                        Some(p) => {
                            &&& !post.ladder(!is_buy).spec_is_empty()
                            &&& p == post.ladder(!is_buy).best
                            &&& post.ladder(!is_buy).queue_at(p as int)[0] == b.order_id
                            &&& post.at_market(!is_buy).len() == 0
                        },
                        None => post.at_market(!is_buy).len() > 0 && post.at_market(!is_buy)[0]
                            == b.order_id,
                    }))
                },
    {
        assert forall|jd: int|
            0 <= jd < b0.orders@.len() && jd != inc && #[trigger] post.orders@[jd] is Some
                && b0.orders@[jd] is Some implies {
            let a = b0.orders@[jd]->0;
            let b = post.orders@[jd]->0;
            b.amount_executed == a.amount_executed || (b.is_buy_order == !is_buy && (match b.order_limit {
                Some(p) => {
                    &&& !post.ladder(!is_buy).spec_is_empty()
                    &&& p == post.ladder(!is_buy).best
                    &&& post.ladder(!is_buy).queue_at(p as int)[0] == b.order_id
                    &&& post.at_market(!is_buy).len() == 0
                },
                None => post.at_market(!is_buy).len() > 0 && post.at_market(!is_buy)[0]
                    == b.order_id,
            }))
        } by {
            if jd == cp as int {
                assert(cur.order_ok(jd));
            } else {
                assert(post.orders@[jd] == cur.orders@[jd]);
            }
        }
    }

    /// In a duplicate-free queue, removing one id keeps every other.
    pub(crate) proof fn lemma_remove_keeps(q: Seq<i64>, id: i64, other: i64)
        requires
            forall|k1: int, k2: int| 0 <= k1 < k2 < q.len() ==> q[k1] != q[k2],
            q.contains(other),
            other != id,
        ensures
            q.remove_value(id).contains(other),
    {
        q.index_of_first_ensures(id);
        match q.index_of_first(id) {
            Some(j) => {
                q.remove_ensures(j);
                let w = choose|w: int| 0 <= w < q.len() && q[w] == other;
                if w < j {
                    assert(q.remove(j)[w] == other);
                } else {
                    assert(q.remove(j)[w - 1] == other);
                }
                assert(q.remove_value(id).contains(other));
            },
            None => {
            },
        }
    }
}

} // verus!
