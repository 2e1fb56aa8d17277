//! The book's laws, each proved once and for all: registry and bound
//! coherence, price-time priority, conservation, drained-side behaviour,
//! cancellation, and the price collar.

use vstd::prelude::*;
use crate::book::Orderbook;
use crate::order::{Order, OrderbookError, exec_total};
use crate::matching::{lim_int, opp_queue};
use crate::insert::collar_rejects;

verus! {

/// Registry and bound coherence: in every well-formed book, each resting
/// limit order is retrievable from the registry, its price lies between
/// the side's worst and best bound, and both bounds are attained by some
/// resting order — the bounds are the exact extrema of resting prices.
pub proof fn lemma_bounds_are_extrema(b: Orderbook, is_buy: bool)
    requires
        b.wf(),
    ensures
        forall|id: int|
            b.live(id) && (#[trigger] b.ord(id)).is_buy_order == is_buy && b.ord(id).order_limit
                is Some ==> {
                let p = b.ord(id).order_limit->0 as int;
                &&& !b.ladder(is_buy).spec_is_empty()
                &&& !b.ladder(is_buy).strictly_better(p, b.ladder(is_buy).best as int)
                &&& !b.ladder(is_buy).strictly_better(b.ladder(is_buy).worst(), p)
            },
        !b.ladder(is_buy).spec_is_empty() ==> (exists|id: int|
            b.live(id) && (#[trigger] b.ord(id)).is_buy_order == is_buy && b.ord(id).order_limit
                == Some(b.ladder(is_buy).best)),
        !b.ladder(is_buy).spec_is_empty() ==> (exists|id: int|
            b.live(id) && (#[trigger] b.ord(id)).is_buy_order == is_buy && b.ord(id).order_limit
                == Some(b.ladder(is_buy).worst() as i64)),
{
    let l = b.ladder(is_buy);
    assert forall|id: int|
        b.live(id) && (#[trigger] b.ord(id)).is_buy_order == is_buy && b.ord(id).order_limit
            is Some implies {
        let p = b.ord(id).order_limit->0 as int;
        &&& !l.spec_is_empty()
        &&& !l.strictly_better(p, l.best as int)
        &&& !l.strictly_better(l.worst(), p)
    } by {
        let p = b.ord(id).order_limit->0 as int;
        assert(b.order_queued(id));
        assert(l.queue_at(p).len() > 0);
        assert(l.in_range(p));
    }
    if !l.spec_is_empty() {
        let qb = l.queue_at(l.best as int);
        assert(qb == l.levels@[0]@);
        assert(qb.len() > 0);
        let idb = qb[0];
        assert(b.live(idb as int) && b.ord(idb as int).is_buy_order == is_buy && b.ord(
            idb as int,
        ).order_limit == Some(l.best));
        let qw = l.queue_at(l.worst());
        assert(qw == l.levels@[l.levels@.len() - 1]@);
        assert(qw.len() > 0);
        let idw = qw[0];
        assert(b.live(idw as int) && b.ord(idw as int).is_buy_order == is_buy && b.ord(
            idw as int,
        ).order_limit == Some(l.worst() as i64));
    }
}

/// A side's ladder is drained exactly when no limit order of that side
/// rests: empty bounds mean an empty side, never a hidden order.
pub proof fn lemma_empty_side_no_orders(b: Orderbook, is_buy: bool)
    requires
        b.wf(),
    ensures
        b.ladder(is_buy).spec_is_empty() <==> !(exists|id: int|
            b.live(id) && (#[trigger] b.ord(id)).is_buy_order == is_buy && b.ord(id).order_limit
                is Some),
{
    lemma_bounds_are_extrema(b, is_buy);
    if !b.ladder(is_buy).spec_is_empty() {
    } else {
        assert forall|id: int|
            b.live(id) && (#[trigger] b.ord(id)).is_buy_order == is_buy implies !(b.ord(
            id,
        ).order_limit is Some) by {
            if b.ord(id).order_limit is Some {
                assert(b.order_queued(id));
                let p = b.ord(id).order_limit->0 as int;
                assert(b.ladder(is_buy).queue_at(p).len() > 0);
            }
        }
    }
}

/// Conservation: no order ever trades more than the quantity it was
/// admitted with — over the whole execution log, for every id ever
/// assigned, resting or long gone — and a resting order's fill counter
/// equals exactly what the log records for it.
pub proof fn lemma_conservation(b: Orderbook, id: int)
    requires
        b.wf(),
        b.placed@.contains_key(id),
    ensures
        exec_total(b.executions@, id) <= b.placed@[id].amount,
        b.live(id) ==> b.ord(id).amount_executed == exec_total(b.executions@, id),
{
}

/// Time priority within a price level: when two orders rest at the same
/// price on the side an execution round matched against, and the round
/// touched the younger one (filled any of it, or removed it), then the
/// older one was already filled in full. FIFO order within a level is
/// id order, because ids are assigned monotonically at admission.
pub proof fn lemma_time_priority(
    b0: Orderbook,
    b1: Orderbook,
    inc: i64,
    is_buy: bool,
    limit: Option<i64>,
    amt: int,
    s1: i64,
    s2: i64,
    p: i64,
)
    requires
        b0.wf(),
        b0.round_post(b1, inc, is_buy, limit, amt),
        s1 < s2,
        s1 != inc && s2 != inc,
        b0.live(s1 as int) && b0.live(s2 as int),
        b0.ord(s1 as int).is_buy_order == !is_buy,
        b0.ord(s2 as int).is_buy_order == !is_buy,
        b0.ord(s1 as int).order_limit == Some(p),
        b0.ord(s2 as int).order_limit == Some(p),
        !b1.live(s2 as int) || b1.ord(s2 as int).amount_executed > b0.ord(
            s2 as int,
        ).amount_executed,
    ensures
        !b1.live(s1 as int),
        exec_total(b1.executions@, s1 as int) == b0.ord(s1 as int).amount,
{
    let q0 = opp_queue(b0, is_buy, p as int);
    let q1 = opp_queue(b1, is_buy, p as int);
    assert(b0.order_queued(s1 as int));
    assert(b0.order_queued(s2 as int));
    let i1 = choose|i: int| 0 <= i < q0.len() && q0[i] == s1;
    let i2 = choose|i: int| 0 <= i < q0.len() && q0[i] == s2;
    assert(q0[i1] == s1 && q0[i2] == s2);
    assert(i1 < i2) by {
        if i2 < i1 {
            assert(q0[i2] < q0[i1]);
        }
        if i1 == i2 {
            assert(false);
        }
    }
    // The level's queue after the round is a suffix of what it was.
    assert(crate::matching::suffix_of(q0, q1)) by {
        reveal(crate::matching::ladder_suffix);
        assert(crate::matching::suffix_of(
            b0.ladder(!is_buy).queue_at(p as int),
            b1.ladder(!is_buy).queue_at(p as int),
        ));
    }
    let n = q0.len() - q1.len();
    // In either touched case, `s1` is no longer in the queue.
    assert(!q1.contains(s1)) by {
        if q1.contains(s1) {
            let j = choose|j: int| 0 <= j < q1.len() && q1[j] == s1;
            assert(q1[j] == q0[j + n]);
            assert(j + n == i1) by {
                if j + n < i1 {
                    assert(q0[j + n] < q0[i1]);
                } else if i1 < j + n {
                    assert(q0[i1] < q0[j + n]);
                }
            }
            assert(q1[i2 - n] == q0[i2]);
            assert(b1.live(s2 as int));
            if b1.ord(s2 as int).amount_executed > b0.ord(s2 as int).amount_executed {
                // the younger order would be at the queue's front, ahead
                // of the older one
                assert(q1[0] == s2);
                assert(0 < i2 - n);
                assert(q1[0] < q1[i2 - n]);
                assert(false);
            }
        }
    }
    assert(!b1.live(s1 as int)) by {
        if b1.live(s1 as int) {
            assert(b1.ord(s1 as int).order_limit == Some(p)) by {
                assert(b1.orders@[s1 as int] is Some);
            }
            assert(b1.order_queued(s1 as int));
            assert(q1.contains(s1));
        }
    }
    assert(b0.placed@[s1 as int].amount == b0.ord(s1 as int).amount) by {
        assert(b0.order_ok(s1 as int));
    }
}

/// Price priority across levels: if an execution round touched a resting
/// order (filled any of it, or removed it), then on the side it matched
/// against every strictly better level is empty afterwards, and no
/// resting market order is left — better liquidity is always exhausted
/// before worse liquidity is reached.
pub proof fn lemma_price_priority(
    b0: Orderbook,
    b1: Orderbook,
    inc: i64,
    is_buy: bool,
    limit: Option<i64>,
    amt: int,
    s: i64,
    p1: int,
)
    requires
        b0.wf(),
        b0.round_post(b1, inc, is_buy, limit, amt),
        s != inc,
        b0.live(s as int),
        b0.ord(s as int).is_buy_order == !is_buy,
        b0.ord(s as int).order_limit is Some,
        b0.ladder(!is_buy).strictly_better(p1, b0.ord(s as int).order_limit->0 as int),
        !b1.live(s as int) || b1.ord(s as int).amount_executed > b0.ord(
            s as int,
        ).amount_executed,
    ensures
        opp_queue(b1, is_buy, p1).len() == 0,
        b1.at_market(!is_buy).len() == 0,
{
    let p2 = b0.ord(s as int).order_limit->0 as int;
    let q0 = opp_queue(b0, is_buy, p2);
    let q1 = opp_queue(b1, is_buy, p2);
    assert(b0.order_queued(s as int));
    assert(q0.contains(s));
    if !b1.live(s as int) {
        // the touched order left its queue, so the queue changed
        assert(!q1.contains(s)) by {
            if q1.contains(s) {
                let j = choose|j: int| 0 <= j < q1.len() && q1[j] == s;
                assert(b1.live(q1[j] as int));
            }
        }
        assert(q1 != q0);
        assert(opp_queue(b1, is_buy, p1).len() == 0 && b1.at_market(!is_buy).len() == 0) by {
            reveal(crate::matching::only_best_consumed);
            assert(crate::matching::only_best_consumed(b0, b1, is_buy));
        }
    } else {
        // the touched order survives partially filled: it is the front
        // of the current best level, and better levels are empty
        assert(b1.ord(s as int).order_limit == Some(p2 as i64)) by {
            assert(b1.orders@[s as int] is Some);
        }
        assert(!b1.ladder(!is_buy).spec_is_empty() && p2 == b1.ladder(!is_buy).best as int
            && b1.at_market(!is_buy).len() == 0);
        assert(b1.ladder(!is_buy).strictly_better(p1, b1.ladder(!is_buy).best as int));
        assert(!b1.ladder(!is_buy).in_range(p1));
        assert(opp_queue(b1, is_buy, p1) =~= Seq::<i64>::empty());
    }
}

/// The execution price is the resting order's quote: every record an
/// execution round appends names a resting counterpart admitted on the
/// opposing side; a limit counterpart trades at its own admitted price,
/// which crosses the incoming limit; a resting market counterpart trades
/// at the round-start market price; and the quantity is the lesser of
/// the two orders' remainders at that point of the log.
pub proof fn lemma_execution_at_resting_quote(
    b0: Orderbook,
    b1: Orderbook,
    inc: i64,
    is_buy: bool,
    limit: Option<i64>,
    amt: int,
    k: int,
)
    requires
        b0.wf(),
        b0.round_post(b1, inc, is_buy, limit, amt),
        b0.executions@.len() <= k < b1.executions@.len(),
    ensures
        ({
            let e = b1.executions@[k];
            let cp = if is_buy {
                e.selling_order_id
            } else {
                e.buying_order_id
            };
            &&& b0.placed@.contains_key(cp as int)
            &&& (match b0.placed@[cp as int].limit {
                Some(p) => e.price as int == p && b0.ladder(!is_buy).crosses(lim_int(limit), p),
                None => e.price == b0.current_market_price,
            })
            &&& e.quantity as int == crate::matching::min_int(
                amt - exec_total(b1.executions@.subrange(0, k), inc as int),
                b0.placed@[cp as int].amount - exec_total(b1.executions@.subrange(0, k), cp as int),
            )
        }),
{
    reveal(Orderbook::records_exact);
    assert(b0.records_exact(b1.executions@, inc, is_buy, limit, amt));
}

/// The price collar: a limit order that would become the new worst
/// resting price on its side, at a price more than the configured band
/// away from the market price, is rejected with `PriceOutOfBand` — and a
/// rejected placement leaves the book untouched (see `place_order`).
pub proof fn lemma_collar_rejection(b: Orderbook, o: Order)
    requires
        b.wf(),
        o.amount >= 1,
        o.order_limit is Some,
        o.order_limit->0 >= 1,
        b.extends_worst(o.is_buy_order, o.order_limit->0 as int),
        collar_rejects(b.current_market_price as int, o.is_buy_order, o.order_limit->0 as int),
    ensures
        b.rejection(o) == Some(OrderbookError::PriceOutOfBand),
{
}

/// After a side drains, the next limit order on it opens a fresh level
/// that is at once the side's best and worst price. (With crossing
/// liquidity on the other side the order could instead match away; the
/// premise rules that out.)
pub proof fn lemma_fresh_best_after_drain(
    b0: Orderbook,
    b1: Orderbook,
    o: Order,
    id: i64,
    p: i64,
)
    requires
        b0.wf(),
        b0.rejection(o) is None,
        o.amount_executed == 0,
        o.order_limit == Some(p),
        b0.ladder(o.is_buy_order).spec_is_empty(),
        !b0.cross_possible(o.is_buy_order, o.order_limit),
        b0.place_post(b1, o, id),
    ensures
        !b1.ladder(o.is_buy_order).spec_is_empty(),
        b1.ladder(o.is_buy_order).best == p,
        b1.ladder(o.is_buy_order).worst() == p as int,
        b1.live(id as int),
        b1.ladder(o.is_buy_order).queue_at(p as int) == seq![id],
    {
    let mid = choose|mid: Orderbook|
        {
            &&& #[trigger] b0.admitted(mid, o, id)
            &&& if b0.signal_of(o.is_buy_order, lim_int(o.order_limit))
                == crate::order::MatchingSignal::NoOperation {
                b1 == mid
            } else {
                mid.round_post(b1, id, o.is_buy_order, o.order_limit, o.amount as int)
            }
        };
    assert(b0.inserted_queues(mid, o.is_buy_order, o.order_limit, id));
    assert(mid.ladder(o.is_buy_order).best as int == p as int);
    assert(mid.ladder(o.is_buy_order).worst() == p as int);
    assert(mid.ladder(o.is_buy_order).queue_at(p as int) == b0.ladder(o.is_buy_order).queue_at(
        p as int,
    ).push(id));
    assert(b0.ladder(o.is_buy_order).queue_at(p as int) =~= Seq::<i64>::empty());
    assert(mid.ladder(o.is_buy_order).queue_at(p as int) =~= seq![id]);
    assert(b0.signal_of(o.is_buy_order, lim_int(o.order_limit))
        != crate::order::MatchingSignal::NoOperation);
    assert(mid.round_post(b1, id, o.is_buy_order, o.order_limit, o.amount as int));
    // Insertion does not touch the opposing side, so nothing can cross
    // and the round leaves the book exactly as admitted.
    assert(!mid.cross_possible(o.is_buy_order, o.order_limit));
    assert(b1.executions@ == mid.executions@);
    assert(mid.side_unchanged(b1, o.is_buy_order));
    assert(exec_total(b1.executions@, id as int) == 0) by {
        assert(mid.order_ok(id as int));
    }
    assert(b1.live(id as int));
}

} // verus!
