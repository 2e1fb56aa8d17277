//! One side's price ladder: a contiguous range of price levels from the
//! best price outward, each level a FIFO queue of order ids. On the buy
//! side "best" is the highest price, on the sell side the lowest. An
//! extremal level is never empty; interior levels may be (they stand for
//! prices inside the spread's range with nothing resting).

use vstd::prelude::*;

verus! {

pub struct Ladder {
    /// True for the bid ladder, false for the ask ladder.
    pub is_buy: bool,
    /// Price of `levels[0]`; meaningful only when `levels` is nonempty.
    pub best: i64,
    /// `levels[i]` holds the ids resting at `price_of(i)`, oldest first.
    pub levels: Vec<Vec<i64>>,
}

impl Ladder {
    /// Price of the level at index `i`: the ladder walks away from the
    /// best price, downward for bids and upward for asks.
    pub open spec fn price_of(self, i: int) -> int {
        if self.is_buy {
            self.best - i
        } else {
            self.best + i
        }
    }

    /// Index of the level that quotes price `p`.
    pub open spec fn idx_of(self, p: int) -> int {
        if self.is_buy {
            self.best - p
        } else {
            p - self.best
        }
    }

    pub open spec fn spec_is_empty(self) -> bool {
        self.levels@.len() == 0
    }

    /// Whether price `p` has a slot in the contiguous range.
    pub open spec fn in_range(self, p: int) -> bool {
        self.levels@.len() > 0 && 0 <= self.idx_of(p) < self.levels@.len()
    }

    /// The FIFO queue resting at price `p`; empty for any price outside
    /// the ladder's range.
    pub open spec fn queue_at(self, p: int) -> Seq<i64> {
        if self.in_range(p) {
            self.levels@[self.idx_of(p)]@
        } else {
            Seq::<i64>::empty()
        }
    }

    /// The worst (least aggressive) price; meaningful only when nonempty.
    pub open spec fn worst(self) -> int {
        self.price_of(self.levels@.len() - 1)
    }

    /// `p` is strictly more aggressive than `q` on this side.
    pub open spec fn strictly_better(self, p: int, q: int) -> bool {
        if self.is_buy {
            p > q
        } else {
            p < q
        }
    }

    /// Whether a resting price `p` on this side crosses an incoming
    /// opposing order with the given limit (market orders cross anything).
    pub open spec fn crosses(self, limit: Option<int>, p: int) -> bool {
        match limit {
            None => true,
            Some(l) => if self.is_buy {
                p >= l
            } else {
                p <= l
            },
        }
    }

    /// Shape invariant: prices stay in `[1, i64::MAX]` across the whole
    /// range and the two extremal levels are nonempty.
    pub open spec fn wf(self) -> bool {
        self.spec_is_empty() || {
            &&& 1 <= self.best
            &&& 1 <= self.worst() <= i64::MAX
            &&& self.levels@[0]@.len() > 0
            &&& self.levels@[self.levels@.len() - 1]@.len() > 0
        }
    }

    pub fn new(is_buy: bool) -> (r: Ladder)
        ensures
            r.wf(),
            r.spec_is_empty(),
            r.is_buy == is_buy,
    {
        Ladder { is_buy, best: 0, levels: Vec::new() }
    }

    pub fn is_empty(&self) -> (r: bool)
        ensures
            r == self.spec_is_empty(),
    {
        self.levels.len() == 0
    }

    /// The best price, if anything rests.
    pub fn best_price(&self) -> (r: Option<i64>)
        requires
            self.wf(),
        ensures
            self.spec_is_empty() ==> r is None,
            !self.spec_is_empty() ==> r == Some(self.best),
    {
        if self.levels.len() == 0 {
            None
        } else {
            Some(self.best)
        }
    }

    /// The worst price, if anything rests.
    pub fn worst_price(&self) -> (r: Option<i64>)
        requires
            self.wf(),
        ensures
            self.spec_is_empty() ==> r is None,
            !self.spec_is_empty() ==> r == Some(self.worst() as i64),
    {
        if self.levels.len() == 0 {
            None
        } else {
            let n: usize = self.levels.len();
            if self.is_buy {
                Some(self.best - (n as i64 - 1))
            } else {
                Some(self.best + (n as i64 - 1))
            }
        }
    }

    /// Open a strictly better level (with empty interior slots for any
    /// price gap) holding just `id`. The previous queues all keep their
    /// prices and contents.
    pub fn insert_new_best(&mut self, id: i64, p: i64)
        requires
            old(self).wf(),
            1 <= p,
            old(self).spec_is_empty() || old(self).strictly_better(p as int, old(self).best as int),
        ensures
            final(self).wf(),
            final(self).is_buy == old(self).is_buy,
            !final(self).spec_is_empty(),
            final(self).best == p,
            final(self).worst() == if old(self).spec_is_empty() {
                p as int
            } else {
                old(self).worst()
            },
            final(self).queue_at(p as int) == seq![id],
            forall|q: int| q != p ==> final(self).queue_at(q) == old(self).queue_at(q),
    {
        let ghost pre: Ladder = *self;
        let mut q0: Vec<i64> = Vec::new();
        q0.push(id);
        if self.levels.len() == 0 {
            self.levels.push(q0);
            self.best = p;
            assert(self.queue_at(p as int) =~= seq![id]);
            assert forall|q: int| q != p implies self.queue_at(q) == pre.queue_at(q) by {
                assert(!self.in_range(q));
                assert(self.queue_at(q) =~= pre.queue_at(q));
            }
        } else {
            let d: i64 = if self.is_buy {
                p - self.best
            } else {
                self.best - p
            };
            let mut nl: Vec<Vec<i64>> = Vec::new();
            nl.push(q0);
            let mut k: i64 = 1;
            while k < d
                invariant
                    1 <= k <= d,
                    nl@.len() == k,
                    nl@[0]@ =~= seq![id],
                    forall|j: int| 1 <= j < k ==> (#[trigger] nl@[j])@.len() == 0,
                decreases d - k,
            {
                let e: Vec<i64> = Vec::new();
                nl.push(e);
                k = k + 1;
            }
            nl.append(&mut self.levels);
            self.levels = nl;
            self.best = p;
            assert(self.levels@.len() == d + pre.levels@.len());
            assert(self.queue_at(p as int) =~= seq![id]);
            assert(self.worst() == pre.worst());
            assert forall|q: int| q != p implies self.queue_at(q) == pre.queue_at(q) by {
                if pre.in_range(q) {
                    assert(self.levels@[self.idx_of(q)] == pre.levels@[pre.idx_of(q)]);
                    assert(self.queue_at(q) =~= pre.queue_at(q));
                } else if self.in_range(q) {
                    assert(1 <= self.idx_of(q) < d);
                    assert(self.queue_at(q) =~= Seq::<i64>::empty());
                } else {
                    assert(self.queue_at(q) =~= pre.queue_at(q));
                }
            }
            assert(self.levels@[self.levels@.len() - 1]@.len() > 0);
        }
    }

    /// Open a strictly worse level (with empty interior slots for any
    /// price gap) holding just `id`. The best price does not move.
    pub fn insert_new_worst(&mut self, id: i64, p: i64)
        requires
            old(self).wf(),
            !old(self).spec_is_empty(),
            1 <= p <= i64::MAX,
            old(self).strictly_better(old(self).worst(), p as int),
        ensures
            final(self).wf(),
            final(self).is_buy == old(self).is_buy,
            !final(self).spec_is_empty(),
            final(self).best == old(self).best,
            final(self).worst() == p as int,
            final(self).queue_at(p as int) == seq![id],
            forall|q: int| q != p ==> final(self).queue_at(q) == old(self).queue_at(q),
    {
        let ghost pre: Ladder = *self;
        let d: i64 = if self.is_buy {
            (self.best - (self.levels.len() as i64 - 1)) - p
        } else {
            p - (self.best + (self.levels.len() as i64 - 1))
        };
        assert(d == if pre.is_buy { pre.worst() - p } else { p - pre.worst() });
        assert(d >= 1);
        let mut k: i64 = 1;
        while k < d
            invariant
                1 <= k <= d,
                self.is_buy == pre.is_buy,
                self.best == pre.best,
                self.levels@.len() == pre.levels@.len() + (k - 1),
                forall|j: int| 0 <= j < pre.levels@.len() ==> self.levels@[j] == pre.levels@[j],
                forall|j: int|
                    pre.levels@.len() <= j < self.levels@.len() ==> (#[trigger] self.levels@[j])@.len() == 0,
            decreases d - k,
        {
            let e: Vec<i64> = Vec::new();
            self.levels.push(e);
            k = k + 1;
        }
        let mut ql: Vec<i64> = Vec::new();
        ql.push(id);
        self.levels.push(ql);
        assert(self.levels@.len() == pre.levels@.len() + d);
        assert(self.worst() == p as int);
        assert(self.queue_at(p as int) =~= seq![id]);
        assert forall|q: int| q != p implies self.queue_at(q) == pre.queue_at(q) by {
            if pre.in_range(q) {
                assert(self.levels@[self.idx_of(q)] == pre.levels@[pre.idx_of(q)]);
                assert(self.queue_at(q) =~= pre.queue_at(q));
            } else if self.in_range(q) {
                assert(pre.levels@.len() <= self.idx_of(q) < self.levels@.len() - 1);
                assert(self.queue_at(q) =~= Seq::<i64>::empty());
            } else {
                assert(self.queue_at(q) =~= pre.queue_at(q));
            }
        }
        assert(self.levels@[0]@.len() > 0);
    }

    /// Enqueue `id` at the back of the existing slot for price `p`, which
    /// lies inside the ladder's current range.
    pub fn insert_within(&mut self, id: i64, p: i64)
        requires
            old(self).wf(),
            old(self).in_range(p as int),
        ensures
            final(self).wf(),
            final(self).is_buy == old(self).is_buy,
            !final(self).spec_is_empty(),
            final(self).best == old(self).best,
            final(self).worst() == old(self).worst(),
            final(self).queue_at(p as int) == old(self).queue_at(p as int).push(id),
            forall|q: int| q != p ==> final(self).queue_at(q) == old(self).queue_at(q),
    {
        let ghost pre: Ladder = *self;
        let n: usize = self.levels.len();
        let diff: i64 = if self.is_buy {
            self.best - p
        } else {
            p - self.best
        };
        assert(0 <= diff && diff < n as int);
        let i: usize = diff as usize;
        assert(i == pre.idx_of(p as int));
        self.levels[i].push(id);
        assert(self.queue_at(p as int) =~= pre.queue_at(p as int).push(id));
        assert forall|q: int| q != p implies self.queue_at(q) == pre.queue_at(q) by {
            if pre.in_range(q) {
                assert(self.levels@[self.idx_of(q)] == pre.levels@[pre.idx_of(q)]);
                assert(self.queue_at(q) =~= pre.queue_at(q));
            } else {
                assert(self.queue_at(q) =~= pre.queue_at(q));
            }
        }
        assert(self.levels@[0]@.len() > 0);
        assert(self.levels@[self.levels@.len() - 1]@.len() > 0);
    }

    /// The oldest id at the best price.
    pub fn front_of_best(&self) -> (r: i64)
        requires
            self.wf(),
            !self.spec_is_empty(),
        ensures
            r == self.queue_at(self.best as int)[0],
    {
        self.levels[0][0]
    }

    /// Drop leading and trailing empty levels so the extremal levels are
    /// nonempty again (or the ladder is empty); the best price advances
    /// over the dropped slots. Every queue keeps its price and contents.
    fn trim(&mut self)
        requires
            old(self).levels@.len() > 0,
            1 <= old(self).best,
            1 <= old(self).worst() <= i64::MAX,
        ensures
            final(self).wf(),
            final(self).is_buy == old(self).is_buy,
            forall|q: int| final(self).queue_at(q) == old(self).queue_at(q),
            final(self).spec_is_empty() <==> forall|j: int|
                0 <= j < old(self).levels@.len() ==> (#[trigger] old(self).levels@[j])@.len() == 0,
    {
        let ghost pre: Ladder = *self;
        while self.levels.len() > 0 && self.levels[0].len() == 0
            invariant
                self.is_buy == pre.is_buy,
                self.levels@.len() <= pre.levels@.len(),
                self.levels@ =~= pre.levels@.skip(pre.levels@.len() - self.levels@.len()),
                self.levels@.len() > 0 ==> {
                    &&& self.best == pre.price_of(pre.levels@.len() - self.levels@.len())
                    &&& self.worst() == pre.worst()
                    &&& 1 <= self.worst() <= i64::MAX
                },
                forall|j: int|
                    0 <= j < pre.levels@.len() - self.levels@.len() ==> (#[trigger] pre.levels@[j])@.len()
                        == 0,
            decreases self.levels@.len(),
        {
            self.levels.remove(0);
            if self.levels.len() > 0 {
                if self.is_buy {
                    self.best = self.best - 1;
                } else {
                    self.best = self.best + 1;
                }
            }
        }
        let ghost mid: Ladder = *self;
        assert forall|q: int| mid.queue_at(q) == pre.queue_at(q) by {
            if mid.in_range(q) {
                assert(mid.levels@[mid.idx_of(q)] == pre.levels@[pre.idx_of(q)]);
                assert(mid.queue_at(q) =~= pre.queue_at(q));
            } else if pre.in_range(q) {
                assert(pre.levels@[pre.idx_of(q)]@.len() == 0);
                assert(mid.queue_at(q) =~= pre.queue_at(q));
            } else {
                assert(mid.queue_at(q) =~= pre.queue_at(q));
            }
        }
        while self.levels.len() > 0 && self.levels[self.levels.len() - 1].len() == 0
            invariant
                self.is_buy == mid.is_buy,
                self.best == mid.best,
                self.levels@.len() <= mid.levels@.len(),
                self.levels@ =~= mid.levels@.take(self.levels@.len() as int),
                forall|j: int|
                    self.levels@.len() <= j < mid.levels@.len() ==> (#[trigger] mid.levels@[j])@.len()
                        == 0,
                self.levels@.len() > 0 ==> self.levels@[0]@.len() > 0,
            decreases self.levels@.len(),
        {
            self.levels.pop();
        }
        assert forall|q: int| self.queue_at(q) == mid.queue_at(q) by {
            if self.in_range(q) {
                assert(self.levels@[self.idx_of(q)] == mid.levels@[mid.idx_of(q)]);
                assert(self.queue_at(q) =~= mid.queue_at(q));
            } else if mid.in_range(q) {
                assert(mid.levels@[mid.idx_of(q)]@.len() == 0);
                assert(self.queue_at(q) =~= mid.queue_at(q));
            } else {
                assert(self.queue_at(q) =~= mid.queue_at(q));
            }
        }
        proof {
            if !self.spec_is_empty() {
                assert(1 <= self.best);
                assert(1 <= self.worst() <= i64::MAX);
            }
            if self.spec_is_empty() {
                assert forall|j: int|
                    0 <= j < pre.levels@.len() implies (#[trigger] pre.levels@[j])@.len() == 0 by {
                    let q = pre.price_of(j);
                    assert(pre.queue_at(q) == pre.levels@[j]@);
                    assert(self.queue_at(q) =~= Seq::<i64>::empty());
                }
            } else {
                let j0 = pre.levels@.len() - mid.levels@.len();
                assert(pre.levels@[j0]@.len() > 0);
            }
        }
    }

    /// Dequeue the oldest id at the best price, trimming any levels this
    /// empties. All other queues keep their prices and contents.
    pub fn pop_front_best(&mut self)
        requires
            old(self).wf(),
            !old(self).spec_is_empty(),
        ensures
            final(self).wf(),
            final(self).is_buy == old(self).is_buy,
            final(self).queue_at(old(self).best as int) == old(self).queue_at(
                old(self).best as int,
            ).drop_first(),
            forall|q: int|
                q != old(self).best ==> final(self).queue_at(q) == old(self).queue_at(q),
            !final(self).spec_is_empty() ==> {
                &&& old(self).strictly_better(old(self).best as int, final(self).best as int)
                    || final(self).best == old(self).best
                &&& final(self).worst() == old(self).worst()
            },
    {
        let ghost pre: Ladder = *self;
        self.levels[0].remove(0);
        let ghost mid: Ladder = *self;
        assert(mid.queue_at(pre.best as int) =~= pre.queue_at(pre.best as int).drop_first());
        assert forall|q: int| q != pre.best implies mid.queue_at(q) == pre.queue_at(q) by {
            if pre.in_range(q) {
                assert(mid.levels@[mid.idx_of(q)] == pre.levels@[pre.idx_of(q)]);
                assert(mid.queue_at(q) =~= pre.queue_at(q));
            } else {
                assert(mid.queue_at(q) =~= pre.queue_at(q));
            }
        }
        self.trim();
        proof {
            if !self.spec_is_empty() {
                assert(self.queue_at(self.best as int) == self.levels@[0]@);
                assert(self.levels@[0]@.len() > 0);
                if pre.strictly_better(self.best as int, pre.best as int) {
                    assert(!mid.in_range(self.best as int));
                    assert(mid.queue_at(self.best as int) == Seq::<i64>::empty());
                    assert(false);
                }
                // The worst price survives: the old worst level is untouched
                // unless it was also the best level, and an empty remainder
                // would have emptied the whole ladder.
                assert(self.queue_at(self.worst()) == self.levels@[self.levels@.len() - 1]@);
                assert(self.queue_at(self.worst()).len() > 0);
                assert(mid.in_range(self.worst()));
                if pre.levels@.len() > 1 {
                    assert(mid.queue_at(pre.worst()) == pre.queue_at(pre.worst()));
                    assert(pre.queue_at(pre.worst()) == pre.levels@[pre.levels@.len() - 1]@);
                    assert(self.queue_at(pre.worst()).len() > 0);
                    assert(self.in_range(pre.worst()));
                    assert(self.worst() == pre.worst());
                } else {
                    assert(pre.worst() == pre.best);
                    assert forall|q: int| q != pre.best implies self.queue_at(q).len() == 0 by {
                        assert(self.queue_at(q) == mid.queue_at(q));
                        assert(mid.queue_at(q) == pre.queue_at(q));
                        assert(!pre.in_range(q));
                    }
                    assert(self.worst() == pre.worst());
                }
            }
        }
    }

    /// Remove one occurrence of `id` from the queue at price `p` (the
    /// queues hold no duplicates, so this removes `id` entirely), trimming
    /// any extremal level this empties.
    pub fn remove_id(&mut self, id: i64, p: i64)
        requires
            old(self).wf(),
            old(self).in_range(p as int),
            old(self).queue_at(p as int).contains(id),
            forall|k1: int, k2: int|
                0 <= k1 < k2 < old(self).queue_at(p as int).len() ==> old(self).queue_at(
                    p as int,
                )[k1] != old(self).queue_at(p as int)[k2],
        ensures
            final(self).wf(),
            final(self).is_buy == old(self).is_buy,
            final(self).queue_at(p as int) == old(self).queue_at(p as int).remove_value(id),
            forall|q: int| q != p ==> final(self).queue_at(q) == old(self).queue_at(q),
    {
        let ghost pre: Ladder = *self;
        let nl: usize = self.levels.len();
        let diff: i64 = if self.is_buy {
            self.best - p
        } else {
            p - self.best
        };
        assert(0 <= diff && diff < nl as int);
        let i: usize = diff as usize;
        assert(i == pre.idx_of(p as int));
        let n: usize = self.levels[i].len();
        let mut j: usize = 0;
        while j < n && self.levels[i][j] != id
            invariant
                *self == pre,
                i == pre.idx_of(p as int),
                n == pre.queue_at(p as int).len(),
                0 <= j <= n,
                forall|k: int| 0 <= k < j ==> pre.queue_at(p as int)[k] != id,
                pre.queue_at(p as int).contains(id),
            decreases n - j,
        {
            j = j + 1;
        }
        proof {
            if j == n {
                let w = choose|w: int|
                    0 <= w < pre.queue_at(p as int).len() && pre.queue_at(p as int)[w] == id;
                assert(false);
            }
        }
        assert(pre.queue_at(p as int)[j as int] == id);
        self.levels[i].remove(j);
        let ghost mid: Ladder = *self;
        proof {
            let q0 = pre.queue_at(p as int);
            assert(mid.queue_at(p as int) =~= q0.remove(j as int));
            assert(q0.index_of_first(id) == Some(j as int)) by {
                if let Some(w) = q0.index_of_first(id) {
                    q0.index_of_first_ensures(id);
                    assert(!(w < j) && !(j < w));
                } else {
                    q0.index_of_first_ensures(id);
                }
            }
            assert(q0.remove_value(id) == q0.remove(j as int));
        }
        assert forall|q: int| q != p implies mid.queue_at(q) == pre.queue_at(q) by {
            if pre.in_range(q) {
                assert(mid.levels@[mid.idx_of(q)] == pre.levels@[pre.idx_of(q)]);
                assert(mid.queue_at(q) =~= pre.queue_at(q));
            } else {
                assert(mid.queue_at(q) =~= pre.queue_at(q));
            }
        }
        self.trim();
    }
}

} // verus!
