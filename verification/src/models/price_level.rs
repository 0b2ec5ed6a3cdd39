use crate::models::matching::{better, side_wf};
use crate::models::order::{Order, OrderView};
use std::collections::VecDeque;
use vstd::prelude::*;

verus! {

/// The orders resting at one price on one side of the book, oldest first.
#[derive(Debug)]
pub struct PriceLevel {
    pub price: i64,
    pub orders: VecDeque<Order>,
}

/// The values of a queue of orders.
pub open spec fn order_views(orders: Seq<Order>) -> Seq<OrderView> {
    orders.map_values(|o: Order| o@)
}

impl View for PriceLevel {
    type V = Seq<OrderView>;

    /// The queue of the level, oldest order first.
    open spec fn view(&self) -> Seq<OrderView> {
        order_views(self.orders@)
    }
}

impl PriceLevel {
    /// Every order of the queue is on the side `is_buy`, rests at the level's
    /// price, which is not negative, and has quantity left.
    pub open spec fn orders_wf(&self, is_buy: bool) -> bool {
        &&& self.price >= 0
        &&& forall|i: int|
            0 <= i < self.orders@.len() ==> {
                &&& (#[trigger] self.orders@[i]).price == self.price
                &&& self.orders@[i].is_buy == is_buy
                &&& self.orders@[i].quantity > 0
            }
    }

    /// A level of a book: its queue is in order and not empty.
    pub open spec fn wf(&self, is_buy: bool) -> bool {
        &&& self.orders_wf(is_buy)
        &&& self.orders@.len() > 0
    }
}

impl PriceLevel {
    /// Checks that the level is a level of the side `is_buy` of a book.
    pub fn is_well_formed(&self, is_buy: bool) -> (ok: bool)
        ensures
            ok == self.wf(is_buy),
    {
        if self.price < 0 || self.orders.len() == 0 {
            return false;
        }
        let mut at: usize = 0;
        while at < self.orders.len()
            invariant
                at <= self.orders@.len(),
                self.price >= 0,
                forall|i: int|
                    0 <= i < at ==> {
                        &&& (#[trigger] self.orders@[i]).price == self.price
                        &&& self.orders@[i].is_buy == is_buy
                        &&& self.orders@[i].quantity > 0
                    },
            decreases self.orders@.len() - at,
        {
            let order = &self.orders[at];
            if order.price != self.price || order.is_buy != is_buy || order.quantity <= 0 {
                return false;
            }
            at = at + 1;
        }
        true
    }
}

/// Checks that `levels` are the levels of the side `is_buy` of a book: best
/// price first, each price once, no level empty or out of order.
pub fn levels_well_formed(levels: &Vec<PriceLevel>, is_buy: bool) -> (ok: bool)
    ensures
        ok == levels_wf(levels@, is_buy),
{
    let mut at: usize = 0;
    while at < levels.len()
        invariant
            at <= levels@.len(),
            forall|i: int| 0 <= i < at ==> (#[trigger] levels@[i]).wf(is_buy),
            forall|i: int, j: int|
                0 <= i < j < at ==> better(
                    is_buy,
                    (#[trigger] levels@[i]).price as int,
                    (#[trigger] levels@[j]).price as int,
                ),
        decreases levels@.len() - at,
    {
        if !levels[at].is_well_formed(is_buy) {
            return false;
        }
        if at > 0 {
            let ahead = levels[at - 1].price;
            let here = levels[at].price;
            let sorted = if is_buy {
                ahead > here
            } else {
                ahead < here
            };
            if !sorted {
                return false;
            }
        }
        at = at + 1;
    }
    true
}

/// The levels of one side of a book, best price first: every level is in
/// order, and each price is strictly better than the next.
pub open spec fn levels_wf(levels: Seq<PriceLevel>, is_buy: bool) -> bool {
    &&& forall|i: int| 0 <= i < levels.len() ==> (#[trigger] levels[i]).wf(is_buy)
    &&& forall|i: int, j: int|
        0 <= i < j < levels.len() ==> better(
            is_buy,
            (#[trigger] levels[i]).price as int,
            (#[trigger] levels[j]).price as int,
        )
}

/// The orders of all levels in priority order: level by level, and within a
/// level the oldest order first.
pub open spec fn flatten(levels: Seq<PriceLevel>) -> Seq<OrderView>
    decreases levels.len(),
{
    if levels.len() == 0 {
        Seq::empty()
    } else {
        levels[0]@ + flatten(levels.skip(1))
    }
}

/// Flattening distributes over concatenation.
pub proof fn lemma_flatten_concat(front: Seq<PriceLevel>, back: Seq<PriceLevel>)
    ensures
        flatten(front + back) == flatten(front) + flatten(back),
    decreases front.len(),
{
    if front.len() == 0 {
        assert(front + back =~= back);
        assert(flatten(front) + flatten(back) =~= flatten(back));
    } else {
        assert((front + back).skip(1) =~= front.skip(1) + back);
        lemma_flatten_concat(front.skip(1), back);
        assert(front[0]@ + (flatten(front.skip(1)) + flatten(back)) =~= (front[0]@ + flatten(
            front.skip(1),
        )) + flatten(back));
    }
}

/// A single level flattens to its queue.
pub proof fn lemma_flatten_one(level: PriceLevel)
    ensures
        flatten(seq![level]) == level@,
{
    assert(seq![level].skip(1) =~= Seq::empty());
    assert(flatten(seq![level].skip(1)) =~= Seq::empty());
    assert(level@ + Seq::empty() =~= level@);
}

/// Where no level has a price worse than `price`, no order has.
pub proof fn lemma_flatten_not_worse(levels: Seq<PriceLevel>, is_buy: bool, price: int)
    requires
        forall|k: int|
            0 <= k < levels.len() ==> {
                &&& (#[trigger] levels[k]).orders_wf(is_buy)
                &&& !better(is_buy, price, levels[k].price as int)
            },
    ensures
        forall|x: int|
            0 <= x < flatten(levels).len() ==> !better(
                is_buy,
                price,
                (#[trigger] flatten(levels)[x]).price,
            ),
    decreases levels.len(),
{
    if levels.len() > 0 {
        let tail = levels.skip(1);
        assert forall|k: int| 0 <= k < tail.len() implies {
            &&& (#[trigger] tail[k]).orders_wf(is_buy)
            &&& !better(is_buy, price, tail[k].price as int)
        } by {
            assert(tail[k] == levels[k + 1]);
        }
        lemma_flatten_not_worse(tail, is_buy, price);
        let head = levels[0]@;
        assert forall|x: int| 0 <= x < flatten(levels).len() implies !better(
            is_buy,
            price,
            (#[trigger] flatten(levels)[x]).price,
        ) by {
            if x < head.len() {
                assert(flatten(levels)[x] == levels[0].orders@[x]@);
            } else {
                assert(flatten(levels)[x] == flatten(tail)[x - head.len()]);
            }
        }
    }
}

/// Levels in order flatten to a side in priority order, which begins with
/// the oldest order of the best level.
pub proof fn lemma_flatten_wf(levels: Seq<PriceLevel>, is_buy: bool)
    requires
        levels_wf(levels, is_buy),
    ensures
        side_wf(flatten(levels), is_buy),
        levels.len() > 0 ==> flatten(levels).len() > 0 && flatten(levels)[0]
            == levels[0].orders@[0]@,
        levels.len() == 0 ==> flatten(levels).len() == 0,
        forall|x: int|
            0 <= x < flatten(levels).len() ==> !better(
                is_buy,
                (#[trigger] flatten(levels)[x]).price,
                levels[0].price as int,
            ),
    decreases levels.len(),
{
    if levels.len() > 0 {
        let tail = levels.skip(1);
        let head = levels[0]@;
        let flat = flatten(levels);
        assert(levels[0].wf(is_buy));
        assert forall|i: int| 0 <= i < tail.len() implies (#[trigger] tail[i]).wf(is_buy) by {
            assert(tail[i] == levels[i + 1]);
        }
        assert forall|i: int, j: int| 0 <= i < j < tail.len() implies better(
            is_buy,
            (#[trigger] tail[i]).price as int,
            (#[trigger] tail[j]).price as int,
        ) by {
            assert(tail[i] == levels[i + 1]);
            assert(tail[j] == levels[j + 1]);
        }
        lemma_flatten_wf(tail, is_buy);
        if tail.len() > 0 {
            assert(tail[0] == levels[1]);
            assert(better(is_buy, levels[0].price as int, levels[1].price as int));
        }
        assert forall|x: int| 0 <= x < flat.len() implies {
            &&& (#[trigger] flat[x]).is_buy == is_buy
            &&& flat[x].quantity > 0
            &&& flat[x].price >= 0
            &&& !better(is_buy, flat[x].price, levels[0].price as int)
            &&& x < head.len() ==> flat[x].price == levels[0].price
            &&& x >= head.len() ==> !better(is_buy, flat[x].price, tail[0].price as int)
        } by {
            if x < head.len() {
                assert(flat[x] == levels[0].orders@[x]@);
            } else {
                assert(flat[x] == flatten(tail)[x - head.len()]);
            }
        }
        assert forall|i: int, j: int| 0 <= i < j < flat.len() implies !better(
            is_buy,
            (#[trigger] flat[j]).price,
            (#[trigger] flat[i]).price,
        ) by {
            if i >= head.len() {
                assert(flat[i] == flatten(tail)[i - head.len()]);
                assert(flat[j] == flatten(tail)[j - head.len()]);
            }
        }
        assert(flat[0] == levels[0].orders@[0]@);
    }
}

} // verus!
