//! The matching rules, stated over the values of orders and trades.
//!
//! One side of a book is the sequence of its resting orders in priority
//! order: best price first and, within one price, the earlier order first.

use crate::models::order::OrderView;
use crate::models::trade::TradeView;
use vstd::prelude::*;

verus! {

/// Whether a taker with limit price `limit` may trade against a resting order
/// at `price`: a buyer pays at most its limit, a seller takes at least its limit.
pub open spec fn crosses(buy_incoming: bool, limit: int, price: int) -> bool {
    if buy_incoming {
        price <= limit
    } else {
        price >= limit
    }
}

/// Whether `p` is a strictly better resting price than `q` on one side of the
/// book: the higher bid, the lower offer.
pub open spec fn better(is_buy: bool, p: int, q: int) -> bool {
    if is_buy {
        p > q
    } else {
        p < q
    }
}

/// The smaller of two quantities.
pub open spec fn min_quantity(a: int, b: int) -> int {
    if a <= b {
        a
    } else {
        b
    }
}

/// The trade of `quantity` between the taker `taker_id` and the resting order
/// `maker`, at the maker's price.
pub open spec fn fill(taker_id: Seq<char>, buy_incoming: bool, maker: OrderView, quantity: int)
    -> TradeView {
    TradeView {
        buy_order_id: if buy_incoming {
            taker_id
        } else {
            maker.id
        },
        sell_order_id: if buy_incoming {
            maker.id
        } else {
            taker_id
        },
        price: maker.price,
        quantity,
    }
}

/// What matching one taker against one side of the book produces.
pub struct MatchOutcome {
    /// The trades, in the order in which they were made.
    pub trades: Seq<TradeView>,
    /// The orders still resting on the side, in priority order.
    pub resting: Seq<OrderView>,
    /// The quantity of the taker that found no counterparty.
    pub remaining: int,
}

/// Whether the taker trades with the first resting order: it has quantity
/// left, an order rests, and the price of that order crosses its limit.
pub open spec fn can_trade(taker: OrderView, buy_incoming: bool, resting: Seq<OrderView>) -> bool {
    &&& taker.quantity > 0
    &&& resting.len() > 0
    &&& crosses(buy_incoming, taker.price, resting[0].price)
}

/// Matches `taker` against `resting`, the orders of the opposite side in
/// priority order.
///
/// As long as the taker can trade, it trades with the first resting order:
/// the smaller of the two quantities, at the resting order's price. A resting
/// order filled completely leaves the side; one filled in part stays at the
/// front, and the taker is done. A taker without quantity trades nothing.
pub open spec fn match_spec(taker: OrderView, buy_incoming: bool, resting: Seq<OrderView>)
    -> MatchOutcome
    decreases resting.len(),
{
    if !can_trade(taker, buy_incoming, resting) {
        MatchOutcome { trades: Seq::empty(), resting, remaining: taker.quantity }
    } else {
        let maker = resting[0];
        let quantity = min_quantity(taker.quantity, maker.quantity);
        let trade = fill(taker.id, buy_incoming, maker, quantity);
        if quantity < maker.quantity {
            MatchOutcome {
                trades: seq![trade],
                resting: resting.update(0, maker.with_quantity(maker.quantity - quantity)),
                remaining: 0,
            }
        } else {
            let rest = match_spec(
                taker.with_quantity(taker.quantity - quantity),
                buy_incoming,
                resting.skip(1),
            );
            MatchOutcome {
                trades: seq![trade] + rest.trades,
                resting: rest.resting,
                remaining: rest.remaining,
            }
        }
    }
}

/// The place at which `order` comes to rest on `resting`: the number of
/// leading orders whose price is as good as its own or better.
pub open spec fn rest_position(resting: Seq<OrderView>, order: OrderView) -> nat
    decreases resting.len(),
{
    if resting.len() == 0 || better(order.is_buy, order.price, resting[0].price) {
        0
    } else {
        1 + rest_position(resting.skip(1), order)
    }
}

/// Puts `order` to rest on its side `resting`: behind every order whose price
/// is as good as its own or better, and ahead of every order at a worse price.
pub open spec fn rest_spec(resting: Seq<OrderView>, order: OrderView) -> Seq<OrderView>
    decreases resting.len(),
{
    if resting.len() == 0 || better(order.is_buy, order.price, resting[0].price) {
        seq![order] + resting
    } else {
        seq![resting[0]] + rest_spec(resting.skip(1), order)
    }
}

/// One side of a book in priority order: every order is on this side, has a
/// price that is not negative and quantity left, and no order stands behind
/// one at a worse price.
pub open spec fn side_wf(side: Seq<OrderView>, is_buy: bool) -> bool {
    &&& forall|i: int|
        0 <= i < side.len() ==> {
            &&& (#[trigger] side[i]).is_buy == is_buy
            &&& side[i].quantity > 0
            &&& side[i].price >= 0
        }
    &&& forall|i: int, j: int|
        0 <= i < j < side.len() ==> !better(
            is_buy,
            (#[trigger] side[j]).price,
            (#[trigger] side[i]).price,
        )
}

/// The mathematical value of an order book: each side as the sequence of its
/// resting orders in priority order, and the trades made so far.
pub struct BookView {
    pub buys: Seq<OrderView>,
    pub sells: Seq<OrderView>,
    pub trades: Seq<TradeView>,
}

impl BookView {
    /// The book without orders or trades.
    pub open spec fn empty() -> BookView {
        BookView { buys: Seq::empty(), sells: Seq::empty(), trades: Seq::empty() }
    }

    /// Both sides are in priority order and the best bid is below the best offer.
    pub open spec fn wf(self) -> bool {
        &&& side_wf(self.buys, true)
        &&& side_wf(self.sells, false)
        &&& self.buys.len() > 0 && self.sells.len() > 0 ==> self.buys[0].price
            < self.sells[0].price
    }

    /// The book after `order` was submitted: the order is matched against the
    /// opposite side, the trades are appended to the log, and what is left of
    /// the order rests on its own side.
    pub open spec fn add_order(self, order: OrderView) -> BookView {
        if order.is_buy {
            let m = match_spec(order, true, self.sells);
            BookView {
                buys: if m.remaining > 0 {
                    rest_spec(self.buys, order.with_quantity(m.remaining))
                } else {
                    self.buys
                },
                sells: m.resting,
                trades: self.trades + m.trades,
            }
        } else {
            let m = match_spec(order, false, self.buys);
            BookView {
                buys: m.resting,
                sells: if m.remaining > 0 {
                    rest_spec(self.sells, order.with_quantity(m.remaining))
                } else {
                    self.sells
                },
                trades: self.trades + m.trades,
            }
        }
    }

    /// Submitting an acceptable order to a book in order leaves a book in
    /// order: both sides stay in priority order, and the best bid stays below
    /// the best offer.
    pub proof fn lemma_add_order_wf(self, order: OrderView)
        requires
            self.wf(),
            order.is_valid(),
        ensures
            self.add_order(order).wf(),
    {
        let (own, opposite) = if order.is_buy {
            (self.buys, self.sells)
        } else {
            (self.sells, self.buys)
        };
        lemma_match_wf(order, order.is_buy, opposite);
        let left = match_spec(order, order.is_buy, opposite).remaining;
        if left > 0 {
            lemma_rest_wf(own, order.with_quantity(left));
        }
    }
}

/// Matching against `front + back`, where every order of `front` crosses the
/// taker's limit, is matching against `front` and then, with what is left of
/// the taker, against `back`. While orders of `front` remain, the taker has
/// nothing left.
pub proof fn lemma_match_concat(
    taker: OrderView,
    buy_incoming: bool,
    front: Seq<OrderView>,
    back: Seq<OrderView>,
)
    requires
        forall|i: int|
            0 <= i < front.len() ==> crosses(
                buy_incoming,
                taker.price,
                (#[trigger] front[i]).price,
            ),
    ensures
        ({
            let first = match_spec(taker, buy_incoming, front);
            let second = match_spec(taker.with_quantity(first.remaining), buy_incoming, back);
            &&& match_spec(taker, buy_incoming, front + back) == (MatchOutcome {
                trades: first.trades + second.trades,
                resting: first.resting + second.resting,
                remaining: second.remaining,
            })
            &&& first.resting.len() > 0 ==> first.remaining <= 0
        }),
    decreases front.len(),
{
    if can_trade(taker, buy_incoming, front) {
        let maker = front[0];
        let quantity = min_quantity(taker.quantity, maker.quantity);
        if quantity < maker.quantity {
            let left = maker.with_quantity(maker.quantity - quantity);
            assert(front.update(0, left) + back =~= (front + back).update(0, left));
        } else {
            let next = taker.with_quantity(taker.quantity - quantity);
            assert((front + back).skip(1) =~= front.skip(1) + back);
            lemma_match_concat(next, buy_incoming, front.skip(1), back);
            let trade = fill(taker.id, buy_incoming, maker, quantity);
            let inner = match_spec(next, buy_incoming, front.skip(1));
            let second = match_spec(taker.with_quantity(inner.remaining), buy_incoming, back);
            assert(seq![trade] + (inner.trades + second.trades) =~= (seq![trade] + inner.trades)
                + second.trades);
        }
    } else {
        assert(front.len() == 0 ==> front + back =~= back);
    }
}

/// Matching keeps the opposite side in priority order and takes its orders
/// from the front: the best price left is no better than the best price
/// before. A taker with quantity left faces no order that crosses its limit.
pub proof fn lemma_match_wf(taker: OrderView, buy_incoming: bool, resting: Seq<OrderView>)
    requires
        side_wf(resting, !buy_incoming),
    ensures
        ({
            let m = match_spec(taker, buy_incoming, resting);
            &&& side_wf(m.resting, !buy_incoming)
            &&& m.resting.len() > 0 ==> resting.len() > 0 && !better(
                !buy_incoming,
                m.resting[0].price,
                resting[0].price,
            )
            &&& m.remaining > 0 && m.resting.len() > 0 ==> !crosses(
                buy_incoming,
                taker.price,
                m.resting[0].price,
            )
        }),
    decreases resting.len(),
{
    if can_trade(taker, buy_incoming, resting) {
        let quantity = min_quantity(taker.quantity, resting[0].quantity);
        if quantity >= resting[0].quantity {
            let tail = resting.skip(1);
            lemma_side_wf_skip(resting, !buy_incoming, 1);
            lemma_match_wf(taker.with_quantity(taker.quantity - quantity), buy_incoming, tail);
            if tail.len() > 0 {
                assert(tail[0] == resting[1]);
            }
        }
    }
}

/// What is left of a side in priority order when its first `n` orders are
/// gone is a side in priority order.
pub proof fn lemma_side_wf_skip(side: Seq<OrderView>, is_buy: bool, n: int)
    requires
        side_wf(side, is_buy),
        0 <= n <= side.len(),
    ensures
        side_wf(side.skip(n), is_buy),
{
    let tail = side.skip(n);
    assert forall|i: int| 0 <= i < tail.len() implies {
        &&& (#[trigger] tail[i]).is_buy == is_buy
        &&& tail[i].quantity > 0
        &&& tail[i].price >= 0
    } by {
        assert(tail[i] == side[i + n]);
    }
    assert forall|i: int, j: int| 0 <= i < j < tail.len() implies !better(
        is_buy,
        (#[trigger] tail[j]).price,
        (#[trigger] tail[i]).price,
    ) by {
        assert(tail[i] == side[i + n]);
        assert(tail[j] == side[j + n]);
    }
}

/// Resting an order inserts it at its place and moves no other order: the
/// orders ahead of it have prices as good as its own or better, the order
/// right behind it has a worse price.
pub proof fn lemma_rest_insert(resting: Seq<OrderView>, order: OrderView)
    ensures
        rest_position(resting, order) <= resting.len(),
        rest_spec(resting, order) == resting.insert(rest_position(resting, order) as int, order),
        forall|i: int|
            0 <= i < rest_position(resting, order) ==> !better(
                order.is_buy,
                order.price,
                (#[trigger] resting[i]).price,
            ),
        rest_position(resting, order) < resting.len() ==> better(
            order.is_buy,
            order.price,
            resting[rest_position(resting, order) as int].price,
        ),
    decreases resting.len(),
{
    if resting.len() == 0 || better(order.is_buy, order.price, resting[0].price) {
        assert(seq![order] + resting =~= resting.insert(0, order));
    } else {
        let tail = resting.skip(1);
        lemma_rest_insert(tail, order);
        let at = rest_position(tail, order) as int;
        assert(seq![resting[0]] + tail.insert(at, order) =~= resting.insert(at + 1, order));
        assert forall|i: int| 0 <= i < at + 1 implies !better(
            order.is_buy,
            order.price,
            (#[trigger] resting[i]).price,
        ) by {
            if i > 0 {
                assert(resting[i] == tail[i - 1]);
            }
        }
        if at < tail.len() {
            assert(tail[at] == resting[at + 1]);
        }
    }
}

/// Resting an order with quantity left keeps a side in priority order.
pub proof fn lemma_rest_wf(resting: Seq<OrderView>, order: OrderView)
    requires
        side_wf(resting, order.is_buy),
        order.quantity > 0,
        order.price >= 0,
    ensures
        side_wf(rest_spec(resting, order), order.is_buy),
        rest_spec(resting, order).len() == resting.len() + 1,
        rest_spec(resting, order)[0].price == (if resting.len() == 0 || better(
            order.is_buy,
            order.price,
            resting[0].price,
        ) {
            order.price
        } else {
            resting[0].price
        }),
{
    lemma_rest_insert(resting, order);
    let at = rest_position(resting, order) as int;
    let rested = rest_spec(resting, order);
    assert forall|i: int| 0 <= i < rested.len() implies {
        &&& (#[trigger] rested[i]).is_buy == order.is_buy
        &&& rested[i].quantity > 0
        &&& rested[i].price >= 0
    } by {
        if i < at {
            assert(rested[i] == resting[i]);
        } else if i > at {
            assert(rested[i] == resting[i - 1]);
        }
    }
    assert forall|i: int, j: int| 0 <= i < j < rested.len() implies !better(
        order.is_buy,
        (#[trigger] rested[j]).price,
        (#[trigger] rested[i]).price,
    ) by {
        let before = if i < at { i } else { i - 1 };
        let after = if j < at { j } else { j - 1 };
        if j == at {
            assert(rested[i] == resting[i]);
        } else if i == at {
            assert(rested[j] == resting[j - 1]);
            assert(j - 1 == at || !better(order.is_buy, resting[j - 1].price, resting[at].price));
        } else {
            assert(rested[i] == resting[before]);
            assert(rested[j] == resting[after]);
        }
    }
}

/// An order comes to rest behind a run of orders none of which has a worse
/// price than its own.
pub proof fn lemma_rest_behind(front: Seq<OrderView>, back: Seq<OrderView>, order: OrderView)
    requires
        forall|i: int|
            0 <= i < front.len() ==> !better(
                order.is_buy,
                order.price,
                (#[trigger] front[i]).price,
            ),
    ensures
        rest_spec(front + back, order) == front + rest_spec(back, order),
    decreases front.len(),
{
    if front.len() > 0 {
        assert((front + back).skip(1) =~= front.skip(1) + back);
        lemma_rest_behind(front.skip(1), back, order);
    }
}

} // verus!
