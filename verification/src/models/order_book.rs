use crate::models::clock::now;
use crate::models::matching::{
    better, crosses, fill, lemma_match_concat, lemma_rest_behind, match_spec, rest_spec,
    BookView,
};
use crate::models::order::{Order, OrderError};
use crate::models::price_level::{
    flatten, lemma_flatten_concat, lemma_flatten_not_worse, lemma_flatten_one, lemma_flatten_wf,
    levels_well_formed, levels_wf, PriceLevel,
};
use crate::models::trade::{trade_views, Trade};
use std::collections::VecDeque;
use vstd::prelude::*;

verus! {

/// A limit-order book: the resting orders of both sides and the log of trades.
pub struct OrderBook {
    /// The levels of resting buy orders, highest price first.
    pub buy_orders: Vec<PriceLevel>,
    /// The levels of resting sell orders, lowest price first.
    pub sell_orders: Vec<PriceLevel>,
    /// Every trade made so far, oldest first.
    pub trades: VecDeque<Trade>,
}

impl View for OrderBook {
    type V = BookView;

    open spec fn view(&self) -> BookView {
        BookView {
            buys: flatten(self.buy_orders@),
            sells: flatten(self.sell_orders@),
            trades: trade_views(self.trades@),
        }
    }
}

impl OrderBook {
    /// The book is in order: on each side the levels are sorted by price, best
    /// first, no level is empty, every resting order has quantity left, and
    /// the best bid is below the best offer.
    pub open spec fn wf(&self) -> bool {
        &&& levels_wf(self.buy_orders@, true)
        &&& levels_wf(self.sell_orders@, false)
        &&& self@.wf()
    }

    /// Checks that the book is in order. A book made by [`OrderBook::new`] and
    /// changed by [`OrderBook::add_order`] alone always is; the fields are
    /// public, and a book put together by hand may not be.
    pub fn is_well_formed(&self) -> (ok: bool)
        ensures
            ok == self.wf(),
    {
        if !levels_well_formed(&self.buy_orders, true) {
            return false;
        }
        if !levels_well_formed(&self.sell_orders, false) {
            return false;
        }
        proof {
            lemma_flatten_wf(self.buy_orders@, true);
            lemma_flatten_wf(self.sell_orders@, false);
        }
        if self.buy_orders.len() == 0 || self.sell_orders.len() == 0 {
            return true;
        }
        assert(self.buy_orders@[0].wf(true));
        assert(self.sell_orders@[0].wf(false));
        self.buy_orders[0].price < self.sell_orders[0].price
    }

    /// An empty book.
    pub fn new() -> (book: OrderBook)
        ensures
            book.wf(),
            book@ == BookView::empty(),
    {
        let book = OrderBook {
            buy_orders: Vec::new(),
            sell_orders: Vec::new(),
            trades: VecDeque::new(),
        };
        assert(book@.trades =~= Seq::empty());
        book
    }

    /// Submits `order` to the book.
    ///
    /// An order with a negative price or quantity is turned away and the book
    /// stays as it was. Any other order is matched against the opposite side
    /// under price-time priority; each trade is appended to the log at the
    /// resting order's price, and what is left of the order comes to rest on
    /// its own side, behind the orders already resting at its price. An order
    /// without quantity trades nothing and does not rest.
    pub fn add_order(&mut self, order: Order) -> (result: Result<(), OrderError>)
        requires
            old(self).wf(),
        ensures
            final(self).wf(),
            order@.is_valid() ==> result is Ok && final(self)@ == old(self)@.add_order(order@),
            !order@.is_valid() ==> result == Err::<(), OrderError>(OrderError::InvalidOrder)
                && *final(self) == *old(self),
            final(self).trades@.len() >= old(self).trades@.len(),
            final(self).trades@.subrange(0, old(self).trades@.len() as int) == old(self).trades@,
    {
        if !order.is_valid() {
            assert(self.trades@.subrange(0, self.trades@.len() as int) =~= self.trades@);
            return Err(OrderError::InvalidOrder);
        }
        let ghost before = self@;
        let ghost submitted = order@;
        let mut order = order;
        proof {
            lemma_flatten_wf(self.buy_orders@, true);
            lemma_flatten_wf(self.sell_orders@, false);
            before.lemma_add_order_wf(submitted);
        }
        if order.is_buy {
            Self::match_order(&mut self.trades, &mut order, &mut self.sell_orders, true);
            if order.quantity > 0 {
                Self::rest_order(&mut self.buy_orders, order);
            }
        } else {
            Self::match_order(&mut self.trades, &mut order, &mut self.buy_orders, false);
            if order.quantity > 0 {
                Self::rest_order(&mut self.sell_orders, order);
            }
        }
        assert(self@ == before.add_order(submitted));
        Ok(())
    }

    /// Whether a taker with limit `limit` may trade at `price`.
    fn price_crosses(buy_incoming: bool, limit: i64, price: i64) -> (yes: bool)
        ensures
            yes == crosses(buy_incoming, limit as int, price as int),
    {
        if buy_incoming {
            price <= limit
        } else {
            price >= limit
        }
    }

    /// Matches `incoming` against `book`, the levels of the opposite side,
    /// under price-time priority, and appends the trades to `trades`.
    ///
    /// Levels are visited best price first and, within a level, resting orders
    /// oldest first, as long as the level's price crosses the limit of
    /// `incoming` and `incoming` has quantity left. Each trade is made at the
    /// resting order's price and stamped with the time of matching. Resting
    /// orders filled completely leave the book, and so do emptied levels. An
    /// incoming order without quantity trades nothing.
    pub fn match_order(
        trades: &mut VecDeque<Trade>,
        incoming: &mut Order,
        book: &mut Vec<PriceLevel>,
        buy_incoming: bool,
    )
        requires
            levels_wf(old(book)@, !buy_incoming),
        ensures
            levels_wf(final(book)@, !buy_incoming),
            flatten(final(book)@) == match_spec(
                old(incoming)@,
                buy_incoming,
                flatten(old(book)@),
            ).resting,
            final(incoming)@ == old(incoming)@.with_quantity(
                match_spec(old(incoming)@, buy_incoming, flatten(old(book)@)).remaining,
            ),
            final(trades)@.len() >= old(trades)@.len(),
            final(trades)@.subrange(0, old(trades)@.len() as int) == old(trades)@,
            trade_views(final(trades)@) == trade_views(old(trades)@) + match_spec(
                old(incoming)@,
                buy_incoming,
                flatten(old(book)@),
            ).trades,
    {
        let ghost taker0 = incoming@;
        let ghost side0 = flatten(book@);
        let ghost log0 = trades@;
        assert(taker0.with_quantity(taker0.quantity) == taker0);
        while incoming.quantity > 0 && book.len() > 0 && Self::price_crosses(
            buy_incoming,
            incoming.price,
            book[0].price,
        )
            invariant
                levels_wf(book@, !buy_incoming),
                incoming@ == taker0.with_quantity(incoming.quantity as int),
                trades@.len() >= log0.len(),
                trades@.subrange(0, log0.len() as int) == log0,
                trade_views(trades@) + match_spec(incoming@, buy_incoming, flatten(book@)).trades
                    == trade_views(log0) + match_spec(taker0, buy_incoming, side0).trades,
                match_spec(incoming@, buy_incoming, flatten(book@)).resting == match_spec(
                    taker0,
                    buy_incoming,
                    side0,
                ).resting,
                match_spec(incoming@, buy_incoming, flatten(book@)).remaining == match_spec(
                    taker0,
                    buy_incoming,
                    side0,
                ).remaining,
            decreases
                    book@.len(),
                    (if incoming.quantity > 0 {
                        1int
                    } else {
                        0int
                    }),
        {
            let ghost taker = incoming@;
            let ghost levels = book@;
            let ghost log = trades@;
            let ghost back = flatten(levels.skip(1));
            proof {
                let front = levels[0]@;
                assert forall|i: int| 0 <= i < front.len() implies crosses(
                    buy_incoming,
                    taker.price,
                    (#[trigger] front[i]).price,
                ) by {
                    assert(front[i] == levels[0].orders@[i]@);
                }
                lemma_match_concat(taker, buy_incoming, front, back);
            }
            Self::match_level(trades, incoming, &mut book[0], buy_incoming);
            let ghost first = match_spec(taker, buy_incoming, levels[0]@);
            assert(book@ =~= levels.update(0, book@[0]));
            assert(book@.skip(1) =~= levels.skip(1));
            assert(trades@.subrange(0, log0.len() as int) =~= trades@.subrange(
                0,
                log.len() as int,
            ).subrange(0, log0.len() as int));
            if book[0].orders.len() == 0 {
                book.remove(0);
                assert(book@ =~= levels.skip(1));
                assert(first.resting + back =~= back);
            } else {
                assert(match_spec(incoming@, buy_incoming, back).resting =~= back);
            }
            assert(trade_views(log) + (first.trades + match_spec(
                incoming@,
                buy_incoming,
                back,
            ).trades) =~= (trade_views(log) + first.trades) + match_spec(
                incoming@,
                buy_incoming,
                back,
            ).trades);
        }
        proof {
            if incoming.quantity > 0 && book@.len() > 0 {
                assert(flatten(book@)[0] == book@[0].orders@[0]@);
            }
            assert(match_spec(incoming@, buy_incoming, flatten(book@)).trades =~= Seq::empty());
        }
    }

    /// Whether `p` is a strictly better resting price than `q`.
    fn price_better(is_buy: bool, p: i64, q: i64) -> (yes: bool)
        ensures
            yes == better(is_buy, p as int, q as int),
    {
        if is_buy {
            p > q
        } else {
            p < q
        }
    }

    /// Appends `order` to the queue of `level`.
    fn enqueue(level: &mut PriceLevel, order: Order)
        ensures
            final(level).price == old(level).price,
            final(level).orders@ == old(level).orders@.push(order),
    {
        level.orders.push_back(order);
    }

    /// Puts `order` to rest on `book`, the levels of its own side: at the back
    /// of the queue of its price, in a new level where no order rests at that
    /// price yet.
    pub fn rest_order(book: &mut Vec<PriceLevel>, order: Order)
        requires
            levels_wf(old(book)@, order.is_buy),
            order.quantity > 0,
            order.price >= 0,
        ensures
            levels_wf(final(book)@, order.is_buy),
            flatten(final(book)@) == rest_spec(flatten(old(book)@), order@),
    {
        let ghost levels = book@;
        let ghost is_buy = order.is_buy;
        let ghost price = order.price as int;
        let mut at: usize = 0;
        while at < book.len() && Self::price_better(order.is_buy, book[at].price, order.price)
            invariant
                book@ == levels,
                at <= levels.len(),
                forall|k: int|
                    0 <= k < at ==> better(
                        order.is_buy,
                        (#[trigger] levels[k]).price as int,
                        order.price as int,
                    ),
            decreases levels.len() - at,
        {
            at = at + 1;
        }
        let ghost front = levels.take(at as int);
        let ghost back = levels.skip(at as int);
        proof {
            assert(levels =~= front + back);
            lemma_flatten_concat(front, back);
            assert forall|k: int| 0 <= k < front.len() implies {
                &&& (#[trigger] front[k]).orders_wf(is_buy)
                &&& !better(is_buy, price, front[k].price as int)
            } by {
                assert(front[k] == levels[k]);
                assert(levels[k].wf(is_buy));
            }
            lemma_flatten_not_worse(front, is_buy, price);
        }
        if at < book.len() && book[at].price == order.price {
            let ghost queue = levels[at as int]@;
            let ghost behind = levels.skip(at + 1);
            Self::enqueue(&mut book[at], order);
            proof {
                let level = book@[at as int];
                assert(level@ =~= queue.push(order@));
                assert(book@ =~= front + seq![level] + behind);
                assert(back =~= seq![levels[at as int]] + behind);
                lemma_flatten_concat(front + seq![level], behind);
                lemma_flatten_concat(front, seq![level]);
                lemma_flatten_one(level);
                lemma_flatten_concat(seq![levels[at as int]], behind);
                lemma_flatten_one(levels[at as int]);
                assert(levels[at as int].wf(is_buy));
                assert forall|i: int| 0 <= i < queue.len() implies !better(
                    is_buy,
                    price,
                    (#[trigger] queue[i]).price,
                ) by {
                    assert(queue[i] == levels[at as int].orders@[i]@);
                }
                let ahead = flatten(front) + queue;
                lemma_rest_behind(ahead, flatten(behind), order@);
                assert forall|i: int, j: int| 0 <= i < j < behind.len() implies better(
                    is_buy,
                    (#[trigger] behind[i]).price as int,
                    (#[trigger] behind[j]).price as int,
                ) by {
                    assert(behind[i] == levels[at + 1 + i]);
                    assert(behind[j] == levels[at + 1 + j]);
                }
                assert forall|i: int| 0 <= i < behind.len() implies (#[trigger] behind[i]).wf(
                    is_buy,
                ) by {
                    assert(behind[i] == levels[at + 1 + i]);
                }
                lemma_flatten_wf(behind, is_buy);
                if behind.len() > 0 {
                    assert(behind[0] == levels[at + 1]);
                    assert(behind[0].wf(is_buy));
                    assert(better(
                        is_buy,
                        levels[at as int].price as int,
                        levels[at + 1].price as int,
                    ));
                }
                assert(rest_spec(flatten(behind), order@) =~= seq![order@] + flatten(behind));
                assert(flatten(levels) =~= ahead + flatten(behind));
                assert(flatten(book@) =~= ahead + (seq![order@] + flatten(behind)));
                assert forall|i: int| 0 <= i < book@.len() implies (#[trigger] book@[i]).wf(
                    is_buy,
                ) by {
                    if i != at {
                        assert(book@[i] == levels[i]);
                    } else {
                        assert(levels[i].wf(is_buy));
                    }
                }
                assert forall|i: int, j: int| 0 <= i < j < book@.len() implies better(
                    is_buy,
                    (#[trigger] book@[i]).price as int,
                    (#[trigger] book@[j]).price as int,
                ) by {
                    assert(book@[i].price == levels[i].price);
                    assert(book@[j].price == levels[j].price);
                }
            }
        } else {
            let price_key = order.price;
            let mut orders = VecDeque::new();
            let ghost resting = order;
            orders.push_back(order);
            let level = PriceLevel { price: price_key, orders };
            book.insert(at, level);
            proof {
                let level = book@[at as int];
                assert(level.orders@ =~= seq![resting]);
                assert(level@ =~= seq![resting@]);
                assert(book@ =~= front + seq![level] + back);
                lemma_flatten_concat(front + seq![level], back);
                lemma_flatten_concat(front, seq![level]);
                lemma_flatten_one(level);
                lemma_rest_behind(flatten(front), flatten(back), resting@);
                assert forall|i: int, j: int| 0 <= i < j < back.len() implies better(
                    is_buy,
                    (#[trigger] back[i]).price as int,
                    (#[trigger] back[j]).price as int,
                ) by {
                    assert(back[i] == levels[at + i]);
                    assert(back[j] == levels[at + j]);
                }
                assert forall|i: int| 0 <= i < back.len() implies (#[trigger] back[i]).wf(
                    is_buy,
                ) by {
                    assert(back[i] == levels[at + i]);
                }
                lemma_flatten_wf(back, is_buy);
                if back.len() > 0 {
                    assert(back[0] == levels[at as int]);
                    assert(back[0].wf(is_buy));
                }
                assert(rest_spec(flatten(back), resting@) =~= seq![resting@] + flatten(back));
                assert(flatten(book@) =~= flatten(front) + (seq![resting@] + flatten(back)));
                assert forall|i: int| 0 <= i < book@.len() implies (#[trigger] book@[i]).wf(
                    is_buy,
                ) by {
                    if i < at {
                        assert(book@[i] == levels[i]);
                    } else if i > at {
                        assert(book@[i] == levels[i - 1]);
                    }
                }
                assert forall|i: int, j: int| 0 <= i < j < book@.len() implies better(
                    is_buy,
                    (#[trigger] book@[i]).price as int,
                    (#[trigger] book@[j]).price as int,
                ) by {
                    if i < at {
                        assert(book@[i] == levels[i]);
                    } else if i > at {
                        assert(book@[i] == levels[i - 1]);
                    }
                    if j < at {
                        assert(book@[j] == levels[j]);
                    } else if j > at {
                        assert(book@[j] == levels[j - 1]);
                    }
                    if at < levels.len() {
                        assert(levels[at as int].wf(is_buy));
                    }
                }
            }
        }
    }

    /// Matches `incoming` against the queue of one level whose price crosses
    /// its limit, oldest resting order first.
    fn match_level(
        trades: &mut VecDeque<Trade>,
        incoming: &mut Order,
        level: &mut PriceLevel,
        buy_incoming: bool,
    )
        requires
            old(level).orders_wf(!buy_incoming),
            crosses(buy_incoming, old(incoming).price as int, old(level).price as int),
        ensures
            final(level).price == old(level).price,
            final(level).orders_wf(!buy_incoming),
            final(level)@ == match_spec(old(incoming)@, buy_incoming, old(level)@).resting,
            final(incoming)@ == old(incoming)@.with_quantity(
                match_spec(old(incoming)@, buy_incoming, old(level)@).remaining,
            ),
            final(trades)@.len() >= old(trades)@.len(),
            final(trades)@.subrange(0, old(trades)@.len() as int) == old(trades)@,
            trade_views(final(trades)@) == trade_views(old(trades)@) + match_spec(
                old(incoming)@,
                buy_incoming,
                old(level)@,
            ).trades,
    {
        let ghost taker0 = incoming@;
        let ghost queue0 = level@;
        let ghost log0 = trades@;
        while incoming.quantity > 0 && level.orders.len() > 0
            invariant
                level.price == old(level).price,
                level.orders_wf(!buy_incoming),
                crosses(buy_incoming, taker0.price, level.price as int),
                incoming@ == taker0.with_quantity(incoming.quantity as int),
                trades@.len() >= log0.len(),
                trades@.subrange(0, log0.len() as int) == log0,
                trade_views(trades@) + match_spec(incoming@, buy_incoming, level@).trades
                    == trade_views(log0) + match_spec(taker0, buy_incoming, queue0).trades,
                match_spec(incoming@, buy_incoming, level@).resting == match_spec(
                    taker0,
                    buy_incoming,
                    queue0,
                ).resting,
                match_spec(incoming@, buy_incoming, level@).remaining == match_spec(
                    taker0,
                    buy_incoming,
                    queue0,
                ).remaining,
            decreases level.orders@.len(), incoming.quantity,
        {
            let ghost taker = incoming@;
            let ghost queue = level@;
            let ghost log = trades@;
            let ghost before = level.orders@;
            let mut maker = level.orders.pop_front().unwrap();
            let ghost maker0 = maker;
            assert(maker0 == before[0]);
            assert(queue[0] == maker0@);
            let quantity: i32 = if incoming.quantity <= maker.quantity {
                incoming.quantity
            } else {
                maker.quantity
            };
            maker.quantity = maker.quantity - quantity;
            incoming.quantity = incoming.quantity - quantity;
            let trade = Trade::record(incoming, &maker, quantity, buy_incoming, now());
            assert(trade@ == fill(
                taker.id,
                buy_incoming,
                maker0@,
                quantity as int,
            ));
            trades.push_back(trade);
            assert(trade_views(trades@) =~= trade_views(log).push(trade@));
            if maker.quantity > 0 {
                level.orders.push_front(maker);
                assert(level@ =~= queue.update(
                    0,
                    maker0@.with_quantity(maker0.quantity - quantity),
                ));
                assert(match_spec(incoming@, buy_incoming, level@).trades =~= Seq::empty());
            } else {
                assert(level@ =~= queue.skip(1));
            }
            assert(match_spec(taker, buy_incoming, queue).trades =~= seq![trade@] + match_spec(
                incoming@,
                buy_incoming,
                level@,
            ).trades);
        }
        assert(match_spec(incoming@, buy_incoming, level@).trades =~= Seq::empty());
    }
}

} // verus!
