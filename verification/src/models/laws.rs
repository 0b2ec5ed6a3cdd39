//! What holds of the matching rules, for every book and every order.

use crate::models::matching::{
    better, can_trade, crosses, fill, lemma_rest_insert, lemma_side_wf_skip, match_spec,
    min_quantity, rest_position, rest_spec, side_wf, BookView,
};
use crate::models::order::OrderView;
use crate::models::trade::TradeView;
use vstd::prelude::*;

verus! {

/// The quantity of `order` that counts for the identifier `id`.
pub open spec fn quantity_of(order: OrderView, id: Seq<char>) -> int {
    if order.id == id {
        order.quantity
    } else {
        0
    }
}

/// The quantity that `trade` filled of orders named `id`: the traded quantity
/// once for each side of the trade that carries the identifier.
pub open spec fn filled_by(trade: TradeView, id: Seq<char>) -> int {
    (if trade.buy_order_id == id {
        trade.quantity
    } else {
        0
    }) + (if trade.sell_order_id == id {
        trade.quantity
    } else {
        0
    })
}

/// The quantity that the trades of a log filled of orders named `id`.
pub open spec fn filled_quantity(trades: Seq<TradeView>, id: Seq<char>) -> int
    decreases trades.len(),
{
    if trades.len() == 0 {
        0
    } else {
        filled_by(trades[0], id) + filled_quantity(trades.skip(1), id)
    }
}

/// The quantity that orders named `id` have resting on one side.
pub open spec fn resting_quantity(side: Seq<OrderView>, id: Seq<char>) -> int
    decreases side.len(),
{
    if side.len() == 0 {
        0
    } else {
        quantity_of(side[0], id) + resting_quantity(side.skip(1), id)
    }
}

/// The quantity that the acceptable orders named `id` among `orders` asked for.
pub open spec fn submitted_quantity(orders: Seq<OrderView>, id: Seq<char>) -> int
    decreases orders.len(),
{
    if orders.len() == 0 {
        0
    } else {
        submitted_quantity(orders.drop_last(), id) + (if orders.last().is_valid() {
            quantity_of(orders.last(), id)
        } else {
            0
        })
    }
}

/// The book that results from submitting `orders` one after the other to an
/// empty book. Orders that the book turns away leave it as it was.
pub open spec fn book_after(orders: Seq<OrderView>) -> BookView
    decreases orders.len(),
{
    if orders.len() == 0 {
        BookView::empty()
    } else {
        let book = book_after(orders.drop_last());
        if orders.last().is_valid() {
            book.add_order(orders.last())
        } else {
            book
        }
    }
}

proof fn lemma_filled_concat(front: Seq<TradeView>, back: Seq<TradeView>, id: Seq<char>)
    ensures
        filled_quantity(front + back, id) == filled_quantity(front, id) + filled_quantity(
            back,
            id,
        ),
    decreases front.len(),
{
    if front.len() == 0 {
        assert(front + back =~= back);
    } else {
        assert((front + back).skip(1) =~= front.skip(1) + back);
        lemma_filled_concat(front.skip(1), back, id);
    }
}

proof fn lemma_rest_quantity(resting: Seq<OrderView>, order: OrderView, id: Seq<char>)
    ensures
        resting_quantity(rest_spec(resting, order), id) == resting_quantity(resting, id)
            + quantity_of(order, id),
    decreases resting.len(),
{
    let rested = rest_spec(resting, order);
    if resting.len() == 0 || better(order.is_buy, order.price, resting[0].price) {
        assert(rested.skip(1) =~= resting);
    } else {
        lemma_rest_quantity(resting.skip(1), order, id);
        assert(rested.skip(1) =~= rest_spec(resting.skip(1), order));
    }
}

/// A taker whose quantity is not negative is not left with a negative one.
proof fn lemma_remaining_not_negative(taker: OrderView, buy_incoming: bool, resting: Seq<OrderView>)
    requires
        taker.quantity >= 0,
    ensures
        0 <= match_spec(taker, buy_incoming, resting).remaining,
    decreases resting.len(),
{
    if can_trade(taker, buy_incoming, resting) {
        let quantity = min_quantity(taker.quantity, resting[0].quantity);
        if quantity >= resting[0].quantity {
            lemma_remaining_not_negative(
                taker.with_quantity(taker.quantity - quantity),
                buy_incoming,
                resting.skip(1),
            );
        }
    }
}

/// Matching moves quantity and loses none. For every identifier, what the
/// trades filled of it and what is left of it, resting or in the taker,
/// equals what was there before: each trade takes its quantity from the taker
/// and from the resting order alike.
pub proof fn law_match_conserves_quantity(
    taker: OrderView,
    buy_incoming: bool,
    resting: Seq<OrderView>,
    id: Seq<char>,
)
    ensures
        ({
            let m = match_spec(taker, buy_incoming, resting);
            filled_quantity(m.trades, id) + resting_quantity(m.resting, id) + quantity_of(
                taker.with_quantity(m.remaining),
                id,
            ) == resting_quantity(resting, id) + quantity_of(taker, id)
        }),
    decreases resting.len(),
{
    let m = match_spec(taker, buy_incoming, resting);
    let left = taker.with_quantity(m.remaining);
    if can_trade(taker, buy_incoming, resting) {
        let maker = resting[0];
        let quantity = min_quantity(taker.quantity, maker.quantity);
        let trade = fill(taker.id, buy_incoming, maker, quantity);
        assert(m.trades[0] == trade);
        assert(resting_quantity(resting, id) == quantity_of(maker, id) + resting_quantity(
            resting.skip(1),
            id,
        ));
        assert(filled_quantity(m.trades, id) == filled_by(trade, id) + filled_quantity(
            m.trades.skip(1),
            id,
        ));
        if quantity < maker.quantity {
            assert(m.trades.skip(1) =~= Seq::empty());
            assert(m.resting.skip(1) =~= resting.skip(1));
            assert(m.resting[0] == maker.with_quantity(maker.quantity - quantity));
            assert(resting_quantity(m.resting, id) == quantity_of(m.resting[0], id)
                + resting_quantity(m.resting.skip(1), id));
        } else {
            let next = taker.with_quantity(taker.quantity - quantity);
            law_match_conserves_quantity(next, buy_incoming, resting.skip(1), id);
            let rest = match_spec(next, buy_incoming, resting.skip(1));
            assert(m.trades.skip(1) =~= rest.trades);
            assert(next.with_quantity(rest.remaining) == left);
        }
    } else {
        assert(left == taker);
        assert(filled_quantity(m.trades, id) == 0);
    }
}

/// Submitting an order whose quantity is not negative adds its quantity to
/// the book and loses none: for every identifier, what trades have filled of
/// it plus what rests of it grows by exactly what the order asked for under
/// that identifier.
pub proof fn law_add_order_conserves_quantity(book: BookView, order: OrderView, id: Seq<char>)
    requires
        order.quantity >= 0,
    ensures
        ({
            let after = book.add_order(order);
            filled_quantity(after.trades, id) + resting_quantity(after.buys, id)
                + resting_quantity(after.sells, id) == filled_quantity(book.trades, id)
                + resting_quantity(book.buys, id) + resting_quantity(book.sells, id) + quantity_of(
                order,
                id,
            )
        }),
{
    let (own, opposite) = if order.is_buy {
        (book.buys, book.sells)
    } else {
        (book.sells, book.buys)
    };
    let m = match_spec(order, order.is_buy, opposite);
    law_match_conserves_quantity(order, order.is_buy, opposite, id);
    lemma_filled_concat(book.trades, m.trades, id);
    lemma_remaining_not_negative(order, order.is_buy, opposite);
    if m.remaining > 0 {
        lemma_rest_quantity(own, order.with_quantity(m.remaining), id);
    }
}

/// Quantity conservation. After any sequence of submissions to an empty book,
/// and for every identifier: the quantity that trades have filled of orders
/// with that identifier, plus the quantity that such orders still have
/// resting, equals the quantity that the accepted orders with that identifier
/// asked for. Where identifiers are unique this holds order by order.
pub proof fn law_quantity_conservation(orders: Seq<OrderView>, id: Seq<char>)
    ensures
        ({
            let book = book_after(orders);
            filled_quantity(book.trades, id) + resting_quantity(book.buys, id) + resting_quantity(
                book.sells,
                id,
            ) == submitted_quantity(orders, id)
        }),
    decreases orders.len(),
{
    if orders.len() > 0 {
        law_quantity_conservation(orders.drop_last(), id);
        if orders.last().is_valid() {
            law_add_order_conserves_quantity(book_after(orders.drop_last()), orders.last(), id);
        }
    }
}

/// Orders of which none that is acceptable is named `id` asked for nothing
/// under that identifier.
proof fn lemma_submitted_none(orders: Seq<OrderView>, id: Seq<char>)
    requires
        forall|i: int| 0 <= i < orders.len() && (#[trigger] orders[i]).is_valid() ==> orders[i].id != id,
    ensures
        submitted_quantity(orders, id) == 0,
    decreases orders.len(),
{
    if orders.len() > 0 {
        lemma_submitted_none(orders.drop_last(), id);
    }
}

/// With unique identifiers, every prefix that holds `orders[k]` has asked for
/// what `orders[k]` asked for under its identifier.
proof fn lemma_submitted_after(orders: Seq<OrderView>, k: int, n: int)
    requires
        0 <= k < n <= orders.len(),
        orders[k].is_valid(),
        forall|i: int, j: int|
            0 <= i < j < orders.len() && (#[trigger] orders[i]).is_valid() && (
            #[trigger] orders[j]).is_valid() ==> orders[i].id != orders[j].id,
    ensures
        submitted_quantity(orders.take(n), orders[k].id) == orders[k].quantity,
    decreases n,
{
    let id = orders[k].id;
    let prefix = orders.take(n);
    assert(prefix.drop_last() =~= orders.take(n - 1));
    assert(prefix.last() == orders[n - 1]);
    if n - 1 == k {
        lemma_submitted_none(orders.take(k), id);
    } else {
        lemma_submitted_after(orders, k, n - 1);
    }
}

/// Quantity conservation, order by order. Where no two of the accepted
/// orders share an identifier, then after all submissions the quantity that
/// trades have filled of an accepted order plus the quantity it still has
/// resting equals the quantity it was submitted with.
pub proof fn law_quantity_conservation_per_order(orders: Seq<OrderView>, k: int)
    requires
        0 <= k < orders.len(),
        orders[k].is_valid(),
        forall|i: int, j: int|
            0 <= i < j < orders.len() && (#[trigger] orders[i]).is_valid() && (
            #[trigger] orders[j]).is_valid() ==> orders[i].id != orders[j].id,
    ensures
        ({
            let book = book_after(orders);
            let id = orders[k].id;
            filled_quantity(book.trades, id) + resting_quantity(book.buys, id) + resting_quantity(
                book.sells,
                id,
            ) == orders[k].quantity
        }),
{
    law_quantity_conservation(orders, orders[k].id);
    lemma_submitted_after(orders, k, orders.len() as int);
    assert(orders.take(orders.len() as int) =~= orders);
}

/// An order without quantity changes nothing: it makes no trade and does not
/// come to rest.
pub proof fn law_empty_order_changes_nothing(book: BookView, order: OrderView)
    requires
        order.quantity == 0,
    ensures
        book.add_order(order) == book,
{
    assert(book.trades + Seq::<TradeView>::empty() =~= book.trades);
}

/// Trades follow the priority order of the resting side. The first trade is
/// made with the first resting order, the second with the second, and so on,
/// each at the resting order's price, which crosses the taker's limit, and
/// for a quantity that is positive and no more than the resting order has.
/// Every trade but the last takes all that its resting order has. The orders
/// filled completely leave the side and the others stay as they were, but for
/// the last order traded with where it was filled in part: it stays at the
/// front with what is left of it, and the taker has nothing left.
pub proof fn law_trades_follow_priority(
    taker: OrderView,
    buy_incoming: bool,
    resting: Seq<OrderView>,
)
    requires
        side_wf(resting, !buy_incoming),
    ensures
        ({
            let m = match_spec(taker, buy_incoming, resting);
            let n = m.trades.len() as int;
            let gone = resting.len() - m.resting.len();
            &&& n <= resting.len()
            &&& forall|k: int|
                0 <= k < n ==> {
                    &&& #[trigger] m.trades[k] == fill(
                        taker.id,
                        buy_incoming,
                        resting[k],
                        m.trades[k].quantity,
                    )
                    &&& crosses(buy_incoming, taker.price, resting[k].price)
                    &&& 0 < m.trades[k].quantity <= resting[k].quantity
                }
            &&& forall|k: int|
                0 <= k < n - 1 ==> (#[trigger] m.trades[k]).quantity == resting[k].quantity
            &&& gone == n || gone == n - 1
            &&& gone == n ==> {
                &&& m.resting == resting.skip(n)
                &&& n > 0 ==> m.trades[n - 1].quantity == resting[n - 1].quantity
            }
            &&& gone == n - 1 ==> {
                &&& n > 0
                &&& m.trades[n - 1].quantity < resting[n - 1].quantity
                &&& m.resting == resting.skip(n - 1).update(
                    0,
                    resting[n - 1].with_quantity(
                        resting[n - 1].quantity - m.trades[n - 1].quantity,
                    ),
                )
                &&& m.remaining == 0
            }
        }),
    decreases resting.len(),
{
    let m = match_spec(taker, buy_incoming, resting);
    let n = m.trades.len() as int;
    assert(resting.skip(0) =~= resting);
    if can_trade(taker, buy_incoming, resting) {
        let quantity = min_quantity(taker.quantity, resting[0].quantity);
        if quantity >= resting[0].quantity {
            let tail = resting.skip(1);
            let next = taker.with_quantity(taker.quantity - quantity);
            let rest = match_spec(next, buy_incoming, tail);
            lemma_side_wf_skip(resting, !buy_incoming, 1);
            law_trades_follow_priority(next, buy_incoming, tail);
            assert forall|k: int| 0 <= k < n implies {
                &&& #[trigger] m.trades[k] == fill(
                    taker.id,
                    buy_incoming,
                    resting[k],
                    m.trades[k].quantity,
                )
                &&& crosses(buy_incoming, taker.price, resting[k].price)
                &&& 0 < m.trades[k].quantity <= resting[k].quantity
            } by {
                if k > 0 {
                    assert(m.trades[k] == rest.trades[k - 1]);
                    assert(tail[k - 1] == resting[k]);
                }
            }
            assert forall|k: int| 0 <= k < n - 1 implies (#[trigger] m.trades[k]).quantity
                == resting[k].quantity by {
                if k > 0 {
                    assert(m.trades[k] == rest.trades[k - 1]);
                    assert(tail[k - 1] == resting[k]);
                }
            }
            if n > 1 {
                assert(m.trades[n - 1] == rest.trades[n - 2]);
                assert(tail[n - 2] == resting[n - 1]);
            }
            if resting.len() - m.resting.len() == n {
                assert(tail.skip(n - 1) =~= resting.skip(n));
            } else {
                assert(tail.skip(n - 2) =~= resting.skip(n - 1));
            }
        }
    }
}

/// Price priority. Where a trade is made with a resting order, every resting
/// order at a better price has been filled completely by an earlier trade,
/// whenever either of them arrived.
pub proof fn law_price_priority(
    taker: OrderView,
    buy_incoming: bool,
    resting: Seq<OrderView>,
    i: int,
    j: int,
)
    requires
        side_wf(resting, !buy_incoming),
        0 <= i < resting.len(),
        0 <= j < match_spec(taker, buy_incoming, resting).trades.len(),
        j < resting.len(),
        better(!buy_incoming, resting[i].price, resting[j].price),
    ensures
        i < j,
        match_spec(taker, buy_incoming, resting).trades[i] == fill(
            taker.id,
            buy_incoming,
            resting[i],
            resting[i].quantity,
        ),
        match_spec(taker, buy_incoming, resting).trades[j] == fill(
            taker.id,
            buy_incoming,
            resting[j],
            match_spec(taker, buy_incoming, resting).trades[j].quantity,
        ),
{
    law_trades_follow_priority(taker, buy_incoming, resting);
    if j < i {
        assert(!better(!buy_incoming, resting[i].price, resting[j].price));
    }
    let m = match_spec(taker, buy_incoming, resting);
    assert(m.trades[i].quantity == resting[i].quantity);
    assert(m.trades[j].price == resting[j].price);
}

/// Time priority in matching. Of two resting orders at one price, the one
/// that stands earlier in the queue is filled completely before a trade is
/// made with the later one.
pub proof fn law_time_priority(
    taker: OrderView,
    buy_incoming: bool,
    resting: Seq<OrderView>,
    i: int,
    j: int,
)
    requires
        side_wf(resting, !buy_incoming),
        0 <= i < j < match_spec(taker, buy_incoming, resting).trades.len(),
        j < resting.len(),
        resting[i].price == resting[j].price,
    ensures
        match_spec(taker, buy_incoming, resting).trades[i] == fill(
            taker.id,
            buy_incoming,
            resting[i],
            resting[i].quantity,
        ),
        match_spec(taker, buy_incoming, resting).trades[j] == fill(
            taker.id,
            buy_incoming,
            resting[j],
            match_spec(taker, buy_incoming, resting).trades[j].quantity,
        ),
{
    law_trades_follow_priority(taker, buy_incoming, resting);
    let m = match_spec(taker, buy_incoming, resting);
    assert(m.trades[i].quantity == resting[i].quantity);
}

/// Time priority in resting. An order comes to rest behind every order
/// already resting at its price or at a better one, and ahead of every order
/// at a worse price; the orders already resting keep their places among
/// themselves.
pub proof fn law_rest_behind_earlier(resting: Seq<OrderView>, order: OrderView)
    requires
        side_wf(resting, order.is_buy),
    ensures
        ({
            let at = rest_position(resting, order) as int;
            &&& at <= resting.len()
            &&& rest_spec(resting, order) == resting.insert(at, order)
            &&& forall|i: int|
                0 <= i < at ==> !better(order.is_buy, order.price, (#[trigger] resting[i]).price)
            &&& forall|i: int|
                at <= i < resting.len() ==> better(
                    order.is_buy,
                    order.price,
                    (#[trigger] resting[i]).price,
                )
        }),
{
    lemma_rest_insert(resting, order);
    let at = rest_position(resting, order) as int;
    assert forall|i: int| at <= i < resting.len() implies better(
        order.is_buy,
        order.price,
        (#[trigger] resting[i]).price,
    ) by {
        if i > at {
            assert(!better(order.is_buy, resting[i].price, resting[at].price));
        }
    }
}

/// Maker pricing. Every trade is made at the price of the resting order it is
/// made with, and that price is within the taker's limit: a buyer pays no
/// more than its limit, a seller receives no less.
pub proof fn law_maker_pricing(
    taker: OrderView,
    buy_incoming: bool,
    resting: Seq<OrderView>,
    k: int,
)
    requires
        side_wf(resting, !buy_incoming),
        0 <= k < match_spec(taker, buy_incoming, resting).trades.len(),
    ensures
        k < resting.len(),
        match_spec(taker, buy_incoming, resting).trades[k].price == resting[k].price,
        crosses(
            buy_incoming,
            taker.price,
            match_spec(taker, buy_incoming, resting).trades[k].price,
        ),
        match_spec(taker, buy_incoming, resting).trades[k].buy_order_id == (if buy_incoming {
            taker.id
        } else {
            resting[k].id
        }),
        match_spec(taker, buy_incoming, resting).trades[k].sell_order_id == (if buy_incoming {
            resting[k].id
        } else {
            taker.id
        }),
{
    law_trades_follow_priority(taker, buy_incoming, resting);
}

/// No crossed book. After any sequence of submissions to an empty book, both
/// sides are in priority order and the best bid is strictly below the best
/// offer, unless one side is empty.
pub proof fn law_book_never_crossed(orders: Seq<OrderView>)
    ensures
        book_after(orders).wf(),
        book_after(orders).buys.len() > 0 && book_after(orders).sells.len() > 0 ==> book_after(
            orders,
        ).buys[0].price < book_after(orders).sells[0].price,
    decreases orders.len(),
{
    if orders.len() > 0 {
        law_book_never_crossed(orders.drop_last());
        if orders.last().is_valid() {
            book_after(orders.drop_last()).lemma_add_order_wf(orders.last());
        }
    }
}

} // verus!
