use crate::models::matching::fill;
use crate::models::order::Order;
use std::time::SystemTime;
use vstd::prelude::*;

verus! {

/// The mathematical value of a [`Trade`]: who traded, at what price, how much.
/// The settlement time is read from the clock and is not part of it.
pub struct TradeView {
    pub buy_order_id: Seq<char>,
    pub sell_order_id: Seq<char>,
    pub price: int,
    pub quantity: int,
}

/// One match between a buy order and a sell order.
#[derive(Debug)]
pub struct Trade {
    pub buy_order_id: String,
    pub sell_order_id: String,
    pub price: i64,
    pub quantity: i32,
    pub settlement_time: SystemTime,
}

impl View for Trade {
    type V = TradeView;

    open spec fn view(&self) -> TradeView {
        TradeView {
            buy_order_id: self.buy_order_id@,
            sell_order_id: self.sell_order_id@,
            price: self.price as int,
            quantity: self.quantity as int,
        }
    }
}

/// The values of a log of trades.
pub open spec fn trade_views(trades: Seq<Trade>) -> Seq<TradeView> {
    trades.map_values(|t: Trade| t@)
}

impl Trade {
    /// Records that the incoming order `taker` traded `quantity` with the
    /// resting order `maker` at the maker's price, settled at `settlement_time`.
    pub fn record(
        taker: &Order,
        maker: &Order,
        quantity: i32,
        buy_incoming: bool,
        settlement_time: SystemTime,
    ) -> (trade: Trade)
        ensures
            trade@ == fill(taker@.id, buy_incoming, maker@, quantity as int),
            trade.settlement_time == settlement_time,
    {
        let taker_id = taker.id.clone();
        let maker_id = maker.id.clone();
        if buy_incoming {
            Trade {
                buy_order_id: taker_id,
                sell_order_id: maker_id,
                price: maker.price,
                quantity,
                settlement_time,
            }
        } else {
            Trade {
                buy_order_id: maker_id,
                sell_order_id: taker_id,
                price: maker.price,
                quantity,
                settlement_time,
            }
        }
    }
}

} // verus!
