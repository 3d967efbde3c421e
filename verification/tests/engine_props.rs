use matchbook::schedule;
use matchbook::{Order, OrderError, OrderId, OrderType, Orderbook, Price, Quantity, Side, Trades};

fn price(p: u32) -> Price {
    Price::new(p)
}

fn qty(q: u32) -> Quantity {
    Quantity(q)
}

fn order_id(id: u64) -> OrderId {
    OrderId::new(id)
}

fn order(id: u64, t: OrderType, side: Side, p: u32, q: u32) -> Order {
    Order::new(order_id(id), t, side, price(p), qty(q))
}

fn gtc(id: u64, side: Side, p: u32, q: u32) -> Order {
    order(id, OrderType::GoodTillCancelled, side, p, q)
}

#[test]
fn exact_cross_produces_one_trade_at_resting_price() {
    // bid 100@50 against ask 100@50: both sides empty, one trade of 50 at 100
    let mut ob = Orderbook::new();
    ob.add_order(gtc(1, Side::Buy, 100, 50)).unwrap();
    ob.add_order(gtc(2, Side::Sell, 100, 50)).unwrap();
    ob.match_orders();
    let levels = ob.get_levels();
    assert!(levels.bids().is_empty());
    assert!(levels.asks().is_empty());
    assert_eq!(ob.trades().len(), 1);
    let t = ob.trades().last().unwrap();
    assert_eq!(t.bid_trade.quantity(), qty(50));
    assert_eq!(t.ask_trade.quantity(), qty(50));
    assert_eq!(t.bid_trade.price(), price(100));
    assert_eq!(t.ask_trade.price(), price(100));
}

#[test]
fn partial_cross_leaves_bid_resting() {
    // bid 100@100 against ask 100@40: bid rests at 60, asks empty, one trade of 40
    let mut ob = Orderbook::new();
    ob.add_order(gtc(1, Side::Buy, 100, 100)).unwrap();
    ob.add_order(gtc(2, Side::Sell, 100, 40)).unwrap();
    ob.match_orders();
    let levels = ob.get_levels();
    assert_eq!(levels.bids().len(), 1);
    assert_eq!(levels.bids()[0].quantity(), qty(60));
    assert!(levels.asks().is_empty());
    assert_eq!(ob.trades().len(), 1);
    assert_eq!(ob.trades().last().unwrap().bid_trade.quantity(), qty(40));
}

#[test]
fn fok_insufficient_at_limit_rejected_despite_total() {
    // asks 100x50 and 110x50: a fill-or-kill buy of 75 limited to 100 is
    // refused, though 100 rests in total
    let mut ob = Orderbook::new();
    ob.add_order(gtc(1, Side::Sell, 100, 50)).unwrap();
    ob.add_order(gtc(2, Side::Sell, 110, 50)).unwrap();
    let result = ob.add_order(order(3, OrderType::FillOrKill, Side::Buy, 100, 75));
    assert!(matches!(result, Err(OrderError::CantFullyFill)));
    // the refusal left the book unchanged
    let levels = ob.get_levels();
    assert!(levels.bids().is_empty());
    assert_eq!(levels.asks().len(), 2);
}

#[test]
fn market_buy_sweeps_three_levels_at_their_prices() {
    // market buy of 25 against asks 100x10, 101x10, 102x10: three trades at
    // 100, 101 and 102, five left at 102, and the market order never rests
    let mut ob = Orderbook::new();
    ob.add_order(gtc(1, Side::Sell, 100, 10)).unwrap();
    ob.add_order(gtc(2, Side::Sell, 101, 10)).unwrap();
    ob.add_order(gtc(3, Side::Sell, 102, 10)).unwrap();
    ob.add_order(order(4, OrderType::Market, Side::Buy, 0, 25)).unwrap();
    ob.match_orders();
    let trades = ob.trades().to_vec();
    assert_eq!(trades.len(), 3);
    assert_eq!(trades[0].bid_trade.price(), price(100));
    assert_eq!(trades[0].bid_trade.quantity(), qty(10));
    assert_eq!(trades[1].bid_trade.price(), price(101));
    assert_eq!(trades[1].bid_trade.quantity(), qty(10));
    assert_eq!(trades[2].bid_trade.price(), price(102));
    assert_eq!(trades[2].bid_trade.quantity(), qty(5));
    let levels = ob.get_levels();
    assert!(levels.bids().is_empty());
    assert_eq!(levels.asks().len(), 1);
    assert_eq!(levels.asks()[0].price(), price(102));
    assert_eq!(levels.asks()[0].quantity(), qty(5));
}

#[test]
fn fifo_tie_break_fills_earlier_ask_first() {
    // two asks at one price: the earlier-submitted fills first
    let mut ob = Orderbook::new();
    ob.add_order(gtc(1, Side::Sell, 100, 30)).unwrap();
    ob.add_order(gtc(2, Side::Sell, 100, 30)).unwrap();
    ob.add_order(gtc(3, Side::Buy, 100, 30)).unwrap();
    ob.match_orders();
    assert_eq!(ob.trades().len(), 1);
    assert_eq!(ob.trades().last().unwrap().ask_trade.order_id(), order_id(1));
    // the later ask still rests untouched
    let levels = ob.get_levels();
    assert_eq!(levels.asks()[0].quantity(), qty(30));
}

#[test]
fn book_never_crossed_after_matching() {
    let mut ob = Orderbook::new();
    ob.add_order(gtc(1, Side::Buy, 105, 10)).unwrap();
    ob.add_order(gtc(2, Side::Buy, 103, 10)).unwrap();
    ob.add_order(gtc(3, Side::Sell, 101, 5)).unwrap();
    ob.add_order(gtc(4, Side::Sell, 104, 25)).unwrap();
    ob.match_orders();
    let levels = ob.get_levels();
    if !levels.bids().is_empty() && !levels.asks().is_empty() {
        assert!(levels.bids()[0].price().0 < levels.asks()[0].price().0);
    }
}

#[test]
fn midprice_none_when_side_empty() {
    let mut ob = Orderbook::new();
    assert!(ob.midprice().is_none());
    ob.add_order(gtc(1, Side::Buy, 100, 10)).unwrap();
    assert!(ob.midprice().is_none());
}

#[test]
fn midprice_is_average_of_best_prices() {
    let mut ob = Orderbook::new();
    ob.add_order(gtc(1, Side::Buy, 100, 10)).unwrap();
    ob.add_order(gtc(2, Side::Buy, 90, 10)).unwrap();
    ob.add_order(gtc(3, Side::Sell, 110, 10)).unwrap();
    ob.add_order(gtc(4, Side::Sell, 120, 10)).unwrap();
    assert_eq!(ob.midprice(), Some(price(105)));
}

#[test]
fn modify_overwrites_quantity_in_place() {
    let mut ob = Orderbook::new();
    ob.add_order(gtc(1, Side::Buy, 100, 50)).unwrap();
    ob.add_order(gtc(2, Side::Buy, 100, 30)).unwrap();
    ob.modify_order(order_id(1), qty(10)).unwrap();
    let levels = ob.get_levels();
    assert_eq!(levels.bids()[0].quantity(), qty(40));
}

#[test]
fn modify_keeps_queue_priority() {
    // a shrunk first order still matches before the second at the same price
    let mut ob = Orderbook::new();
    ob.add_order(gtc(1, Side::Sell, 100, 50)).unwrap();
    ob.add_order(gtc(2, Side::Sell, 100, 50)).unwrap();
    ob.modify_order(order_id(1), qty(5)).unwrap();
    ob.add_order(gtc(3, Side::Buy, 100, 5)).unwrap();
    ob.match_orders();
    assert_eq!(ob.trades().len(), 1);
    assert_eq!(ob.trades().last().unwrap().ask_trade.order_id(), order_id(1));
    assert_eq!(ob.get_levels().asks()[0].quantity(), qty(50));
}

#[test]
fn modify_unknown_id_fails() {
    let mut ob = Orderbook::new();
    let result = ob.modify_order(order_id(7), qty(10));
    assert!(matches!(result, Err(OrderError::OrderNotFound)));
}

#[test]
fn good_for_day_ids_lists_exactly_the_day_bound() {
    let mut ob = Orderbook::new();
    ob.add_order(gtc(1, Side::Buy, 100, 10)).unwrap();
    ob.add_order(order(2, OrderType::GoodForDay, Side::Buy, 99, 10)).unwrap();
    ob.add_order(order(3, OrderType::GoodForDay, Side::Sell, 110, 10)).unwrap();
    let ids = ob.good_for_day_ids();
    assert_eq!(ids, vec![order_id(2), order_id(3)]);
}

#[test]
fn quantity_subtraction_saturates_at_zero() {
    assert_eq!(qty(5).saturating_sub(qty(3)), qty(2));
    assert_eq!(qty(3).saturating_sub(qty(5)), qty(0));
    assert_eq!(qty(0).saturating_sub(qty(1)), qty(0));
}

#[test]
fn level_quantity_saturates_at_largest_quantity() {
    let mut ob = Orderbook::new();
    ob.add_order(gtc(1, Side::Buy, 100, u32::MAX)).unwrap();
    ob.add_order(gtc(2, Side::Buy, 100, 10)).unwrap();
    let levels = ob.get_levels();
    assert_eq!(levels.bids()[0].quantity(), qty(u32::MAX));
}

#[test]
fn orders_len_and_at_follow_queue_order() {
    let mut orders = matchbook::Orders::new();
    orders.push_back(gtc(1, Side::Buy, 100, 10));
    orders.push_back(gtc(2, Side::Buy, 100, 20));
    assert_eq!(orders.len(), 2);
    assert_eq!(orders.at(0).order_id, order_id(1));
    assert_eq!(orders.at(1).order_id, order_id(2));
}

#[test]
fn orders_update_quantity_changes_only_the_match() {
    let mut orders = matchbook::Orders::new();
    orders.push_back(gtc(1, Side::Buy, 100, 10));
    orders.push_back(gtc(2, Side::Buy, 100, 20));
    orders.update_quantity(order_id(2), qty(7));
    assert_eq!(orders.at(0).remaining_quantity, qty(10));
    assert_eq!(orders.at(1).remaining_quantity, qty(7));
    assert_eq!(orders.at(1).initial_quantity, qty(20));
}

#[test]
fn front_mut_and_get_mut_update_in_place() {
    let mut orders = matchbook::Orders::new();
    orders.push_back(gtc(1, Side::Buy, 100, 10));
    orders.push_back(gtc(2, Side::Buy, 100, 20));
    if let Some(o) = orders.front_mut() {
        o.remaining_quantity = qty(5);
    }
    assert_eq!(orders.at(0).remaining_quantity, qty(5));
    if let Some(o) = orders.get_mut(order_id(2)) {
        o.remaining_quantity = qty(7);
    }
    assert_eq!(orders.at(1).remaining_quantity, qty(7));
    assert!(orders.get_mut(order_id(9)).is_none());
}

#[test]
fn default_book_and_collections_are_empty() {
    let ob = Orderbook::default();
    assert!(ob.get_levels().bids().is_empty());
    assert!(ob.get_levels().asks().is_empty());
    assert!(matchbook::Orders::default().is_empty());
    assert!(matchbook::Trades::default().is_empty());
}

#[test]
fn seconds_until_close_before_the_hour() {
    // 15:59:59 is one second before the close
    assert_eq!(schedule::seconds_until_close(15, 59, 59), 1);
    // midnight is sixteen hours before it
    assert_eq!(schedule::seconds_until_close(0, 0, 0), 57600);
}

#[test]
fn seconds_until_close_rolls_to_next_day() {
    // at the close hour exactly, the wait is a full day
    assert_eq!(schedule::seconds_until_close(16, 0, 0), 86400);
    // one second before midnight
    assert_eq!(schedule::seconds_until_close(23, 59, 59), 57601);
}

#[test]
fn next_close_wait_is_in_range() {
    let w = schedule::next_close_wait_seconds();
    assert!(w >= 1);
    assert!(w <= 16 * 3600 + 86400);
    // the wait agrees with the computation on some in-range clock reading
    let mut found = false;
    for h in 0..24u32 {
        for m in 0..60u32 {
            for s in 0..60u32 {
                if schedule::seconds_until_close(h, m, s) == w {
                    found = true;
                }
            }
        }
    }
    assert!(found);
}

#[test]
fn sentinel_ask_trades_at_bid_price() {
    // a resting market sell must not leak its minimum sentinel into the
    // trade record: the bid price governs
    let mut ob = Orderbook::new();
    ob.add_order(gtc(1, Side::Buy, 95, 10)).unwrap();
    ob.add_order(order(2, OrderType::Market, Side::Sell, 0, 10)).unwrap();
    ob.match_orders();
    let t = ob.trades().last().unwrap();
    assert_eq!(t.bid_trade.price(), price(95));
    assert_eq!(t.ask_trade.price(), price(95));
}

#[test]
fn errors_compare_by_variant() {
    assert_eq!(OrderError::IdExists, OrderError::IdExists);
    assert_ne!(OrderError::CantMatch, OrderError::CantFullyFill);
    assert_ne!(OrderError::NoLiquidity, OrderError::OrderNotFound);
    assert_ne!(OrderError::FillOverflow, OrderError::IdExists);
}

#[test]
fn snapshot_reflects_adds_cancels_and_fills() {
    // the depth snapshot tracks the live remaining sums through a mixed
    // sequence of operations, with no stale or missing level
    let mut ob = Orderbook::new();
    ob.add_order(gtc(1, Side::Buy, 100, 50)).unwrap();
    ob.add_order(gtc(2, Side::Buy, 100, 30)).unwrap();
    ob.add_order(gtc(3, Side::Buy, 99, 20)).unwrap();
    ob.add_order(gtc(4, Side::Sell, 101, 25)).unwrap();
    ob.cancel_order(order_id(2)).unwrap();
    ob.add_order(gtc(5, Side::Sell, 100, 10)).unwrap();
    ob.match_orders();
    let levels = ob.get_levels();
    assert_eq!(levels.bids().len(), 2);
    assert_eq!(levels.bids()[0].price(), price(100));
    assert_eq!(levels.bids()[0].quantity(), qty(40));
    assert_eq!(levels.bids()[1].price(), price(99));
    assert_eq!(levels.bids()[1].quantity(), qty(20));
    assert_eq!(levels.asks().len(), 1);
    assert_eq!(levels.asks()[0].price(), price(101));
    assert_eq!(levels.asks()[0].quantity(), qty(25));
}
