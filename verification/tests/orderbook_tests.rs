use matching_engine::orderbook::{BidorAsk, Limit, Order, OrderBook};
use matching_engine::price::Price;

#[test]
fn orderbook_fill_market_order_ask() {
    let mut orderbook = OrderBook::new();
    orderbook.add_limit_order(Price::from_parts(500, 0).unwrap(), Order::new(10, BidorAsk::Ask));
    orderbook.add_limit_order(Price::from_parts(100, 0).unwrap(), Order::new(10, BidorAsk::Ask));
    orderbook.add_limit_order(Price::from_parts(200, 0).unwrap(), Order::new(10, BidorAsk::Ask));
    orderbook.add_limit_order(Price::from_parts(300, 0).unwrap(), Order::new(10, BidorAsk::Ask));
    orderbook.add_limit_order(Price::from_parts(50, 0).unwrap(), Order::new(10, BidorAsk::Ask));

    // Fill against the cheapest ask.
    let mut market_order = Order::new(10, BidorAsk::Bid);
    orderbook.fill_market_order(&mut market_order);

    let ask_limits = orderbook.ask_limits();
    let matched_limit = ask_limits.get(0).unwrap();

    let matched_order = matched_limit.orders.get(0).unwrap();
    assert_eq!(matched_order.is_filled(), true);
}

#[test]
fn limit_total_volume() {
    let price = Price::from_parts(10000, 0).unwrap();
    let mut limit: Limit = Limit::new(price);

    let buy_limit_order_a: Order = Order::new(100, BidorAsk::Bid);
    let buy_limit_order_b: Order = Order::new(100, BidorAsk::Bid);
    limit.add_order(buy_limit_order_a);
    limit.add_order(buy_limit_order_b);

    println!("{:?}", limit.total_volume());
    assert_eq!(limit.total_volume(), 200);
}

#[test]
fn limit_order_multi_fill() {
    let price = Price::from_parts(10000, 0).unwrap();
    let mut limit: Limit = Limit::new(price);

    let buy_limit_order_a: Order = Order::new(100, BidorAsk::Bid);
    let buy_limit_order_b: Order = Order::new(100, BidorAsk::Bid);
    limit.add_order(buy_limit_order_a);
    limit.add_order(buy_limit_order_b);

    let mut market_sell_order: Order = Order::new(199, BidorAsk::Ask);
    limit.fill_order(&mut market_sell_order);

    assert_eq!(market_sell_order.is_filled(), true);
    assert_eq!(limit.orders.get(0).unwrap().is_filled(), true);
    assert_eq!(limit.orders.get(1).unwrap().is_filled(), false);
    println!("{:?}", limit);
}

#[test]
fn limit_order_single_fill() {
    let price = Price::from_parts(10000, 0).unwrap();
    let mut limit: Limit = Limit::new(price);

    let buy_limit_order: Order = Order::new(100, BidorAsk::Bid);
    limit.add_order(buy_limit_order);

    let mut market_sell_order: Order = Order::new(99, BidorAsk::Ask);
    limit.fill_order(&mut market_sell_order);
    println!("{:?}", limit);

    assert_eq!(market_sell_order.is_filled(), true);
    assert_eq!(limit.orders.get(0).unwrap().size, 1);
}

#[test]
fn fill_conserves_transferred_size() {
    let mut limit = Limit::new(Price::from_parts(10000, 0).unwrap());
    limit.add_order(Order::new(100, BidorAsk::Bid));
    limit.add_order(Order::new(100, BidorAsk::Bid));
    let volume_before = limit.total_volume();

    let mut market_sell_order = Order::new(150, BidorAsk::Ask);
    limit.fill_order(&mut market_sell_order);

    // The bucket lost exactly what the incoming order lost: 150.
    assert_eq!(volume_before - limit.total_volume(), 150);
    assert_eq!(market_sell_order.size, 0);
    assert_eq!(limit.orders.get(0).unwrap().size, 0);
    assert_eq!(limit.orders.get(1).unwrap().size, 50);
}

#[test]
fn empty_limit_total_volume_is_zero() {
    let limit = Limit::new(Price::from_parts(10000, 0).unwrap());
    assert_eq!(limit.total_volume(), 0);
}

#[test]
fn ask_limits_sorted_ascending_bid_limits_descending() {
    let mut orderbook = OrderBook::new();
    let prices: [u128; 5] = [500, 100, 200, 300, 50];
    for p in prices {
        orderbook.add_limit_order(Price::from_parts(p, 0).unwrap(), Order::new(10, BidorAsk::Ask));
        orderbook.add_limit_order(Price::from_parts(p, 0).unwrap(), Order::new(10, BidorAsk::Bid));
    }

    let ask_expected: [u128; 5] = [50, 100, 200, 300, 500];
    let asks = orderbook.ask_limits();
    assert_eq!(asks.len(), 5);
    for (i, p) in ask_expected.iter().enumerate() {
        assert_eq!(asks[i].price, Price::from_parts(*p, 0).unwrap());
    }

    let bid_expected: [u128; 5] = [500, 300, 200, 100, 50];
    let bids = orderbook.bid_limits();
    assert_eq!(bids.len(), 5);
    for (i, p) in bid_expected.iter().enumerate() {
        assert_eq!(bids[i].price, Price::from_parts(*p, 0).unwrap());
    }
}

#[test]
fn equal_value_prices_share_one_bucket() {
    let mut orderbook = OrderBook::new();
    orderbook.add_limit_order(Price::from_parts(450, 2).unwrap(), Order::new(100, BidorAsk::Bid));
    orderbook.add_limit_order(Price::from_parts(45, 1).unwrap(), Order::new(50, BidorAsk::Bid));

    let bids = orderbook.bid_limits();
    assert_eq!(bids.len(), 1);
    assert_eq!(bids.get(0).unwrap().orders.len(), 2);
}

#[test]
fn market_order_keeps_remainder_when_liquidity_runs_out() {
    let mut orderbook = OrderBook::new();
    orderbook.add_limit_order(Price::from_parts(100, 0).unwrap(), Order::new(10, BidorAsk::Ask));

    let mut market_order = Order::new(100, BidorAsk::Bid);
    orderbook.fill_market_order(&mut market_order);

    assert_eq!(market_order.size, 90);
    assert_eq!(market_order.is_filled(), false);
    let asks = orderbook.ask_limits();
    assert_eq!(asks.get(0).unwrap().orders.get(0).unwrap().size, 0);
}

#[test]
fn ask_market_order_fills_highest_bid_first() {
    let mut orderbook = OrderBook::new();
    orderbook.add_limit_order(Price::from_parts(100, 0).unwrap(), Order::new(10, BidorAsk::Bid));
    orderbook.add_limit_order(Price::from_parts(300, 0).unwrap(), Order::new(10, BidorAsk::Bid));

    let mut market_order = Order::new(5, BidorAsk::Ask);
    orderbook.fill_market_order(&mut market_order);

    assert_eq!(market_order.is_filled(), true);
    let bids = orderbook.bid_limits();
    assert_eq!(bids.get(0).unwrap().price, Price::from_parts(300, 0).unwrap());
    assert_eq!(bids.get(0).unwrap().orders.get(0).unwrap().size, 5);
    assert_eq!(bids.get(1).unwrap().orders.get(0).unwrap().size, 10);
}

#[test]
fn fill_walks_several_price_levels() {
    let mut orderbook = OrderBook::new();
    orderbook.add_limit_order(Price::from_parts(100, 0).unwrap(), Order::new(10, BidorAsk::Ask));
    orderbook.add_limit_order(Price::from_parts(200, 0).unwrap(), Order::new(10, BidorAsk::Ask));
    orderbook.add_limit_order(Price::from_parts(300, 0).unwrap(), Order::new(10, BidorAsk::Ask));

    let mut market_order = Order::new(25, BidorAsk::Bid);
    orderbook.fill_market_order(&mut market_order);

    assert_eq!(market_order.is_filled(), true);
    let asks = orderbook.ask_limits();
    assert_eq!(asks.get(0).unwrap().orders.get(0).unwrap().size, 0);
    assert_eq!(asks.get(1).unwrap().orders.get(0).unwrap().size, 0);
    assert_eq!(asks.get(2).unwrap().orders.get(0).unwrap().size, 5);
}
