use matching_engine::engine::{MatchingEngine, TradingPair};
use matching_engine::orderbook::{BidorAsk, Order};
use matching_engine::price::Price;

#[test]
fn trading_pair_canonical_name() {
    let pair = TradingPair::new("BTC".to_string(), "USD".to_string());
    assert_eq!(pair.to_string(), "BTC_USD".to_string());
}

#[test]
fn place_limit_order_on_unknown_market_fails_and_changes_nothing() {
    let mut engine = MatchingEngine::new();
    let pair = TradingPair::new("BTC".to_string(), "USD".to_string());

    let r = engine.place_limit_order(
        pair,
        Price::from_parts(10000, 0).unwrap(),
        Order::new(65, BidorAsk::Bid),
    );

    assert_eq!(
        r.unwrap_err(),
        "error::the-orderbook-for-given-tradingpair-BTC_USD-does-not-exist".to_string()
    );
    assert_eq!(engine.orderbooks.len(), 0);
}

#[test]
fn place_limit_order_routes_to_registered_book() {
    let mut engine = MatchingEngine::new();
    let pair = TradingPair::new("BTC".to_string(), "USD".to_string());
    engine.add_new_market(pair.clone());

    let r = engine.place_limit_order(
        pair,
        Price::from_parts(10000, 0).unwrap(),
        Order::new(65, BidorAsk::Bid),
    );

    assert!(r.is_ok());
    assert_eq!(engine.orderbooks.len(), 1);
    let bids = engine.orderbooks[0].1.bid_limits();
    assert_eq!(bids.len(), 1);
    assert_eq!(bids[0].price, Price::from_parts(10000, 0).unwrap());
    assert_eq!(bids[0].orders.len(), 1);
    assert_eq!(bids[0].orders[0].size, 65);
}

#[test]
fn place_limit_order_does_not_touch_other_markets() {
    let mut engine = MatchingEngine::new();
    let btc = TradingPair::new("BTC".to_string(), "USD".to_string());
    let eth = TradingPair::new("ETH".to_string(), "USD".to_string());
    engine.add_new_market(btc.clone());
    engine.add_new_market(eth.clone());

    engine
        .place_limit_order(btc, Price::from_parts(10000, 0).unwrap(), Order::new(65, BidorAsk::Bid))
        .unwrap();

    assert_eq!(engine.orderbooks.len(), 2);
    let eth_book = &engine.orderbooks[1].1;
    assert_eq!(eth_book.bid_limits().len(), 0);
    assert_eq!(eth_book.ask_limits().len(), 0);
}

#[test]
fn add_new_market_again_replaces_the_book() {
    let mut engine = MatchingEngine::new();
    let pair = TradingPair::new("BTC".to_string(), "USD".to_string());
    engine.add_new_market(pair.clone());
    engine
        .place_limit_order(
            pair.clone(),
            Price::from_parts(10000, 0).unwrap(),
            Order::new(65, BidorAsk::Bid),
        )
        .unwrap();

    engine.add_new_market(pair);

    assert_eq!(engine.orderbooks.len(), 1);
    assert_eq!(engine.orderbooks[0].1.bid_limits().len(), 0);
}
