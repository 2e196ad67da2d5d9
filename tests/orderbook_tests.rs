use orderbook::orderbook::{BidOrAsk, Limit, Order, Orderbook};
use orderbook::price::Price;
use rust_decimal::Decimal;

#[test]
fn limit_total_volume() {
    let price = Price::new(10000, 0);
    let mut limit = Limit::new(price);
    let buy_limit_order_1 = Order::new(BidOrAsk::Bid, 100);
    let buy_limit_order_2 = Order::new(BidOrAsk::Bid, 100);
    limit.add_order(buy_limit_order_1);
    limit.add_order(buy_limit_order_2);

    assert_eq!(limit.total_volume(), 200);
}

#[test]
fn limit_order_multi_fill() {
    let price = Price::new(10000, 0);
    let mut limit = Limit::new(price);
    let buy_limit_order_1 = Order::new(BidOrAsk::Bid, 100);
    let buy_limit_order_2 = Order::new(BidOrAsk::Bid, 100);
    limit.add_order(buy_limit_order_1);
    limit.add_order(buy_limit_order_2);

    let mut market_sell_order = Order::new(BidOrAsk::Ask, 199);
    limit.fill_order(&mut market_sell_order);

    assert_eq!(market_sell_order.is_filled(), true);
    assert_eq!(limit.orders().get(0).unwrap().is_filled(), true);
    assert_eq!(limit.orders().get(1).unwrap().size(), 1);
}

#[test]
fn limit_order_single_fill() {
    let price = Price::new(10000, 0);
    let mut limit = Limit::new(price);
    let buy_limit_order = Order::new(BidOrAsk::Bid, 100);
    limit.add_order(buy_limit_order);

    let mut market_sell_order = Order::new(BidOrAsk::Ask, 99);
    limit.fill_order(&mut market_sell_order);

    assert_eq!(market_sell_order.is_filled(), true);
    assert_eq!(limit.orders().get(0).unwrap().size(), 1);
}

fn limit_of(sizes: &[u64]) -> Limit {
    let mut limit = Limit::new(Price::new(10000, 0));
    for s in sizes {
        limit.add_order(Order::new(BidOrAsk::Bid, *s));
    }
    limit
}

fn sizes_of(limit: &Limit) -> Vec<u64> {
    limit.orders().iter().map(|o| o.size()).collect()
}

#[test]
fn volume_is_sum_of_added_sizes() {
    let mut limit = Limit::new(Price::new(5, 0));
    assert_eq!(limit.total_volume(), 0);
    let mut expected: u128 = 0;
    for s in [3u64, 0, 17, 250] {
        limit.add_order(Order::new(BidOrAsk::Ask, s));
        expected += s as u128;
        assert_eq!(limit.total_volume(), expected);
    }
    assert_eq!(limit.total_volume(), 270);
}

#[test]
fn volume_of_empty_level_is_zero() {
    assert_eq!(Limit::new(Price::new(1, 0)).total_volume(), 0);
}

#[test]
fn volume_of_largest_sizes_does_not_wrap() {
    let limit = limit_of(&[u64::MAX, u64::MAX, u64::MAX]);
    assert_eq!(limit.total_volume(), 3 * (u64::MAX as u128));
}

#[test]
fn volume_counts_filled_orders() {
    let mut limit = limit_of(&[100, 100]);
    let mut market = Order::new(BidOrAsk::Ask, 150);
    limit.fill_order(&mut market);
    assert_eq!(sizes_of(&limit), vec![0, 50]);
    assert_eq!(limit.orders().len(), 2);
    assert_eq!(limit.total_volume(), 50);
}

#[test]
fn exact_fill_empties_every_order() {
    let mut limit = limit_of(&[100, 100]);
    let mut market = Order::new(BidOrAsk::Ask, 200);
    limit.fill_order(&mut market);
    assert!(market.is_filled());
    assert_eq!(sizes_of(&limit), vec![0, 0]);
}

#[test]
fn small_fill_touches_first_order_only() {
    let mut limit = limit_of(&[100, 40, 7]);
    let mut market = Order::new(BidOrAsk::Ask, 99);
    limit.fill_order(&mut market);
    assert!(market.is_filled());
    assert_eq!(sizes_of(&limit), vec![1, 40, 7]);
}

#[test]
fn spill_fill_keeps_arrival_order() {
    let mut limit = limit_of(&[100, 100, 30]);
    let mut market = Order::new(BidOrAsk::Ask, 199);
    limit.fill_order(&mut market);
    assert!(market.is_filled());
    assert_eq!(sizes_of(&limit), vec![0, 1, 30]);
}

#[test]
fn oversized_fill_keeps_the_rest() {
    let mut limit = limit_of(&[10, 20]);
    let mut market = Order::new(BidOrAsk::Bid, 45);
    limit.fill_order(&mut market);
    assert!(!market.is_filled());
    assert_eq!(market.size(), 15);
    assert_eq!(market.bid_or_ask(), BidOrAsk::Bid);
    assert_eq!(sizes_of(&limit), vec![0, 0]);
}

#[test]
fn zero_sized_market_order_changes_nothing() {
    let mut limit = limit_of(&[0, 5]);
    let mut market = Order::new(BidOrAsk::Ask, 0);
    limit.fill_order(&mut market);
    assert!(market.is_filled());
    assert_eq!(sizes_of(&limit), vec![0, 5]);
}

#[test]
fn is_filled_is_stable() {
    let filled = Order::new(BidOrAsk::Bid, 0);
    let open = Order::new(BidOrAsk::Ask, 3);
    for _ in 0..3 {
        assert!(filled.is_filled());
        assert!(!open.is_filled());
    }
}

#[test]
fn same_price_shares_one_level() {
    let mut book = Orderbook::new();
    book.add_order(Price::new(44, 1), Order::new(BidOrAsk::Bid, 55));
    book.add_order(Price::new(440, 2), Order::new(BidOrAsk::Bid, 245));
    assert_eq!(book.bid_limits().len(), 1);
    assert_eq!(book.ask_limits().len(), 0);
    let level = &book.bid_limits()[0];
    assert_eq!(level.price(), Price::new(44, 1));
    assert_eq!(sizes_of(level), vec![55, 245]);
}

#[test]
fn different_prices_make_two_levels() {
    let mut book = Orderbook::new();
    book.add_order(Price::new(44, 1), Order::new(BidOrAsk::Ask, 1));
    book.add_order(Price::new(45, 1), Order::new(BidOrAsk::Ask, 2));
    book.add_order(Price::new(44, 1), Order::new(BidOrAsk::Ask, 3));
    assert_eq!(book.ask_limits().len(), 2);
    assert_eq!(book.bid_limits().len(), 0);
    assert_eq!(book.ask_limits()[0].price(), Price::new(44, 1));
    assert_eq!(sizes_of(&book.ask_limits()[0]), vec![1, 3]);
    assert_eq!(book.ask_limits()[1].price(), Price::new(45, 1));
    assert_eq!(sizes_of(&book.ask_limits()[1]), vec![2]);
}

#[test]
fn bid_market_order_sweeps_asks() {
    let mut book = Orderbook::new();
    book.add_order(Price::new(20, 0), Order::new(BidOrAsk::Ask, 30));
    book.add_order(Price::new(21, 0), Order::new(BidOrAsk::Ask, 50));
    book.add_order(Price::new(20, 0), Order::new(BidOrAsk::Ask, 10));
    book.add_order(Price::new(19, 0), Order::new(BidOrAsk::Bid, 70));
    let mut market = Order::new(BidOrAsk::Bid, 60);
    book.fill_market_order(&mut market);
    assert!(market.is_filled());
    assert_eq!(sizes_of(&book.ask_limits()[0]), vec![0, 0]);
    assert_eq!(sizes_of(&book.ask_limits()[1]), vec![30]);
    assert_eq!(sizes_of(&book.bid_limits()[0]), vec![70]);
}

#[test]
fn bid_market_order_larger_than_asks_keeps_rest() {
    let mut book = Orderbook::new();
    book.add_order(Price::new(20, 0), Order::new(BidOrAsk::Ask, 30));
    book.add_order(Price::new(21, 0), Order::new(BidOrAsk::Ask, 50));
    let mut market = Order::new(BidOrAsk::Bid, 100);
    book.fill_market_order(&mut market);
    assert_eq!(market.size(), 20);
    assert_eq!(book.ask_limits()[0].total_volume(), 0);
    assert_eq!(book.ask_limits()[1].total_volume(), 0);
}

#[test]
fn ask_market_order_changes_nothing() {
    let mut book = Orderbook::new();
    book.add_order(Price::new(19, 0), Order::new(BidOrAsk::Bid, 70));
    book.add_order(Price::new(20, 0), Order::new(BidOrAsk::Ask, 30));
    let mut market = Order::new(BidOrAsk::Ask, 50);
    book.fill_market_order(&mut market);
    assert_eq!(market.size(), 50);
    assert_eq!(sizes_of(&book.bid_limits()[0]), vec![70]);
    assert_eq!(sizes_of(&book.ask_limits()[0]), vec![30]);
}

#[test]
fn price_drops_trailing_zeros() {
    let p = Price::new(-12300, 3);
    assert_eq!(p.mantissa(), -123);
    assert_eq!(p.scale(), 1);
    assert_eq!(Price::new(10000, 0).mantissa(), 10000);
    assert_eq!(Price::new(10000, 0).scale(), 0);
    assert_eq!(Price::new(0, 5), Price::new(0, 0));
    assert_eq!(Price::new(i128::MIN, 0).mantissa(), i128::MIN);
    assert_ne!(Price::new(15, 1), Price::new(15, 2));
}

#[test]
fn price_from_decimal_is_normal() {
    let p = Price::from_decimal(&Decimal::new(1500, 3));
    assert_eq!(p.mantissa(), 15);
    assert_eq!(p.scale(), 1);
    assert_eq!(p, Price::new(15, 1));
    let q = Price::from_decimal(&Decimal::new(-20, 0));
    assert_eq!(q.mantissa(), -20);
    assert_eq!(q.scale(), 0);
}
