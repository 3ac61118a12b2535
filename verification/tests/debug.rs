use std::collections::{BTreeMap, BTreeSet, VecDeque};
use std::num::NonZero;

use replay::text::{cancelled_order_text, level_text, limit_order_text, trade_text};
use replay::{CancelledOrder, Level, LimitOrder, Price, Quantity, Side, Trade};

#[allow(dead_code)]
#[derive(Debug)]
struct PriceLevel {
    queue: VecDeque<u64>,
}

#[allow(dead_code)]
#[derive(Debug)]
struct RestingOrder {
    side: Side,
    price: NonZero<i64>,
    remaining: u64,
}

#[allow(dead_code)]
#[derive(Debug)]
struct OrderBook {
    observer: String,
    bids: BTreeMap<NonZero<i64>, PriceLevel>,
    asks: BTreeMap<NonZero<i64>, PriceLevel>,
    resting_orders: BTreeMap<u64, RestingOrder>,
    seen_order_ids: BTreeSet<u64>,
}

fn ticks(ticks: i64) -> NonZero<i64> {
    NonZero::new(ticks).unwrap()
}

fn resting(side: Side, price: i64, remaining: Quantity) -> RestingOrder {
    RestingOrder {
        side,
        price: ticks(price),
        remaining,
    }
}

fn queue(ids: &[u64]) -> PriceLevel {
    PriceLevel {
        queue: ids.iter().copied().collect(),
    }
}

fn order(id: u64, side: Side, price: i64, quantity: Quantity) -> LimitOrder {
    LimitOrder {
        id,
        side,
        price: Price::new(price).unwrap(),
        quantity,
    }
}

#[test]
fn book_is_shown_like_a_structure() {
    let mut book = replay::OrderBook::new();
    book.submit(order(12, Side::Buy, 100, 2)).unwrap();
    book.submit(order(3, Side::Buy, 100, 5)).unwrap();
    book.submit(order(7, Side::Buy, -4, 1)).unwrap();
    book.submit(order(9, Side::Sell, 101, 6)).unwrap();
    book.submit(order(10, Side::Buy, 101, 6)).unwrap();
    let shown = OrderBook {
        observer: String::from("No Observer"),
        bids: BTreeMap::from([(ticks(100), queue(&[12, 3])), (ticks(-4), queue(&[7]))]),
        asks: BTreeMap::new(),
        resting_orders: BTreeMap::from([
            (12, resting(Side::Buy, 100, 2)),
            (3, resting(Side::Buy, 100, 5)),
            (7, resting(Side::Buy, -4, 1)),
        ]),
        seen_order_ids: BTreeSet::from([12, 3, 7, 9, 10]),
    };
    assert_eq!(book.to_debug_string(), format!("{:?}", shown));
    assert_eq!(book.to_pretty_debug_string(), format!("{:#?}", shown));
}

#[test]
fn pretty_text_of_a_small_book() {
    let mut book = replay::OrderBook::new();
    book.submit(order(1, Side::Sell, 5, 2)).unwrap();
    assert_eq!(
        book.to_pretty_debug_string(),
        "OrderBook {
    observer: \"No Observer\",
    bids: {},
    asks: {
        5: PriceLevel {
            queue: [
                1,
            ],
        },
    },
    resting_orders: {
        1: RestingOrder {
            side: Sell,
            price: 5,
            remaining: 2,
        },
    },
    seen_order_ids: {
        1,
    },
}"
    );
}

#[test]
fn texts_are_those_of_debug() {
    let price = Price::new(-7).unwrap();
    let level = Level {
        price,
        quantity: 12,
        order_count: 3,
    };
    assert_eq!(
        level_text(level),
        "Level { price: -7, quantity: 12, order_count: 3 }"
    );
    assert_eq!(level_text(level), format!("{:?}", level));
    let cancelled = CancelledOrder {
        id: 4,
        side: Side::Sell,
        price,
        quantity: 2,
    };
    assert_eq!(
        cancelled_order_text(cancelled),
        "CancelledOrder { id: 4, side: Sell, price: -7, quantity: 2 }"
    );
    assert_eq!(cancelled_order_text(cancelled), format!("{:?}", cancelled));
    let order = order(4, Side::Buy, 9, 2);
    assert_eq!(limit_order_text(order), format!("{:?}", order));
    let trade = Trade {
        maker_id: 1,
        taker_id: 2,
        price,
        quantity: 3,
    };
    assert_eq!(trade_text(trade), format!("{:?}", trade));
}
