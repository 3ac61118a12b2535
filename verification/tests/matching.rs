use replay::{
    BookError, CancelledOrder, Level, LimitOrder, OrderBook, OrderId, Price, Quantity, Side, Trade,
};

fn price(ticks: i64) -> Price {
    Price::new(ticks).unwrap()
}

fn order(id: OrderId, side: Side, price: Price, quantity: Quantity) -> LimitOrder {
    LimitOrder {
        id,
        side,
        price,
        quantity,
    }
}

#[test]
fn matches_in_price_then_time_priority() {
    let mut book = OrderBook::new();
    book.submit(order(1, Side::Sell, price(101), 5)).unwrap();
    book.submit(order(2, Side::Sell, price(101), 4)).unwrap();
    book.submit(order(3, Side::Sell, price(102), 7)).unwrap();

    let trades = book
        .submit(order(4, Side::Buy, price(102), 10))
        .unwrap();

    assert_eq!(
        trades,
        vec![
            Trade {
                maker_id: 1,
                taker_id: 4,
                price: price(101),
                quantity: 5
            },
            Trade {
                maker_id: 2,
                taker_id: 4,
                price: price(101),
                quantity: 4
            },
            Trade {
                maker_id: 3,
                taker_id: 4,
                price: price(102),
                quantity: 1
            },
        ]
    );
    assert_eq!(
        book.best_ask(),
        Some(Level {
            price: price(102),
            quantity: 6,
            order_count: 1
        })
    );
    assert_eq!(book.best_bid(), None);
}

#[test]
fn execution_uses_the_resting_orders_price() {
    let mut book = OrderBook::new();
    book.submit(order(1, Side::Buy, price(100), 3)).unwrap();

    let trades = book.submit(order(2, Side::Sell, price(99), 2)).unwrap();

    assert_eq!(
        trades,
        vec![Trade {
            maker_id: 1,
            taker_id: 2,
            price: price(100),
            quantity: 2
        }]
    );
    assert_eq!(
        book.best_bid(),
        Some(Level {
            price: price(100),
            quantity: 1,
            order_count: 1
        })
    );
}

#[test]
fn cancel_removes_only_the_requested_order() {
    let mut book = OrderBook::new();
    book.submit(order(1, Side::Buy, price(100), 2)).unwrap();
    book.submit(order(2, Side::Buy, price(100), 5)).unwrap();

    assert_eq!(
        book.cancel(1),
        Ok(CancelledOrder {
            id: 1,
            side: Side::Buy,
            price: price(100),
            quantity: 2
        })
    );
    assert_eq!(
        book.best_bid(),
        Some(Level {
            price: price(100),
            quantity: 5,
            order_count: 1
        })
    );
    assert_eq!(book.cancel(1), Err(BookError::UnknownOrderId(1)));
}

#[test]
fn rejects_invalid_or_reused_ids() {
    let mut book = OrderBook::new();
    assert_eq!(
        book.submit(order(1, Side::Buy, price(100), 0)),
        Err(BookError::ZeroQuantity)
    );
    book.submit(order(1, Side::Buy, price(100), 1)).unwrap();
    assert_eq!(
        book.submit(order(1, Side::Sell, price(100), 1)),
        Err(BookError::DuplicateOrderId(1))
    );
}
