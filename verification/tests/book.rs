use replay::{
    BookError, CancelledOrder, Level, LimitOrder, OrderBook, OrderId, Price, Quantity, Side, Trade,
};

fn price(ticks: i64) -> Price {
    Price::new(ticks).unwrap()
}

fn order(id: OrderId, side: Side, ticks: i64, quantity: Quantity) -> LimitOrder {
    LimitOrder {
        id,
        side,
        price: price(ticks),
        quantity,
    }
}

fn trade(maker_id: OrderId, taker_id: OrderId, ticks: i64, quantity: Quantity) -> Trade {
    Trade {
        maker_id,
        taker_id,
        price: price(ticks),
        quantity,
    }
}

fn level(ticks: i64, quantity: Quantity, order_count: usize) -> Option<Level> {
    Some(Level {
        price: price(ticks),
        quantity,
        order_count,
    })
}

#[test]
fn prices_are_never_zero() {
    assert_eq!(Price::new(0), None);
    assert_eq!(Price::new(7).unwrap().get(), 7);
    assert_eq!(Price::new(i64::MIN).unwrap().get(), i64::MIN);
}

#[test]
fn a_new_book_is_empty() {
    for book in [OrderBook::new(), OrderBook::default()] {
        assert_eq!(book.best_bid(), None);
        assert_eq!(book.best_ask(), None);
        assert_eq!(book.checked_best_bid(), Some(None));
        assert_eq!(book.checked_best_ask(), Some(None));
        assert_eq!(book.resting_order_count(), 0);
    }
}

#[test]
fn sell_order_sweeps_the_highest_bids_first() {
    let mut book = OrderBook::new();
    book.submit(order(1, Side::Buy, 98, 4)).unwrap();
    book.submit(order(2, Side::Buy, 100, 3)).unwrap();
    book.submit(order(3, Side::Buy, 99, 2)).unwrap();
    book.submit(order(4, Side::Buy, 100, 1)).unwrap();

    let trades = book.submit(order(5, Side::Sell, 99, 20)).unwrap();

    assert_eq!(
        trades,
        vec![
            trade(2, 5, 100, 3),
            trade(4, 5, 100, 1),
            trade(3, 5, 99, 2)
        ]
    );
    assert_eq!(book.best_bid(), level(98, 4, 1));
    assert_eq!(book.best_ask(), level(99, 14, 1));
    assert_eq!(book.resting_order_count(), 2);
}

#[test]
fn limit_equal_to_the_best_price_trades() {
    let mut book = OrderBook::new();
    book.submit(order(1, Side::Sell, 101, 1)).unwrap();
    assert_eq!(
        book.submit(order(2, Side::Buy, 100, 1)).unwrap(),
        Vec::new()
    );
    assert_eq!(
        book.submit(order(3, Side::Buy, 101, 1)).unwrap(),
        vec![trade(1, 3, 101, 1)]
    );
    assert_eq!(
        book.submit(order(4, Side::Sell, 100, 1)).unwrap(),
        vec![trade(2, 4, 100, 1)]
    );
    assert_eq!(book.resting_order_count(), 0);
}

#[test]
fn negative_prices_order_like_numbers() {
    let mut book = OrderBook::new();
    book.submit(order(1, Side::Sell, -5, 1)).unwrap();
    book.submit(order(2, Side::Sell, 3, 1)).unwrap();
    book.submit(order(3, Side::Buy, -7, 1)).unwrap();
    book.submit(order(4, Side::Buy, -9, 1)).unwrap();
    assert_eq!(book.best_ask(), level(-5, 1, 1));
    assert_eq!(book.best_bid(), level(-7, 1, 1));
    assert_eq!(
        book.submit(order(5, Side::Buy, -5, 2)).unwrap(),
        vec![trade(1, 5, -5, 1)]
    );
    assert_eq!(book.best_bid(), level(-5, 1, 1));
}

#[test]
fn partial_fill_keeps_time_priority() {
    let mut book = OrderBook::new();
    book.submit(order(1, Side::Sell, 10, 5)).unwrap();
    book.submit(order(2, Side::Sell, 10, 5)).unwrap();
    assert_eq!(
        book.submit(order(3, Side::Buy, 10, 2)).unwrap(),
        vec![trade(1, 3, 10, 2)]
    );
    assert_eq!(book.best_ask(), level(10, 8, 2));
    assert_eq!(
        book.submit(order(4, Side::Buy, 10, 4)).unwrap(),
        vec![trade(1, 4, 10, 3), trade(2, 4, 10, 1)]
    );
    assert_eq!(book.best_ask(), level(10, 4, 1));
}

#[test]
fn exact_fill_empties_the_level() {
    let mut book = OrderBook::new();
    book.submit(order(1, Side::Buy, 10, 5)).unwrap();
    assert_eq!(
        book.submit(order(2, Side::Sell, 10, 5)).unwrap(),
        vec![trade(1, 2, 10, 5)]
    );
    assert_eq!(book.best_bid(), None);
    assert_eq!(book.best_ask(), None);
    assert_eq!(book.cancel(1), Err(BookError::UnknownOrderId(1)));
    assert_eq!(book.cancel(2), Err(BookError::UnknownOrderId(2)));
}

#[test]
fn cancel_in_the_middle_keeps_the_others_in_line() {
    let mut book = OrderBook::new();
    for id in 1..=3 {
        book.submit(order(id, Side::Sell, 50, id)).unwrap();
    }
    assert_eq!(
        book.cancel(2),
        Ok(CancelledOrder {
            id: 2,
            side: Side::Sell,
            price: price(50),
            quantity: 2
        })
    );
    assert_eq!(book.best_ask(), level(50, 4, 2));
    assert_eq!(
        book.submit(order(4, Side::Buy, 50, 9)).unwrap(),
        vec![trade(1, 4, 50, 1), trade(3, 4, 50, 3)]
    );
    assert_eq!(book.best_bid(), level(50, 5, 1));
}

#[test]
fn cancel_returns_what_is_unfilled() {
    let mut book = OrderBook::new();
    book.submit(order(1, Side::Sell, 10, 4)).unwrap();
    book.submit(order(2, Side::Buy, 11, 9)).unwrap();
    assert_eq!(
        book.cancel(2),
        Ok(CancelledOrder {
            id: 2,
            side: Side::Buy,
            price: price(11),
            quantity: 5
        })
    );
    assert_eq!(book.resting_order_count(), 0);
}

#[test]
fn cancel_undoes_a_submission_but_for_its_identifier() {
    let mut book = OrderBook::new();
    book.submit(order(1, Side::Buy, 10, 1)).unwrap();
    book.submit(order(2, Side::Buy, 12, 1)).unwrap();
    book.submit(order(3, Side::Buy, 11, 1)).unwrap();
    book.cancel(3).unwrap();
    assert_eq!(book.best_bid(), level(12, 1, 1));
    assert_eq!(book.resting_order_count(), 2);
    assert_eq!(
        book.submit(order(3, Side::Buy, 11, 1)),
        Err(BookError::DuplicateOrderId(3))
    );
}

#[test]
fn filled_identifiers_are_not_reused() {
    let mut book = OrderBook::new();
    book.submit(order(1, Side::Sell, 10, 1)).unwrap();
    book.submit(order(2, Side::Buy, 10, 1)).unwrap();
    assert_eq!(book.resting_order_count(), 0);
    for id in [1, 2] {
        assert_eq!(
            book.submit(order(id, Side::Buy, 10, 1)),
            Err(BookError::DuplicateOrderId(id))
        );
    }
}

#[test]
fn refused_orders_do_not_use_up_their_identifier() {
    let mut book = OrderBook::new();
    assert_eq!(
        book.submit(order(1, Side::Sell, 10, 0)),
        Err(BookError::ZeroQuantity)
    );
    assert_eq!(book.submit(order(1, Side::Sell, 10, 1)), Ok(Vec::new()));
    assert_eq!(
        book.submit(order(1, Side::Sell, 10, 0)),
        Err(BookError::ZeroQuantity)
    );
}

#[test]
fn unknown_orders_cannot_be_cancelled() {
    let mut book = OrderBook::new();
    assert_eq!(book.cancel(9), Err(BookError::UnknownOrderId(9)));
    book.submit(order(1, Side::Buy, 10, 1)).unwrap();
    assert_eq!(book.cancel(9), Err(BookError::UnknownOrderId(9)));
    assert_eq!(book.resting_order_count(), 1);
}

#[test]
fn errors_differ() {
    assert_ne!(BookError::NonPositivePrice, BookError::ZeroQuantity);
    assert_ne!(BookError::UnknownOrderId(1), BookError::UnknownOrderId(2));
}

#[test]
fn matching_makes_and_loses_no_lots() {
    let mut book = OrderBook::new();
    book.submit(order(1, Side::Sell, 10, 7)).unwrap();
    book.submit(order(2, Side::Sell, 11, 8)).unwrap();
    let trades = book.submit(order(3, Side::Buy, 11, 12)).unwrap();
    let traded: Quantity = trades.iter().map(|trade| trade.quantity).sum();
    assert_eq!(traded, 12);
    assert_eq!(book.best_ask(), level(11, 3, 1));
    assert_eq!(book.best_bid(), None);
}

#[test]
fn the_book_is_never_crossed() {
    let mut book = OrderBook::new();
    let limits = [5, 9, -3, 7, 7, 12, -8, 1, 4, 6];
    for (i, ticks) in limits.iter().enumerate() {
        let id = i as OrderId;
        let side = if i % 2 == 0 { Side::Buy } else { Side::Sell };
        let trades = book.submit(order(id, side, *ticks, 3 + id)).unwrap();
        for trade in trades {
            assert_ne!(trade.maker_id, id);
            assert_eq!(trade.taker_id, id);
            match side {
                Side::Buy => assert!(trade.price <= price(*ticks)),
                Side::Sell => assert!(trade.price >= price(*ticks)),
            }
        }
        if let (Some(bid), Some(ask)) = (book.best_bid(), book.best_ask()) {
            assert!(bid.price < ask.price);
        }
    }
}

#[test]
fn level_that_does_not_fit_is_reported_as_missing() {
    let mut book = OrderBook::new();
    book.submit(order(1, Side::Buy, 10, Quantity::MAX)).unwrap();
    assert_eq!(
        book.checked_best_bid(),
        Some(level(10, Quantity::MAX, 1))
    );
    book.submit(order(2, Side::Buy, 10, 1)).unwrap();
    assert_eq!(book.checked_best_bid(), None);
    book.submit(order(3, Side::Sell, 20, Quantity::MAX)).unwrap();
    book.submit(order(4, Side::Sell, 20, 1)).unwrap();
    assert_eq!(book.checked_best_ask(), None);
    book.cancel(3).unwrap();
    assert_eq!(book.checked_best_ask(), Some(level(20, 1, 1)));
}

#[test]
fn debug_text_of_an_empty_book() {
    assert_eq!(
        OrderBook::new().to_debug_string(),
        "OrderBook { observer: \"No Observer\", bids: {}, asks: {}, resting_orders: {}, \
         seen_order_ids: {} }"
    );
}

#[test]
fn debug_text_lists_levels_orders_and_identifiers() {
    let mut book = OrderBook::new();
    book.submit(order(12, Side::Buy, 100, 2)).unwrap();
    book.submit(order(3, Side::Buy, 100, 5)).unwrap();
    book.submit(order(7, Side::Buy, -4, 1)).unwrap();
    book.submit(order(9, Side::Sell, 101, 6)).unwrap();
    book.submit(order(10, Side::Buy, 101, 6)).unwrap();
    book.submit(order(11, Side::Sell, 102, 8)).unwrap();
    assert_eq!(
        book.to_debug_string(),
        "OrderBook { observer: \"No Observer\", \
         bids: {-4: PriceLevel { queue: [7] }, 100: PriceLevel { queue: [12, 3] }}, \
         asks: {102: PriceLevel { queue: [11] }}, \
         resting_orders: {3: RestingOrder { side: Buy, price: 100, remaining: 5 }, \
         7: RestingOrder { side: Buy, price: -4, remaining: 1 }, \
         11: RestingOrder { side: Sell, price: 102, remaining: 8 }, \
         12: RestingOrder { side: Buy, price: 100, remaining: 2 }}, \
         seen_order_ids: {3, 7, 9, 10, 11, 12} }"
    );
}

#[test]
fn a_level_matches_alike_on_either_side() {
    let mut bids = OrderBook::new();
    let mut asks = OrderBook::new();
    for id in 1..=3 {
        bids.submit(order(id, Side::Buy, 10, 2 * id)).unwrap();
        asks.submit(order(id, Side::Sell, 10, 2 * id)).unwrap();
    }
    let sold = bids.submit(order(4, Side::Sell, 10, 5)).unwrap();
    let bought = asks.submit(order(4, Side::Buy, 10, 5)).unwrap();
    assert_eq!(sold, vec![trade(1, 4, 10, 2), trade(2, 4, 10, 3)]);
    assert_eq!(bought, sold);
    assert_eq!(bids.best_bid(), level(10, 7, 2));
    assert_eq!(asks.best_ask(), level(10, 7, 2));
}

#[test]
fn buyers_and_sellers_are_treated_alike() {
    let mut book = OrderBook::new();
    let mut reflection = OrderBook::new();
    let session = [
        (Side::Buy, 7, 3),
        (Side::Buy, 9, 4),
        (Side::Sell, 12, 5),
        (Side::Sell, 8, 6),
        (Side::Buy, 13, 2),
        (Side::Sell, -2, 9),
    ];
    for (i, (side, ticks, quantity)) in session.into_iter().enumerate() {
        let id = i as OrderId;
        let other = match side {
            Side::Buy => Side::Sell,
            Side::Sell => Side::Buy,
        };
        let trades = book.submit(order(id, side, ticks, quantity)).unwrap();
        let reflected: Vec<Trade> = reflection
            .submit(order(id, other, -ticks, quantity))
            .unwrap()
            .into_iter()
            .map(|t| trade(t.maker_id, t.taker_id, -t.price.get(), t.quantity))
            .collect();
        assert_eq!(trades, reflected);
    }
    assert_eq!(book.best_bid(), None);
    assert_eq!(book.best_ask(), level(-2, 6, 1));
    assert_eq!(reflection.best_bid(), level(2, 6, 1));
}

#[test]
fn cancel_reports_the_submitted_quantity_less_its_trades() {
    let mut book = OrderBook::new();
    let mut trades = Vec::new();
    trades.extend(book.submit(order(1, Side::Sell, 10, 3)).unwrap());
    trades.extend(book.submit(order(2, Side::Buy, 11, 20)).unwrap());
    trades.extend(book.submit(order(3, Side::Sell, 11, 4)).unwrap());
    trades.extend(book.submit(order(4, Side::Buy, 9, 7)).unwrap());
    trades.extend(book.submit(order(5, Side::Sell, 8, 6)).unwrap());
    let traded: Quantity = trades
        .iter()
        .filter(|trade| trade.maker_id == 2 || trade.taker_id == 2)
        .map(|trade| trade.quantity)
        .sum();
    assert_eq!(traded, 13);
    assert_eq!(
        book.cancel(2),
        Ok(CancelledOrder {
            id: 2,
            side: Side::Buy,
            price: price(11),
            quantity: 20 - traded
        })
    );
}

#[test]
fn orders_that_left_stay_unknown() {
    let mut book = OrderBook::new();
    book.submit(order(1, Side::Sell, 10, 3)).unwrap();
    book.submit(order(2, Side::Sell, 11, 3)).unwrap();
    book.cancel(1).unwrap();
    book.submit(order(3, Side::Buy, 11, 4)).unwrap();
    for id in [1, 2] {
        assert_eq!(
            book.submit(order(id, Side::Buy, 5, 1)),
            Err(BookError::DuplicateOrderId(id))
        );
        book.submit(order(10 + id, Side::Buy, 5, 1)).unwrap();
        assert_eq!(book.cancel(id), Err(BookError::UnknownOrderId(id)));
    }
}
