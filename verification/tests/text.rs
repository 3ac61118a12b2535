use replay::observe::{Event, TimedEvent};
use replay::text::{decimal_text, signed_text};
use replay::{LimitOrder, Price, Side, Trade};

#[test]
fn numbers_are_written_in_decimal() {
    for n in [0, 1, 9, 10, 42, 100, 1234567890, u128::MAX] {
        assert_eq!(decimal_text(n), n.to_string());
    }
    for n in [0, 7, -1, -10, i64::MIN, i64::MAX] {
        assert_eq!(signed_text(n), n.to_string());
    }
}

#[test]
fn new_order_text() {
    let order = LimitOrder {
        id: 1,
        side: Side::Buy,
        price: Price::new(100).unwrap(),
        quantity: 1,
    };
    assert_eq!(
        TimedEvent::at(Event::New(order), 1700000000000000000).to_string(),
        "1700000000000000000 New(LimitOrder { id: 1, side: Buy, price: 100, quantity: 1 })"
    );
}

#[test]
fn trade_event_text() {
    let trade = Trade {
        maker_id: 1,
        taker_id: 20,
        price: Price::new(-3).unwrap(),
        quantity: u64::MAX,
    };
    assert_eq!(
        TimedEvent::at(Event::Trade(trade), 0).to_string(),
        "0 Trade(Trade { maker_id: 1, taker_id: 20, price: -3, quantity: 18446744073709551615 })"
    );
}

#[test]
fn cancel_event_text() {
    assert_eq!(
        TimedEvent::at(Event::Cancel { order_id: 7 }, 12).to_string(),
        "12 Cancel { order_id: 7 }"
    );
}

#[test]
fn amend_event_text() {
    assert_eq!(
        TimedEvent::at(
            Event::Amend {
                order_id: 7,
                new_price: Price::new(i64::MIN),
                new_quantity: None
            },
            1
        )
        .to_string(),
        "1 Amend { order_id: 7, new_price: Some(-9223372036854775808), new_quantity: None }"
    );
    assert_eq!(
        TimedEvent::at(
            Event::Amend {
                order_id: 8,
                new_price: None,
                new_quantity: Some(5)
            },
            1
        )
        .to_string(),
        "1 Amend { order_id: 8, new_price: None, new_quantity: Some(5) }"
    );
}

#[test]
fn labelled_event_text() {
    assert_eq!(
        TimedEvent::at(Event::Cancel { order_id: 7 }, 12).labelled("ConsoleLogger"),
        "[ConsoleLogger] 12 Cancel { order_id: 7 }"
    );
}

#[test]
fn converted_events_carry_the_time() {
    let before = std::time::SystemTime::now()
        .duration_since(std::time::UNIX_EPOCH)
        .unwrap()
        .as_nanos();
    let timed = TimedEvent::from(Event::Cancel { order_id: 7 });
    let after = std::time::SystemTime::now()
        .duration_since(std::time::UNIX_EPOCH)
        .unwrap()
        .as_nanos();
    assert!(matches!(timed.event(), Event::Cancel { order_id: 7 }));
    let text = timed.to_string();
    let time: u128 = text.split(' ').next().unwrap().parse().unwrap();
    assert!(before <= time && time <= after);
}

#[test]
fn clock_before_the_epoch_records_the_epoch() {
    let event = Event::Cancel { order_id: 7 };
    assert_eq!(
        TimedEvent::at_reading(event, None).to_string(),
        "0 Cancel { order_id: 7 }"
    );
    assert_eq!(
        TimedEvent::at_reading(event, Some(12)).to_string(),
        "12 Cancel { order_id: 7 }"
    );
}

#[test]
fn prices_are_formatted_as_their_ticks() {
    let price = Price::new(-101).unwrap();
    assert_eq!(format!("{:?}", price), "-101");
    assert_eq!(format!("{:#?}", price), "-101");
    assert_eq!(format!("{:6?}|", price), "  -101|");
    let trade = Trade {
        maker_id: 1,
        taker_id: 2,
        price,
        quantity: 3,
    };
    assert_eq!(
        format!("{:?}", trade),
        "Trade { maker_id: 1, taker_id: 2, price: -101, quantity: 3 }"
    );
}
