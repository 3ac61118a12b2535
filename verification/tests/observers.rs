use std::cell::RefCell;
use std::rc::Rc;

use replay::observe::{Event, MultiObserver, Observer, ObserverError, TimedEvent};
use replay::{BookError, LimitOrder, OrderBook, Price, Side, Trade};

struct Recorder {
    events: Rc<RefCell<Vec<TimedEvent>>>,
    fails: bool,
}

impl Observer for Recorder {
    fn log(&mut self, event: &TimedEvent) -> Result<(), ObserverError> {
        self.events.borrow_mut().push(*event);
        if self.fails {
            Err(ObserverError {
                message: String::from("full"),
            })
        } else {
            Ok(())
        }
    }
}

#[test]
fn observer_sees_accepted_requests() {
    let events = Rc::new(RefCell::new(Vec::new()));
    let mut book = OrderBook::new_with_observer(Recorder {
        events: events.clone(),
        fails: false,
    });
    let order = LimitOrder {
        id: 1,
        side: Side::Buy,
        price: Price::new(100).unwrap(),
        quantity: 2,
    };
    book.submit(order).unwrap();
    assert!(book.submit(order).is_err());
    book.cancel(1).unwrap();
    assert!(book.cancel(1).is_err());
    let events = events.borrow();
    assert_eq!(events.len(), 2);
    assert!(matches!(events[0].event(), Event::New(seen) if seen == order));
    assert!(matches!(
        events[1].event(),
        Event::Cancel { order_id: 1 }
    ));
}

#[test]
fn multi_observer_stops_at_the_first_failure() {
    let logs: Vec<Rc<RefCell<Vec<TimedEvent>>>> =
        (0..3).map(|_| Rc::new(RefCell::new(Vec::new()))).collect();
    let mut multi = MultiObserver::new([
        Box::new(Recorder { events: logs[0].clone(), fails: false }) as Box<dyn Observer>,
        Box::new(Recorder { events: logs[1].clone(), fails: true }),
        Box::new(Recorder { events: logs[2].clone(), fails: false }),
    ]);
    let result = multi.log(&TimedEvent::at(Event::Cancel { order_id: 7 }, 0));
    assert_eq!(result.unwrap_err().message, "full");
    assert_eq!(logs[0].borrow().len(), 1);
    assert_eq!(logs[1].borrow().len(), 1);
    assert_eq!(logs[2].borrow().len(), 0);
}

fn limit_order(id: u64, side: Side, ticks: i64, quantity: u64) -> LimitOrder {
    LimitOrder {
        id,
        side,
        price: Price::new(ticks).unwrap(),
        quantity,
    }
}

#[test]
fn multi_observer_reports_to_all() {
    let logs: Vec<Rc<RefCell<Vec<TimedEvent>>>> =
        (0..2).map(|_| Rc::new(RefCell::new(Vec::new()))).collect();
    let multi = MultiObserver::new([
        Box::new(Recorder { events: logs[0].clone(), fails: false }) as Box<dyn Observer>,
        Box::new(Recorder { events: logs[1].clone(), fails: false }),
    ]);
    let mut book = OrderBook::new_with_observer(multi);
    book.submit(limit_order(1, Side::Sell, 10, 2)).unwrap();
    book.submit(limit_order(2, Side::Buy, 10, 1)).unwrap();
    for log in logs {
        let log = log.borrow();
        assert_eq!(log.len(), 2);
        assert!(matches!(log[0].event(), Event::New(order) if order.id == 1));
        assert!(matches!(log[1].event(), Event::New(order) if order.id == 2));
    }
}

#[test]
fn multi_observer_of_nobody_takes_everything() {
    let mut multi = MultiObserver::new([]);
    assert!(multi
        .log(&TimedEvent::at(Event::Cancel { order_id: 7 }, 0))
        .is_ok());
}

#[test]
fn unreported_order_is_not_matched() {
    let events = Rc::new(RefCell::new(Vec::new()));
    let mut book = OrderBook::new_with_observer(Recorder {
        events: events.clone(),
        fails: true,
    });
    let order = limit_order(1, Side::Buy, 100, 2);
    let error = book.try_submit(order).unwrap_err();
    assert_eq!(error.message, "full");
    assert_eq!(events.borrow().len(), 1);
    assert_eq!(book.resting_order_count(), 0);
    assert_eq!(
        book.try_submit(order).unwrap(),
        Err(BookError::DuplicateOrderId(1))
    );
    assert_eq!(events.borrow().len(), 1);
}

struct Limited {
    left: usize,
}

impl Observer for Limited {
    fn log(&mut self, _event: &TimedEvent) -> Result<(), ObserverError> {
        if self.left == 0 {
            return Err(ObserverError {
                message: String::from("worn out"),
            });
        }
        self.left -= 1;
        Ok(())
    }
}

#[test]
fn unreported_cancellation_still_removes_the_order() {
    let mut book = OrderBook::new_with_observer(Limited { left: 2 });
    book.try_submit(limit_order(1, Side::Buy, 100, 2))
        .unwrap()
        .unwrap();
    assert_eq!(
        book.try_submit(limit_order(2, Side::Sell, 100, 1)).unwrap(),
        Ok(vec![Trade {
            maker_id: 1,
            taker_id: 2,
            price: Price::new(100).unwrap(),
            quantity: 1
        }])
    );
    assert_eq!(book.try_cancel(1).unwrap_err().message, "worn out");
    assert_eq!(book.resting_order_count(), 0);
    assert_eq!(
        book.try_cancel(1).unwrap(),
        Err(BookError::UnknownOrderId(1))
    );
}

#[test]
fn event_log_replays_to_the_book() {
    let events = Rc::new(RefCell::new(Vec::new()));
    let mut book = OrderBook::new_with_observer(Recorder {
        events: events.clone(),
        fails: false,
    });
    book.submit(limit_order(4, Side::Sell, 101, 5)).unwrap();
    book.submit(limit_order(5, Side::Sell, 102, 5)).unwrap();
    book.submit(limit_order(6, Side::Buy, 101, 7)).unwrap();
    book.submit(limit_order(6, Side::Buy, 101, 7)).unwrap_err();
    book.submit(limit_order(7, Side::Buy, 90, 0)).unwrap_err();
    book.submit(limit_order(8, Side::Buy, 90, 3)).unwrap();
    book.cancel(5).unwrap();
    book.cancel(5).unwrap_err();

    let mut again = OrderBook::new();
    for event in events.borrow().iter() {
        match event.event() {
            Event::New(order) => {
                again.submit(order).unwrap();
            }
            Event::Cancel { order_id } => {
                again.cancel(order_id).unwrap();
            }
            _ => unreachable!(),
        }
    }
    assert_eq!(events.borrow().len(), 5);
    assert_eq!(
        again.to_debug_string(),
        book.to_debug_string()
            .replace("Attached Observer", "No Observer")
    );
}

#[test]
fn refused_requests_reach_no_observer() {
    let events = Rc::new(RefCell::new(Vec::new()));
    let mut book = OrderBook::new_with_observer(Recorder {
        events: events.clone(),
        fails: true,
    });
    let before = book.to_debug_string();
    assert_eq!(
        book.submit(limit_order(1, Side::Buy, 100, 0)),
        Err(BookError::ZeroQuantity)
    );
    assert_eq!(book.cancel(1), Err(BookError::UnknownOrderId(1)));
    assert_eq!(book.to_debug_string(), before);
    assert!(book.try_submit(limit_order(1, Side::Buy, 100, 1)).is_err());
    assert_eq!(
        book.submit(limit_order(1, Side::Buy, 100, 1)),
        Err(BookError::DuplicateOrderId(1))
    );
    assert_eq!(events.borrow().len(), 1);
}
