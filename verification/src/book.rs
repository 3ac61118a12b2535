//! The order book itself.

use std::collections::{BTreeMap, BTreeSet};

use vstd::prelude::*;

use crate::debug;
use crate::lemmas;
use crate::meaning;
use crate::model;
use crate::model::{BookView, QueuedOrder};
use crate::observe;
use crate::observe::{Event, Observer, ObserverError, Report, TimedEvent};
use crate::side::BookSide;
use crate::sorted;
use crate::text;
use crate::types::{
    BookError, CancelledOrder, Level, LimitOrder, OrderId, Price, Quantity, Side, Trade,
};

verus! {

/// What the book remembers of an order that waits.
#[derive(Clone, Copy)]
struct RestingOrder {
    side: Side,
    price: Price,
    remaining: Quantity,
}

/// An observer behind the book's own type, so that a book can hold any.
struct Attached<O> {
    observer: O,
}

impl<O: Observer> Observer for Attached<O> {
    closed spec fn history(&self) -> Seq<Report> {
        self.observer.history()
    }

    closed spec fn reliable(&self) -> bool {
        self.observer.reliable()
    }

    fn log(&mut self, event: &TimedEvent) -> (result: Result<(), ObserverError>) {
        self.observer.log(event)
    }
}

/// A single-instrument continuous limit order book.
///
/// `BTreeMap` makes the best-price selection deterministic: the lowest ask is
/// the first ask key, and the highest bid is the last bid key.
pub struct OrderBook {
    observer: Option<Box<dyn Observer>>,
    bids: BookSide,
    asks: BookSide,
    resting_orders: BTreeMap<OrderId, RestingOrder>,
    /// Identifiers are never reused, including when an order fully executes
    /// instead of becoming a resting order.  This makes an event stream
    /// unambiguous.
    seen_order_ids: BTreeSet<OrderId>,
}

/// Whether `resting` holds exactly the orders of `book`.
closed spec fn records(resting: Map<OrderId, RestingOrder>, book: BookView) -> bool {
    &&& forall|i: int|
        0 <= i < book.bids.len() ==> recorded(resting, Side::Buy, #[trigger] book.bids[i])
    &&& forall|i: int|
        0 <= i < book.asks.len() ==> recorded(resting, Side::Sell, #[trigger] book.asks[i])
    &&& forall|id: OrderId| #[trigger]
        resting.contains_key(id) ==> model::waits(book.queue(resting[id].side), id)
}

/// Whether `resting` holds `order`, which waits on `side`.
closed spec fn recorded(
    resting: Map<OrderId, RestingOrder>,
    side: Side,
    order: QueuedOrder,
) -> bool {
    &&& resting.contains_key(order.id)
    &&& resting[order.id] == RestingOrder {
        side,
        price: order.price,
        remaining: order.remaining,
    }
}

impl View for OrderBook {
    type V = BookView;

    closed spec fn view(&self) -> BookView {
        BookView {
            bids: self.bids.queue@,
            asks: self.asks.queue@,
            seen: self.seen_order_ids@,
        }
    }
}

impl Default for OrderBook {
    /// An empty book that reports to nobody.
    fn default() -> (book: OrderBook)
        ensures
            book.wf(),
            book@ == BookView::empty(),
            book.history() is None,
            book.reports_reliably(),
    {
        OrderBook::new()
    }
}

impl OrderBook {
    /// The stored maps agree with each other and with the mathematical book.
    closed spec fn agrees(&self) -> bool {
        &&& self.bids.wf(Side::Buy)
        &&& self.asks.wf(Side::Sell)
        &&& records(self.resting_orders@, self@)
    }

    /// The stored maps agree with each other and with the mathematical book,
    /// which is consistent.
    closed spec fn sound(&self) -> bool {
        self.agrees() && self@.consistent()
    }

    /// The stored maps agree with each other and with the mathematical book,
    /// which is well formed.
    pub closed spec fn wf(&self) -> bool {
        self.sound() && self@.uncrossed()
    }

    /// A book whose maps agree stands for a well formed mathematical book, so
    /// what holds of those holds of it.
    pub proof fn wf_is_of_the_model(&self)
        requires
            self.wf(),
        ensures
            self@.wf(),
    {
    }

    /// What was reported to the attached observer so far, if there is one.
    pub closed spec fn history(&self) -> Option<Seq<Report>> {
        match self.observer {
            Some(observer) => Some(observer.history()),
            None => None,
        }
    }

    /// Whether reporting an event cannot fail: no observer is attached, or the
    /// attached one takes every event.
    pub closed spec fn reports_reliably(&self) -> bool {
        match self.observer {
            Some(observer) => observer.reliable(),
            None => true,
        }
    }

    /// An empty book that reports accepted requests to `observer`.
    pub fn new_with_observer(observer: impl Observer + 'static) -> (book: OrderBook)
        ensures
            book.wf(),
            book@ == BookView::empty(),
            book.history() == Some(observer.history()),
            book.reports_reliably() == observer.reliable(),
    {
        OrderBook { observer: Some(Box::new(Attached { observer })), ..OrderBook::new() }
    }

    /// An empty book that reports to nobody.
    pub fn new() -> (book: OrderBook)
        ensures
            book.wf(),
            book@ == BookView::empty(),
            book.history() is None,
            book.reports_reliably(),
    {
        let book = OrderBook {
            observer: None,
            bids: BookSide::new(),
            asks: BookSide::new(),
            resting_orders: BTreeMap::new(),
            seen_order_ids: BTreeSet::new(),
        };
        assert(book@ =~= BookView::empty());
        book
    }

    /// Submits a limit order, immediately matching any executable quantity.
    /// Returns fills in their exact matching order.  An order that is not
    /// refused must be taken by the observer.
    pub fn submit(&mut self, order: LimitOrder) -> (result: Result<Vec<Trade>, BookError>)
        requires
            old(self).wf(),
            old(self).reports_reliably() || old(self)@.refusal(order) is Some,
        ensures
            final(self).wf(),
            old(self).reports_reliably() ==> final(self).reports_reliably(),
            match old(self)@.refusal(order) {
                Some(error) => {
                    &&& result == Err::<Vec<Trade>, BookError>(error)
                    &&& final(self)@ == old(self)@
                    &&& final(self).history() == old(self).history()
                },
                None => {
                    &&& result is Ok
                    &&& result->Ok_0@ == old(self)@.fill(order).trades
                    &&& forall|i: int|
                        0 <= i < result->Ok_0@.len() ==> {
                            &&& (#[trigger] result->Ok_0@[i]).taker_id == order.id
                            &&& order.side is Buy ==> result->Ok_0@[i].price@ <= order.price@
                            &&& order.side is Sell ==> result->Ok_0@[i].price@ >= order.price@
                        }
                    &&& final(self)@ == old(self)@.submit(order)
                    &&& observe::reported(
                        old(self).history(),
                        final(self).history(),
                        Event::New(order),
                        None,
                    )
                },
            },
    {
        self.try_submit(order).expect("Failed to log")
    }

    /// Submits a limit order like [`OrderBook::submit`], and hands the
    /// observer's error back when the order cannot be reported.  The order is
    /// not matched then, but its identifier counts as used.
    pub fn try_submit(&mut self, order: LimitOrder) -> (outcome: Result<
        Result<Vec<Trade>, BookError>,
        ObserverError,
    >)
        requires
            old(self).wf(),
        ensures
            final(self).wf(),
            old(self).reports_reliably() ==> outcome is Ok && final(self).reports_reliably(),
            match (old(self)@.refusal(order), outcome) {
                (Some(error), _) => {
                    &&& outcome == Ok::<Result<Vec<Trade>, BookError>, ObserverError>(Err(error))
                    &&& final(self)@ == old(self)@
                    &&& final(self).history() == old(self).history()
                },
                (None, Ok(result)) => {
                    &&& result is Ok
                    &&& result->Ok_0@ == old(self)@.fill(order).trades
                    &&& forall|i: int|
                        0 <= i < result->Ok_0@.len() ==> {
                            &&& (#[trigger] result->Ok_0@[i]).taker_id == order.id
                            &&& order.side is Buy ==> result->Ok_0@[i].price@ <= order.price@
                            &&& order.side is Sell ==> result->Ok_0@[i].price@ >= order.price@
                        }
                    &&& final(self)@ == old(self)@.submit(order)
                    &&& observe::reported(
                        old(self).history(),
                        final(self).history(),
                        Event::New(order),
                        None,
                    )
                },
                (None, Err(error)) => {
                    &&& final(self)@ == old(self)@.with_seen(order.id)
                    &&& observe::reported(
                        old(self).history(),
                        final(self).history(),
                        Event::New(order),
                        Some(error),
                    )
                },
            },
    {
        if order.quantity == 0 {
            return Ok(Err(BookError::ZeroQuantity));
        }
        let ghost before = self@;
        let fresh = self.seen_order_ids.insert(order.id);
        proof {
            assert(self@ =~= before.with_seen(order.id));
            if !fresh {
                assert(self@ =~= before);
            }
        }
        if !fresh {
            return Ok(Err(BookError::DuplicateOrderId(order.id)));
        }
        match self.record(Event::New(order)) {
            Ok(()) => {},
            Err(error) => {
                return Err(error);
            },
        }
        let trades = self.execute(order);
        proof {
            meaning::what_an_order_trades(before, order);
            assert(trades@ == before.fill(order).trades);
        }
        Ok(Ok(trades))
    }

    /// Removes the unfilled portion of a resting order.  The cancellation of an
    /// order that waits must be taken by the observer.
    pub fn cancel(&mut self, id: OrderId) -> (result: Result<CancelledOrder, BookError>)
        requires
            old(self).wf(),
            old(self).reports_reliably() || old(self)@.side_of(id) is None,
        ensures
            final(self).wf(),
            old(self).reports_reliably() ==> final(self).reports_reliably(),
            match old(self)@.side_of(id) {
                Some(side) => {
                    &&& result == Ok::<CancelledOrder, BookError>(old(self)@.cancelled(side, id))
                    &&& final(self)@ == old(self)@.cancel(side, id)
                    &&& observe::reported(
                        old(self).history(),
                        final(self).history(),
                        Event::Cancel { order_id: id },
                        None,
                    )
                },
                None => {
                    &&& result == Err::<CancelledOrder, BookError>(BookError::UnknownOrderId(id))
                    &&& final(self)@ == old(self)@
                    &&& final(self).history() == old(self).history()
                },
            },
    {
        self.try_cancel(id).expect("Failed to Log")
    }

    /// Removes the unfilled portion of a resting order like
    /// [`OrderBook::cancel`], and hands the observer's error back when the
    /// cancellation cannot be reported.  The order is gone even then.
    pub fn try_cancel(&mut self, id: OrderId) -> (outcome: Result<
        Result<CancelledOrder, BookError>,
        ObserverError,
    >)
        requires
            old(self).wf(),
        ensures
            final(self).wf(),
            old(self).reports_reliably() ==> outcome is Ok && final(self).reports_reliably(),
            match (old(self)@.side_of(id), outcome) {
                (Some(side), Ok(result)) => {
                    &&& result == Ok::<CancelledOrder, BookError>(old(self)@.cancelled(side, id))
                    &&& final(self)@ == old(self)@.cancel(side, id)
                    &&& observe::reported(
                        old(self).history(),
                        final(self).history(),
                        Event::Cancel { order_id: id },
                        None,
                    )
                },
                (Some(side), Err(error)) => {
                    &&& final(self)@ == old(self)@.cancel(side, id)
                    &&& observe::reported(
                        old(self).history(),
                        final(self).history(),
                        Event::Cancel { order_id: id },
                        Some(error),
                    )
                },
                (None, _) => {
                    &&& outcome == Ok::<Result<CancelledOrder, BookError>, ObserverError>(
                        Err(BookError::UnknownOrderId(id)),
                    )
                    &&& final(self)@ == old(self)@
                    &&& final(self).history() == old(self).history()
                },
            },
    {
        let ghost before = self@;
        let order = match self.resting_orders.remove(&id) {
            Some(order) => order,
            None => {
                proof {
                    assert(self.resting_orders@ =~= old(self).resting_orders@);
                    lemma_waiting_is_recorded(self.resting_orders@, before, id);
                }
                return Ok(Err(BookError::UnknownOrderId(id)));
            },
        };
        let ghost at = model::position(before.queue(order.side), id);
        proof {
            lemma_waiting_is_recorded(old(self).resting_orders@, before, id);
        }
        match order.side {
            Side::Buy => self.bids.remove(order.side, order.price, id),
            Side::Sell => self.asks.remove(order.side, order.price, id),
        }
        proof {
            lemma_leaving(old(self).resting_orders@, before, order.side, at);
            assert(self@ =~= before.cancel(order.side, id));
        }
        match self.record(Event::Cancel { order_id: id }) {
            Ok(()) => {},
            Err(error) => {
                return Err(error);
            },
        }
        Ok(
            Ok(
                CancelledOrder {
                    id,
                    side: order.side,
                    price: order.price,
                    quantity: order.remaining,
                },
            ),
        )
    }

    /// The best bid level.  Its lots must fit in a [`Quantity`].
    pub fn best_bid(&self) -> (level: Option<Level>)
        requires
            self.wf(),
            model::lots(self@.top(Side::Buy)) <= Quantity::MAX,
        ensures
            level == self@.best(Side::Buy),
            level matches Some(best) ==> best.order_count == self@.top(Side::Buy).len(),
            level matches Some(best) ==> best.quantity == self@.bids.filter(
                |o: QueuedOrder| o.price@ == best.price@,
            ).fold_left(0int, |sum: int, o: QueuedOrder| sum + o.remaining),
            level matches Some(best) ==> forall|i: int|
                0 <= i < self@.bids.len() ==> (#[trigger] self@.bids[i]).price@ <= best.price@,
    {
        self.checked_best_bid().unwrap()
    }

    /// The best ask level.  Its lots must fit in a [`Quantity`].
    pub fn best_ask(&self) -> (level: Option<Level>)
        requires
            self.wf(),
            model::lots(self@.top(Side::Sell)) <= Quantity::MAX,
        ensures
            level == self@.best(Side::Sell),
            level matches Some(best) ==> best.order_count == self@.top(Side::Sell).len(),
            level matches Some(best) ==> best.quantity == self@.asks.filter(
                |o: QueuedOrder| o.price@ == best.price@,
            ).fold_left(0int, |sum: int, o: QueuedOrder| sum + o.remaining),
            level matches Some(best) ==> forall|i: int|
                0 <= i < self@.asks.len() ==> (#[trigger] self@.asks[i]).price@ >= best.price@,
    {
        self.checked_best_ask().unwrap()
    }

    /// The best bid level, or `None` if its lots do not fit in a [`Quantity`].
    pub fn checked_best_bid(&self) -> (level: Option<Option<Level>>)
        requires
            self.wf(),
        ensures
            level == if model::lots(self@.top(Side::Buy)) <= Quantity::MAX {
                Some(self@.best(Side::Buy))
            } else {
                None
            },
            level matches Some(Some(best)) ==> best.order_count == self@.top(Side::Buy).len(),
            level matches Some(Some(best)) ==> best.quantity == self@.bids.filter(
                |o: QueuedOrder| o.price@ == best.price@,
            ).fold_left(0int, |sum: int, o: QueuedOrder| sum + o.remaining),
            level matches Some(Some(best)) ==> forall|i: int|
                0 <= i < self@.bids.len() ==> (#[trigger] self@.bids[i]).price@ <= best.price@,
    {
        proof {
            meaning::what_the_best_level_is(self@, Side::Buy, self@.bids);
        }
        match self.bids.best(Side::Buy) {
            Some(price) => {
                proof {
                    lemmas::at_ticks_nonempty(self@.bids, price@);
                }
                match self.level(Side::Buy, price) {
                    Some(level) => Some(Some(level)),
                    None => None,
                }
            },
            None => {
                proof {
                    reveal(Seq::filter);
                }
                Some(None)
            },
        }
    }

    /// The best ask level, or `None` if its lots do not fit in a [`Quantity`].
    pub fn checked_best_ask(&self) -> (level: Option<Option<Level>>)
        requires
            self.wf(),
        ensures
            level == if model::lots(self@.top(Side::Sell)) <= Quantity::MAX {
                Some(self@.best(Side::Sell))
            } else {
                None
            },
            level matches Some(Some(best)) ==> best.order_count == self@.top(Side::Sell).len(),
            level matches Some(Some(best)) ==> best.quantity == self@.asks.filter(
                |o: QueuedOrder| o.price@ == best.price@,
            ).fold_left(0int, |sum: int, o: QueuedOrder| sum + o.remaining),
            level matches Some(Some(best)) ==> forall|i: int|
                0 <= i < self@.asks.len() ==> (#[trigger] self@.asks[i]).price@ >= best.price@,
    {
        proof {
            meaning::what_the_best_level_is(self@, Side::Sell, self@.asks);
        }
        match self.asks.best(Side::Sell) {
            Some(price) => {
                proof {
                    lemmas::at_ticks_nonempty(self@.asks, price@);
                }
                match self.level(Side::Sell, price) {
                    Some(level) => Some(Some(level)),
                    None => None,
                }
            },
            None => {
                proof {
                    reveal(Seq::filter);
                }
                Some(None)
            },
        }
    }

    /// The number of orders that wait.
    pub fn resting_order_count(&self) -> (count: usize)
        requires
            self.wf(),
        ensures
            count == self@.bids.len() + self@.asks.len(),
    {
        proof {
            lemma_record_count(self.resting_orders@, self@);
        }
        self.resting_orders.len()
    }

    /// The book as text, with every field by name, on one line.
    pub fn to_debug_string(&self) -> (string: String)
        requires
            self.wf(),
        ensures
            string@ == debug::book(self@, self.history() is Some, false),
    {
        self.debug_text(false)
    }

    /// The book as text, with every field by name, one field or entry to a line.
    pub fn to_pretty_debug_string(&self) -> (string: String)
        requires
            self.wf(),
        ensures
            string@ == debug::book(self@, self.history() is Some, true),
    {
        self.debug_text(true)
    }

    /// The book as text, with every field by name.
    fn debug_text(&self, pretty: bool) -> (string: String)
        requires
            self.wf(),
        ensures
            string@ == debug::book(self@, self.history() is Some, pretty),
    {
        let observer = match self.observer {
            Some(_) => "\"Attached Observer\"",
            None => "\"No Observer\"",
        };
        let bids = debug::levels_text(&self.bids, Side::Buy, pretty);
        let asks = debug::levels_text(&self.asks, Side::Sell, pretty);
        let resting_orders = self.resting_orders_text(pretty);
        let seen_order_ids = debug::identifiers_text(&self.seen_order_ids, pretty);
        let mut fields: Vec<String> = Vec::new();
        fields.push(debug::named_text("observer: ", observer));
        fields.push(debug::named_text("bids: ", bids.as_str()));
        fields.push(debug::named_text("asks: ", asks.as_str()));
        fields.push(debug::named_text("resting_orders: ", resting_orders.as_str()));
        fields.push(debug::named_text("seen_order_ids: ", seen_order_ids.as_str()));
        assert(debug::views(fields@) =~= seq![
            "observer: "@ + debug::observer(self.history() is Some),
            "bids: "@ + debug::levels(self@.bids, pretty),
            "asks: "@ + debug::levels(self@.asks, pretty),
            "resting_orders: "@ + debug::resting_orders(self@, pretty),
            "seen_order_ids: "@ + debug::identifiers(self@.seen, pretty),
        ]);
        debug::structure_text("OrderBook", &fields, pretty, 0)
    }

    /// The order named `id`, which waits, behind its identifier.
    fn resting_order_text(&self, id: OrderId, pretty: bool) -> (text: String)
        requires
            self.wf(),
            self.resting_orders@.contains_key(id),
        ensures
            text@ == debug::resting_order(self@, id, pretty),
    {
        proof {
            lemma_waiting_is_recorded(self.resting_orders@, self@, id);
        }
        let order = *self.resting_orders.get(&id).unwrap();
        let mut fields: Vec<String> = Vec::new();
        fields.push(debug::named_text("side: ", text::side_text(order.side)));
        fields.push(debug::named_text("price: ", text::price_text(order.price).as_str()));
        fields.push(debug::named_text("remaining: ", text::number_text(order.remaining).as_str()));
        assert(debug::views(fields@) =~= seq![
            "side: "@ + text::side(order.side),
            "price: "@ + text::signed(order.price@ as int),
            "remaining: "@ + text::decimal(order.remaining as nat),
        ]);
        let mut text = text::number_text(id);
        text.append(": ");
        text.append(debug::structure_text("RestingOrder", &fields, pretty, 2).as_str());
        text
    }

    /// The orders that wait, by ascending identifier.
    fn resting_orders_text(&self, pretty: bool) -> (text: String)
        requires
            self.wf(),
        ensures
            text@ == debug::resting_orders(self@, pretty),
    {
        let ghost book = self@;
        let keys = sorted::identifiers(&self.resting_orders);
        let ghost waiting = Set::new(|id: OrderId| book.side_of(id) is Some);
        let ghost ascending = debug::ascending_ids(waiting);
        let ghost texts = ascending.map_values(
            |id: int| debug::resting_order(book, id as OrderId, pretty),
        );
        proof {
            assert forall|id: OrderId| keys@.to_set().contains(id) <==> waiting.contains(id) by {
                lemma_waiting_is_recorded(self.resting_orders@, book, id);
            }
            assert(keys@.to_set() =~= waiting);
            debug::ascending_ids_is(keys@);
        }
        let mut entries: Vec<String> = Vec::new();
        let mut i: usize = 0;
        while i < keys.len()
            invariant
                0 <= i <= keys.len(),
                self.wf(),
                book == self@,
                keys@.to_set() == self.resting_orders@.dom(),
                ascending.len() == keys@.len(),
                forall|j: int| 0 <= j < keys@.len() ==> #[trigger] ascending[j] == keys@[j],
                texts == ascending.map_values(
                    |id: int| debug::resting_order(book, id as OrderId, pretty),
                ),
                entries@.len() == i,
                forall|j: int| 0 <= j < i ==> (#[trigger] entries@[j])@ == texts[j],
            decreases keys.len() - i,
        {
            let id: OrderId = keys[i];
            assert(keys@.to_set().contains(keys@[i as int]));
            assert(self.resting_orders@.contains_key(id));
            assert(ascending[i as int] == id);
            entries.push(self.resting_order_text(id, pretty));
            i = i + 1;
        }
        assert(debug::views(entries@) =~= texts);
        debug::group_text("{", &entries, "}", pretty, 1)
    }

    /// The orders of `side` that wait at `price`, as one level, or `None` if
    /// their lots do not fit in a [`Quantity`].
    fn level(&self, side: Side, price: Price) -> (level: Option<Level>)
        requires
            self.wf(),
            model::at_ticks(self@.queue(side), price@).len() > 0,
        ensures
            ({
                let orders = model::at_ticks(self@.queue(side), price@);
                level == if model::lots(orders) <= Quantity::MAX {
                    Some(
                        Level {
                            price,
                            quantity: model::lots(orders) as Quantity,
                            order_count: orders.len() as usize,
                        },
                    )
                } else {
                    None
                }
            }),
            level matches Some(best) ==> best.order_count == model::at_ticks(
                self@.queue(side),
                price@,
            ).len(),
    {
        let ghost queue = self@.queue(side);
        let ghost orders = model::at_ticks(queue, price@);
        let ticks: i64 = price.get();
        let level = match side {
            Side::Buy => self.bids.levels.get(&ticks).unwrap(),
            Side::Sell => self.asks.levels.get(&ticks).unwrap(),
        };
        let mut quantity: Quantity = 0;
        let mut i: usize = 0;
        proof {
            lemmas::at_ticks_names_once(queue, side, price@);
            assert(orders.take(0) =~= Seq::<QueuedOrder>::empty());
        }
        while i < level.queue.len()
            invariant
                self.wf(),
                queue == self@.queue(side),
                orders == model::at_ticks(queue, price@),
                level.queue@ == model::ids(orders),
                0 <= i <= level.queue.len(),
                quantity == model::lots(orders.take(i as int)),
                forall|j: int| 0 <= j < orders.len() ==> queue.contains(#[trigger] orders[j]),
            decreases level.queue.len() - i,
        {
            proof {
                assert(queue.contains(orders[i as int]));
                let j = choose|j: int| 0 <= j < queue.len() && queue[j] == orders[i as int];
                assert(recorded(self.resting_orders@, side, queue[j]));
                lemmas::lots_of_next(orders, i as int);
                lemmas::lots_of_take(orders, i + 1);
            }
            let order = *self.resting_orders.get(&level.queue[i]).unwrap();
            quantity = match quantity.checked_add(order.remaining) {
                Some(sum) => sum,
                None => {
                    return None;
                },
            };
            i = i + 1;
        }
        assert(orders.take(i as int) =~= orders);
        Some(Level { price, quantity, order_count: level.queue.len() })
    }

    /// Reports `event` to the attached observer, if there is one.
    fn record(&mut self, event: Event) -> (result: Result<(), ObserverError>)
        ensures
            old(self).wf() ==> final(self).wf(),
            final(self)@ == old(self)@,
            observe::reported(old(self).history(), final(self).history(), event, result.err()),
            old(self).reports_reliably() ==> result is Ok && final(self).reports_reliably(),
    {
        let result = match &mut self.observer {
            Some(observer) => observer.log(&event.into()),
            None => Ok(()),
        };
        proof {
            if let Some(earlier) = old(self).history() {
                let later = self.history()->0;
                assert(later.drop_last() =~= earlier);
            }
        }
        result
    }

    /// Matches an accepted order and lets what is left of it wait.
    fn execute(&mut self, order: LimitOrder) -> (trades: Vec<Trade>)
        requires
            old(self).wf(),
            order.quantity > 0,
            old(self)@.seen.contains(order.id),
            !model::waits(old(self)@.bids, order.id),
            !model::waits(old(self)@.asks, order.id),
        ensures
            final(self).wf(),
            trades@ == old(self)@.fill(order).trades,
            final(self)@ == old(self)@.execute(order),
            final(self).observer == old(self).observer,
    {
        let mut remaining: Quantity = order.quantity;
        let mut trades: Vec<Trade> = Vec::new();
        match order.side {
            Side::Buy => self.sweep_asks(order, &mut remaining, &mut trades),
            Side::Sell => self.sweep_bids(order, &mut remaining, &mut trades),
        }
        if remaining > 0 {
            self.rest(
                RestingOrder { side: order.side, price: order.price, remaining },
                order.id,
            );
        }
        trades
    }

    /// Matches a buy order against the asks, best first.
    fn sweep_asks(
        &mut self,
        order: LimitOrder,
        remaining: &mut Quantity,
        trades: &mut Vec<Trade>,
    )
        requires
            old(self).wf(),
            order.side == Side::Buy,
            *old(remaining) == order.quantity,
            old(trades)@.len() == 0,
            !model::waits(old(self)@.asks, order.id),
        ensures
            final(self).wf(),
            ({
                let fill = old(self)@.fill(order);
                &&& final(trades)@ == fill.trades
                &&& *final(remaining) == fill.remaining
                &&& final(self)@ == (BookView { asks: fill.makers, ..old(self)@ })
                &&& !model::waits(fill.makers, order.id)
                &&& fill.remaining > 0 && fill.makers.len() > 0 ==> order.price@
                    < fill.makers[0].price@
            }),
            final(self).observer == old(self).observer,
    {
        let ghost fill = self@.fill(order);
        assert(model::after_trades(trades@, fill).trades =~= fill.trades);
        while *remaining > 0
            invariant_except_break
                model::after_trades(
                    trades@,
                    model::sweep(order.side, order.price, order.id, *remaining, self@.asks),
                ) == fill,
            invariant
                self.wf(),
                self.observer == old(self).observer,
                self@ == (BookView { asks: self@.asks, ..old(self)@ }),
                order.side == Side::Buy,
                !model::waits(self@.asks, order.id),
            ensures
                trades@ == fill.trades,
                *remaining == fill.remaining,
                self@.asks == fill.makers,
                *remaining > 0 && self@.asks.len() > 0 ==> order.price@ < self@.asks[0].price@,
            decreases *remaining,
        {
            let best_ask = match self.asks.best(Side::Sell) {
                Some(price) => price,
                None => {
                    assert(trades@ =~= fill.trades);
                    break;
                },
            };
            if best_ask.get() > order.price.get() {
                // Too high
                assert(trades@ =~= fill.trades);
                break;
            }
            let ghost makers = self@.asks;
            let ghost quantity = *remaining;
            let ghost made = trades@;
            proof {
                lemmas::at_ticks_nonempty(makers, best_ask@);
            }
            self.match_ask(order.id, best_ask, remaining, trades);
            proof {
                lemmas::sweep_starts_with_a_hit(
                    order.side,
                    order.price,
                    order.id,
                    quantity,
                    makers,
                );
                lemmas::hit_keeps_queue_wf(Side::Sell, makers, order.id, quantity);
                let step = model::hit(makers, 0, order.id, quantity);
                let rest = model::sweep(
                    order.side,
                    order.price,
                    order.id,
                    step.remaining,
                    step.makers,
                );
                assert(trades@ + rest.trades =~= made + (step.trades + rest.trades));
            }
        }
    }

    /// Matches a sell order against the bids, best first.
    fn sweep_bids(
        &mut self,
        order: LimitOrder,
        remaining: &mut Quantity,
        trades: &mut Vec<Trade>,
    )
        requires
            old(self).wf(),
            order.side == Side::Sell,
            *old(remaining) == order.quantity,
            old(trades)@.len() == 0,
            !model::waits(old(self)@.bids, order.id),
        ensures
            final(self).wf(),
            ({
                let fill = old(self)@.fill(order);
                &&& final(trades)@ == fill.trades
                &&& *final(remaining) == fill.remaining
                &&& final(self)@ == (BookView { bids: fill.makers, ..old(self)@ })
                &&& !model::waits(fill.makers, order.id)
                &&& fill.remaining > 0 && fill.makers.len() > 0 ==> order.price@
                    > fill.makers[0].price@
            }),
            final(self).observer == old(self).observer,
    {
        let ghost fill = self@.fill(order);
        assert(model::after_trades(trades@, fill).trades =~= fill.trades);
        while *remaining > 0
            invariant_except_break
                model::after_trades(
                    trades@,
                    model::sweep(order.side, order.price, order.id, *remaining, self@.bids),
                ) == fill,
            invariant
                self.wf(),
                self.observer == old(self).observer,
                self@ == (BookView { bids: self@.bids, ..old(self)@ }),
                order.side == Side::Sell,
                !model::waits(self@.bids, order.id),
            ensures
                trades@ == fill.trades,
                *remaining == fill.remaining,
                self@.bids == fill.makers,
                *remaining > 0 && self@.bids.len() > 0 ==> order.price@ > self@.bids[0].price@,
            decreases *remaining,
        {
            let best_bid = match self.bids.best(Side::Buy) {
                Some(price) => price,
                None => {
                    assert(trades@ =~= fill.trades);
                    break;
                },
            };
            if best_bid.get() < order.price.get() {
                // Too low
                assert(trades@ =~= fill.trades);
                break;
            }
            let ghost makers = self@.bids;
            let ghost quantity = *remaining;
            let ghost made = trades@;
            proof {
                lemmas::at_ticks_nonempty(makers, best_bid@);
            }
            self.match_bid(order.id, best_bid, remaining, trades);
            proof {
                lemmas::sweep_starts_with_a_hit(
                    order.side,
                    order.price,
                    order.id,
                    quantity,
                    makers,
                );
                lemmas::hit_keeps_queue_wf(Side::Buy, makers, order.id, quantity);
                let step = model::hit(makers, 0, order.id, quantity);
                let rest = model::sweep(
                    order.side,
                    order.price,
                    order.id,
                    step.remaining,
                    step.makers,
                );
                assert(trades@ + rest.trades =~= made + (step.trades + rest.trades));
            }
        }
    }

    /// Lets an order wait in its place.
    fn rest(&mut self, order: RestingOrder, id: OrderId)
        requires
            old(self).sound(),
            !model::waits(old(self)@.bids, id),
            !model::waits(old(self)@.asks, id),
            order.remaining > 0,
        ensures
            final(self)@ == old(self)@.rest(
                order.side,
                (QueuedOrder { id, price: order.price, remaining: order.remaining }),
            ),
            final(self).resting_orders@ == old(self).resting_orders@.insert(id, order),
            final(self).agrees(),
            old(self)@.seen.contains(id) ==> final(self).sound(),
            ({
                let others = old(self)@.queue(model::opposite(order.side));
                &&& old(self)@.seen.contains(id)
                &&& old(self)@.uncrossed()
                &&& others.len() > 0 ==> !model::crosses(
                    order.side,
                    order.price,
                    others[0].price,
                )
            }) ==> final(self).wf(),
            final(self).observer == old(self).observer,
    {
        let ghost before = self@;
        match order.side {
            Side::Buy => self.bids.push(order.side, id, order.price, order.remaining),
            Side::Sell => self.asks.push(order.side, id, order.price, order.remaining),
        }
        self.resting_orders.insert(id, order);
        proof {
            let queued = QueuedOrder { id, price: order.price, remaining: order.remaining };
            lemma_joining(old(self).resting_orders@, before, order.side, queued);
            assert(self@ =~= before.rest(order.side, queued));
            if before.seen.contains(id) {
                lemmas::rest_keeps_book_wf(before, order.side, queued);
            }
        }
    }

    /// Matches against the front of the level of `side` at `price`.  The queue
    /// front is the earliest order at that price, so it must fill before every
    /// later order.
    fn match_front(
        &mut self,
        side: Side,
        taker_id: OrderId,
        price: Price,
        remaining: &mut Quantity,
        trades: &mut Vec<Trade>,
    )
        requires
            old(self).sound(),
            model::at_ticks(old(self)@.queue(side), price@).len() > 0,
        ensures
            ({
                let makers = old(self)@.queue(side);
                let front = model::first_at(makers, price@);
                let step = model::hit(makers, front, taker_id, *old(remaining));
                &&& final(self)@ == old(self)@.with_queue(side, step.makers)
                &&& *final(remaining) == step.remaining
                &&& final(trades)@ == old(trades)@ + step.trades
            }),
            final(self).sound(),
            old(self).wf() ==> final(self).wf(),
            final(self).observer == old(self).observer,
    {
        let ghost before = self@;
        let ghost makers = before.queue(side);
        let ghost front = model::first_at(makers, price@);
        let maker_id: OrderId = match side {
            Side::Buy => self.bids.front(side, price),
            Side::Sell => self.asks.front(side, price),
        };
        proof {
            lemmas::first_at_is_first(makers, price@);
            assert(recorded(self.resting_orders@, side, makers[front]));
            broadcast use crate::types::price_is_its_ticks;
            assert(makers[front].price@ == price@);
        }
        let maker = *self.resting_orders.get(&maker_id).unwrap();
        let filled: Quantity = if *remaining < maker.remaining {
            *remaining
        } else {
            maker.remaining
        };
        let ghost step = model::hit(makers, front, taker_id, *remaining);
        *remaining = *remaining - filled;
        trades.push(Trade { maker_id, taker_id, price, quantity: filled });
        assert(trades@ =~= old(trades)@ + step.trades);
        if filled == maker.remaining {
            self.remove_filled_front(side, price, maker_id);
        } else {
            self.resting_orders.insert(
                maker_id,
                RestingOrder { side, price, remaining: maker.remaining - filled },
            );
            match side {
                Side::Buy => self.bids.shrink_front(side, price, filled),
                Side::Sell => self.asks.shrink_front(side, price, filled),
            }
            proof {
                lemma_shrinking(old(self).resting_orders@, before, side, front, filled);
                assert(self@ =~= before.with_queue(side, step.makers));
            }
        }
    }

    /// Matches against the front of the ask level at `price`.
    fn match_ask(
        &mut self,
        taker_id: OrderId,
        price: Price,
        remaining: &mut Quantity,
        trades: &mut Vec<Trade>,
    )
        requires
            old(self).sound(),
            model::at_ticks(old(self)@.asks, price@).len() > 0,
        ensures
            ({
                let makers = old(self)@.asks;
                let front = model::first_at(makers, price@);
                let step = model::hit(makers, front, taker_id, *old(remaining));
                &&& final(self)@ == (BookView { asks: step.makers, ..old(self)@ })
                &&& *final(remaining) == step.remaining
                &&& final(trades)@ == old(trades)@ + step.trades
            }),
            final(self).sound(),
            old(self).wf() ==> final(self).wf(),
            final(self).observer == old(self).observer,
    {
        self.match_front(Side::Sell, taker_id, price, remaining, trades);
    }

    /// Matches against the front of the bid level at `price`.
    fn match_bid(
        &mut self,
        taker_id: OrderId,
        price: Price,
        remaining: &mut Quantity,
        trades: &mut Vec<Trade>,
    )
        requires
            old(self).sound(),
            model::at_ticks(old(self)@.bids, price@).len() > 0,
        ensures
            ({
                let makers = old(self)@.bids;
                let front = model::first_at(makers, price@);
                let step = model::hit(makers, front, taker_id, *old(remaining));
                &&& final(self)@ == (BookView { bids: step.makers, ..old(self)@ })
                &&& *final(remaining) == step.remaining
                &&& final(trades)@ == old(trades)@ + step.trades
            }),
            final(self).sound(),
            old(self).wf() ==> final(self).wf(),
            final(self).observer == old(self).observer,
    {
        self.match_front(Side::Buy, taker_id, price, remaining, trades);
    }

    /// Removes the order named `id`, which is first in line at `price`.
    fn remove_filled_front(&mut self, side: Side, price: Price, id: OrderId)
        requires
            old(self).sound(),
            model::at_ticks(old(self)@.queue(side), price@).len() > 0,
            ({
                let queue = old(self)@.queue(side);
                queue[model::first_at(queue, price@)].id == id
            }),
        ensures
            final(self).sound(),
            old(self).wf() ==> final(self).wf(),
            ({
                let queue = old(self)@.queue(side);
                final(self)@ == old(self)@.with_queue(
                    side,
                    queue.remove(model::first_at(queue, price@)),
                )
            }),
            final(self).observer == old(self).observer,
    {
        let ghost before = self@;
        self.resting_orders.remove(&id);
        match side {
            Side::Buy => self.bids.pop_front(side, price),
            Side::Sell => self.asks.pop_front(side, price),
        }
        proof {
            let queue = before.queue(side);
            let front = model::first_at(queue, price@);
            lemmas::first_at_is_first(queue, price@);
            lemma_leaving(old(self).resting_orders@, before, side, front);
            assert(recorded(old(self).resting_orders@, side, queue[front]));
            assert(self.resting_orders@ =~= old(self).resting_orders@.remove(id));
            assert(self@ =~= before.with_queue(side, queue.remove(front)));
        }
    }
}

/// A book stays consistent, uncrossed and recorded when lots are taken off one
/// of its orders.
proof fn lemma_shrinking(
    resting: Map<OrderId, RestingOrder>,
    book: BookView,
    side: Side,
    i: int,
    quantity: Quantity,
)
    requires
        book.consistent(),
        records(resting, book),
        0 <= i < book.queue(side).len(),
        quantity < book.queue(side)[i].remaining,
    ensures
        ({
            let queue = book.queue(side);
            let order = model::shrunk(queue[i], quantity);
            let after = book.with_queue(side, queue.update(i, order));
            &&& after.consistent()
            &&& book.uncrossed() ==> after.uncrossed()
            &&& records(
                resting.insert(
                    order.id,
                    RestingOrder { side, price: order.price, remaining: order.remaining },
                ),
                after,
            )
        }),
{
    let queue = book.queue(side);
    let order = model::shrunk(queue[i], quantity);
    let left = queue.update(i, order);
    let after = book.with_queue(side, left);
    let changed = resting.insert(
        order.id,
        RestingOrder { side, price: order.price, remaining: order.remaining },
    );
    assert(recorded(resting, side, queue[i]));
    assert forall|j: int| 0 <= j < left.len() implies (#[trigger] left[j]).id == queue[j].id
        && left[j].price == queue[j].price by {}
    assert forall|id: OrderId| #[trigger] changed.contains_key(id) implies model::waits(
        after.queue(changed[id].side),
        id,
    ) by {
        assert(resting.contains_key(id));
        let home = book.queue(resting[id].side);
        let j = model::position(home, id);
        assert(0 <= j < home.len() && home[j].id == id);
        assert(after.queue(resting[id].side)[j].id == id);
    }
}

/// A book stays recorded when an order joins it.
proof fn lemma_joining(
    resting: Map<OrderId, RestingOrder>,
    book: BookView,
    side: Side,
    order: QueuedOrder,
)
    requires
        book.consistent(),
        records(resting, book),
        !model::waits(book.bids, order.id),
        !model::waits(book.asks, order.id),
    ensures
        records(
            resting.insert(
                order.id,
                RestingOrder { side, price: order.price, remaining: order.remaining },
            ),
            book.rest(side, order),
        ),
{
    let queue = book.queue(side);
    let at = model::place(side, queue, order.price);
    let longer = queue.insert(at, order);
    let after = book.rest(side, order);
    let more = resting.insert(
        order.id,
        RestingOrder { side, price: order.price, remaining: order.remaining },
    );
    lemmas::place_parts_the_queue(side, queue, order.price);
    assert forall|j: int| 0 <= j < longer.len() implies (#[trigger] longer[j]) == if j < at {
        queue[j]
    } else if j == at {
        order
    } else {
        queue[j - 1]
    } by {}
    assert(longer[at] == order);
    assert forall|i: int| 0 <= i < after.bids.len() implies recorded(
        more,
        Side::Buy,
        #[trigger] after.bids[i],
    ) by {
        if side == Side::Buy {
            if i < at {
                assert(book.bids[i].id != order.id);
            } else if i > at {
                assert(book.bids[i - 1].id != order.id);
            }
        } else {
            assert(book.bids[i].id != order.id);
        }
    }
    assert forall|i: int| 0 <= i < after.asks.len() implies recorded(
        more,
        Side::Sell,
        #[trigger] after.asks[i],
    ) by {
        if side == Side::Sell {
            if i < at {
                assert(book.asks[i].id != order.id);
            } else if i > at {
                assert(book.asks[i - 1].id != order.id);
            }
        } else {
            assert(book.asks[i].id != order.id);
        }
    }
    assert forall|id: OrderId| #[trigger] more.contains_key(id) implies model::waits(
        after.queue(more[id].side),
        id,
    ) by {
        if id != order.id {
            let home = book.queue(resting[id].side);
            assert(resting.contains_key(id));
            let j = model::position(home, id);
            assert(0 <= j < home.len() && home[j].id == id);
            if resting[id].side == side {
                if j < at {
                    assert(longer[j].id == id);
                } else {
                    assert(longer[j + 1].id == id);
                }
            } else {
                assert(after.queue(resting[id].side)[j].id == id);
            }
        }
    }
}

/// An order waits if and only if it is recorded, on the side and with the
/// price and quantity that are recorded.
proof fn lemma_waiting_is_recorded(
    resting: Map<OrderId, RestingOrder>,
    book: BookView,
    id: OrderId,
)
    requires
        book.wf(),
        records(resting, book),
    ensures
        !resting.contains_key(id) ==> book.side_of(id) is None,
        resting.contains_key(id) ==> {
            let queue = book.queue(resting[id].side);
            let at = model::position(queue, id);
            &&& book.side_of(id) == Some(resting[id].side)
            &&& 0 <= at < queue.len()
            &&& queue[at].id == id
            &&& queue[at].price == resting[id].price
            &&& queue[at].remaining == resting[id].remaining
        },
{
    if model::waits(book.bids, id) {
        let i = model::position(book.bids, id);
        assert(recorded(resting, Side::Buy, book.bids[i]));
    }
    if model::waits(book.asks, id) {
        let i = model::position(book.asks, id);
        assert(recorded(resting, Side::Sell, book.asks[i]));
    }
}

/// As many orders are recorded as wait.
proof fn lemma_record_count(resting: Map<OrderId, RestingOrder>, book: BookView)
    requires
        book.wf(),
        records(resting, book),
    ensures
        resting.dom().len() == book.bids.len() + book.asks.len(),
{
    let names = model::ids(book.bids) + model::ids(book.asks);
    assert forall|i: int, j: int| 0 <= i < j < names.len() implies names[i] != names[j] by {
        if i < book.bids.len() {
            assert(names[i] == book.bids[i].id);
        } else {
            assert(names[i] == book.asks[i - book.bids.len()].id);
        }
        if j < book.bids.len() {
            assert(names[j] == book.bids[j].id);
        } else {
            assert(names[j] == book.asks[j - book.bids.len()].id);
        }
    }
    names.unique_seq_to_set();
    assert forall|id: OrderId| resting.dom().contains(id) <==> names.to_set().contains(id) by {
        lemma_waiting_is_recorded(resting, book, id);
        if resting.contains_key(id) {
            let at = model::position(book.queue(resting[id].side), id);
            if resting[id].side == Side::Buy {
                assert(names[at] == id);
            } else {
                assert(names[book.bids.len() + at] == id);
            }
        }
        if names.contains(id) {
            let k = choose|k: int| 0 <= k < names.len() && names[k] == id;
            if k < book.bids.len() {
                assert(recorded(resting, Side::Buy, book.bids[k]));
            } else {
                assert(recorded(resting, Side::Sell, book.asks[k - book.bids.len()]));
            }
        }
    }
    assert(resting.dom() =~= names.to_set());
}

/// A book stays consistent, uncrossed and recorded when an order leaves it.
proof fn lemma_leaving(
    resting: Map<OrderId, RestingOrder>,
    book: BookView,
    side: Side,
    i: int,
)
    requires
        book.consistent(),
        records(resting, book),
        0 <= i < book.queue(side).len(),
    ensures
        ({
            let queue = book.queue(side);
            let after = book.with_queue(side, queue.remove(i));
            &&& after.consistent()
            &&& book.uncrossed() ==> after.uncrossed()
            &&& records(resting.remove(queue[i].id), after)
        }),
{
    let queue = book.queue(side);
    let left = queue.remove(i);
    let after = book.with_queue(side, left);
    let fewer = resting.remove(queue[i].id);
    lemmas::leaving_keeps_book_wf(book, side, i);
    assert forall|j: int| 0 <= j < left.len() implies (#[trigger] left[j]) == if j < i {
        queue[j]
    } else {
        queue[j + 1]
    } by {}
    assert forall|id: OrderId| #[trigger] fewer.contains_key(id) implies model::waits(
        after.queue(fewer[id].side),
        id,
    ) by {
        let home = book.queue(resting[id].side);
        assert(resting.contains_key(id));
        let j = model::position(home, id);
        assert(0 <= j < home.len() && home[j].id == id);
        if resting[id].side == side {
            if j < i {
                assert(left[j].id == id);
            } else {
                assert(left[j - 1].id == id);
            }
        } else {
            assert(after.queue(resting[id].side)[j].id == id);
        }
    }
}

} // verus!
