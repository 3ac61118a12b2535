//! What the book's operations do, in terms of prices, quantities and places in
//! line alone.

use vstd::prelude::*;

use crate::laws;
use crate::lemmas;
use crate::model;
use crate::model::{BookView, QueuedOrder};
use crate::observe;
use crate::observe::{Event, Observer, ObserverError, Report, TimedEvent};
use crate::types::{BookError, CancelledOrder, LimitOrder, OrderId, Price, Quantity, Side, Trade};

verus! {

/// The lots that trades move, added up one by one.
proof fn traded_is_the_sum(trades: Seq<Trade>)
    ensures
        model::traded(trades) == trades.fold_left(0int, |sum: int, t: Trade| sum + t.quantity),
    decreases trades.len(),
{
    if trades.len() > 0 {
        traded_is_the_sum(trades.drop_last());
    }
}

/// The lots that orders hold, added up one by one.
proof fn lots_are_the_sum(orders: Seq<QueuedOrder>)
    ensures
        model::lots(orders) == orders.fold_left(
            0int,
            |sum: int, o: QueuedOrder| sum + o.remaining,
        ),
    decreases orders.len(),
{
    if orders.len() > 0 {
        lots_are_the_sum(orders.drop_last());
    }
}

/// A buyer never pays more than its limit and a seller never takes less.
pub proof fn no_trade_is_beyond_the_limit(book: BookView, order: LimitOrder, i: int)
    requires
        0 <= i < book.fill(order).trades.len(),
    ensures
        order.side is Buy ==> book.fill(order).trades[i].price@ <= order.price@,
        order.side is Sell ==> book.fill(order).trades[i].price@ >= order.price@,
{
    laws::trades_respect_the_limit(
        order.side,
        order.price,
        order.id,
        order.quantity,
        book.queue(model::opposite(order.side)),
    );
}

/// All trades of an order are its own and within its limit.
pub proof fn what_an_order_trades(book: BookView, order: LimitOrder)
    requires
        book.wf(),
    ensures
        forall|i: int|
            0 <= i < book.fill(order).trades.len() ==> {
                &&& (#[trigger] book.fill(order).trades[i]).taker_id == order.id
                &&& order.side is Buy ==> book.fill(order).trades[i].price@ <= order.price@
                &&& order.side is Sell ==> book.fill(order).trades[i].price@ >= order.price@
            },
{
    let makers = book.queue(model::opposite(order.side));
    laws::makers_fill_in_priority_order(order.side, order.price, order.id, order.quantity, makers);
    laws::trades_respect_the_limit(order.side, order.price, order.id, order.quantity, makers);
}

/// An order is refused for a quantity of zero before anything else, then for an
/// identifier that was accepted before, and for nothing else.
pub proof fn orders_are_refused_for_two_reasons(book: BookView, order: LimitOrder)
    ensures
        order.quantity == 0 ==> book.refusal(order) == Some(BookError::ZeroQuantity),
        order.quantity > 0 && book.seen.contains(order.id) ==> book.refusal(order) == Some(
            BookError::DuplicateOrderId(order.id),
        ),
        order.quantity > 0 && !book.seen.contains(order.id) ==> book.refusal(order) is None,
{
}

/// An accepted order trades with those who wait on the other side, from the
/// front, one trade each and at their price, and nobody is passed over: each of
/// them is filled before the next one trades.  It goes on while it has lots and
/// the next price is within its limit.  What it does not trade waits on its own
/// side, behind all whose price is as good for the other side and ahead of all
/// whose price is not, and nobody else moves.
///
/// `makers` and `line` are the other side and the order's own before,
/// `makers_after` and `line_after` after.
pub proof fn what_an_accepted_order_does(
    book: BookView,
    order: LimitOrder,
    makers: Seq<QueuedOrder>,
    line: Seq<QueuedOrder>,
    makers_after: Seq<QueuedOrder>,
    line_after: Seq<QueuedOrder>,
)
    requires
        book.wf(),
        order.quantity > 0,
        !book.seen.contains(order.id),
        order.side is Buy ==> {
            &&& makers == book.asks && makers_after == book.submit(order).asks
            &&& line == book.bids && line_after == book.submit(order).bids
        },
        order.side is Sell ==> {
            &&& makers == book.bids && makers_after == book.submit(order).bids
            &&& line == book.asks && line_after == book.submit(order).asks
        },
    ensures
        ({
            let trades = book.fill(order).trades;
            let n = trades.len() as int;
            let buys = order.side is Buy;
            let moved = trades.fold_left(0int, |sum: int, t: Trade| sum + t.quantity);
            let left = order.quantity - moved;
            let shared = n > 0 && trades[n - 1].quantity < makers[n - 1].remaining;
            &&& n <= makers.len()
            &&& forall|i: int|
                0 <= i < n ==> {
                    &&& (#[trigger] trades[i]).maker_id == makers[i].id
                    &&& trades[i].taker_id == order.id
                    &&& trades[i].price == makers[i].price
                    &&& 0 < trades[i].quantity <= makers[i].remaining
                    &&& i < n - 1 ==> trades[i].quantity == makers[i].remaining
                    &&& buys ==> trades[i].price@ <= order.price@
                    &&& !buys ==> trades[i].price@ >= order.price@
                }
            &&& 0 <= left <= order.quantity
            &&& left > 0 ==> {
                &&& !shared
                &&& forall|i: int|
                    n <= i < makers.len() ==> if buys {
                        (#[trigger] makers[i]).price@ > order.price@
                    } else {
                        makers[i].price@ < order.price@
                    }
            }
            &&& shared ==> {
                &&& makers_after.len() == makers.len() - n + 1
                &&& makers_after[0].id == makers[n - 1].id
                &&& makers_after[0].price == makers[n - 1].price
                &&& makers_after[0].remaining == makers[n - 1].remaining - trades[n - 1].quantity
                &&& forall|i: int|
                    1 <= i < makers_after.len() ==> (#[trigger] makers_after[i]) == makers[i + n
                        - 1]
            }
            &&& !shared ==> {
                &&& makers_after.len() == makers.len() - n
                &&& forall|i: int|
                    0 <= i < makers_after.len() ==> (#[trigger] makers_after[i]) == makers[i + n]
            }
            &&& left == 0 ==> line_after == line
            &&& left > 0 ==> exists|k: int|
                {
                    &&& 0 <= k <= line.len()
                    &&& line_after == #[trigger] line.insert(
                        k,
                        QueuedOrder {
                            id: order.id,
                            price: order.price,
                            remaining: left as Quantity,
                        },
                    )
                    &&& forall|i: int|
                        0 <= i < k ==> if buys {
                            (#[trigger] line[i]).price@ >= order.price@
                        } else {
                            line[i].price@ <= order.price@
                        }
                    &&& forall|i: int|
                        k <= i < line.len() ==> if buys {
                            (#[trigger] line[i]).price@ < order.price@
                        } else {
                            line[i].price@ > order.price@
                        }
                }
            &&& book.submit(order).seen == book.seen.insert(order.id)
        }),
{
    let fill = book.fill(order);
    let trades = fill.trades;
    let n = trades.len() as int;
    let across = model::opposite(order.side);
    laws::makers_fill_in_priority_order(order.side, order.price, order.id, order.quantity, makers);
    laws::trades_respect_the_limit(order.side, order.price, order.id, order.quantity, makers);
    laws::matching_conserves_lots(order.side, order.price, order.id, order.quantity, makers);
    stops_for_a_reason(order.side, order.price, order.id, order.quantity, makers);
    traded_is_the_sum(trades);
    lemmas::place_parts_the_queue(order.side, line, order.price);
    if fill.remaining > 0 {
        let k = model::place(order.side, line, order.price);
        let waiting = QueuedOrder {
            id: order.id,
            price: order.price,
            remaining: fill.remaining,
        };
        assert(line_after == line.insert(k, waiting));
        assert forall|i: int| n <= i < makers.len() implies !model::crosses(
            order.side,
            order.price,
            (#[trigger] makers[i]).price,
        ) by {
            assert(fill.makers[0] == makers[n]);
            assert(!model::better(across, makers[i].price, makers[n].price) || i == n);
        }
    }
}

/// While a taker has lots left, the last maker it traded with is filled.
proof fn stops_for_a_reason(
    side: Side,
    limit: Price,
    taker: OrderId,
    quantity: Quantity,
    makers: Seq<QueuedOrder>,
)
    ensures
        ({
            let fill = model::sweep(side, limit, taker, quantity, makers);
            let n = fill.trades.len() as int;
            fill.remaining > 0 && 0 < n ==> n <= makers.len() && fill.trades[n - 1].quantity
                == makers[n - 1].remaining
        }),
    decreases makers.len(),
{
    let fill = model::sweep(side, limit, taker, quantity, makers);
    if quantity == 0 || makers.len() == 0 || !model::crosses(side, limit, makers[0].price) {
    } else if quantity < makers[0].remaining {
    } else {
        let left = (quantity - makers[0].remaining) as Quantity;
        let behind = makers.drop_first();
        let rest = model::sweep(side, limit, taker, left, behind);
        stops_for_a_reason(side, limit, taker, left, behind);
        let n = fill.trades.len() as int;
        if n > 1 {
            assert(fill.trades[n - 1] == rest.trades[n - 2]);
        }
    }
}

/// An order can be cancelled if and only if it waits, on the side on which it
/// waits.
pub proof fn orders_that_wait_can_be_cancelled(book: BookView, id: OrderId)
    requires
        book.wf(),
    ensures
        book.side_of(id) == Some(Side::Buy) <==> exists|i: int|
            0 <= i < book.bids.len() && (#[trigger] book.bids[i]).id == id,
        book.side_of(id) == Some(Side::Sell) <==> exists|i: int|
            0 <= i < book.asks.len() && (#[trigger] book.asks[i]).id == id,
{
    if model::waits(book.bids, id) && model::waits(book.asks, id) {
        let i = model::position(book.bids, id);
        let j = model::position(book.asks, id);
        assert(book.bids[i].id != book.asks[j].id);
    }
}

/// A cancellation takes the order at `i` out of its line, reports what is left
/// of it, and changes nothing else: all ahead of it stay where they are, all
/// behind it move up by one place.  `line` and `line_after` are its side before
/// and after.
pub proof fn what_a_cancellation_does(
    book: BookView,
    id: OrderId,
    side: Side,
    line: Seq<QueuedOrder>,
    line_after: Seq<QueuedOrder>,
    i: int,
)
    requires
        book.wf(),
        book.side_of(id) == Some(side),
        side is Buy ==> line == book.bids && line_after == book.cancel(side, id).bids,
        side is Sell ==> line == book.asks && line_after == book.cancel(side, id).asks,
        0 <= i < line.len(),
        line[i].id == id,
    ensures
        ({
            let after = book.cancel(side, id);
            &&& book.cancelled(side, id) == CancelledOrder {
                id,
                side,
                price: line[i].price,
                quantity: line[i].remaining,
            }
            &&& line_after.len() == line.len() - 1
            &&& forall|j: int| 0 <= j < i ==> (#[trigger] line_after[j]) == line[j]
            &&& forall|j: int|
                i <= j < line_after.len() ==> (#[trigger] line_after[j]) == line[j + 1]
            &&& side is Buy ==> after.asks == book.asks
            &&& side is Sell ==> after.bids == book.bids
            &&& after.seen == book.seen
        }),
{
    lemmas::position_is(book.queue(side), side, i);
}

/// Of two orders that wait on one side, the one ahead stays ahead when a third
/// is cancelled.  `line` and `line_after` are the side before and after.
pub proof fn cancelling_lets_nobody_pass(
    book: BookView,
    id: OrderId,
    side: Side,
    line: Seq<QueuedOrder>,
    line_after: Seq<QueuedOrder>,
    i: int,
    j: int,
)
    requires
        book.wf(),
        book.side_of(id) == Some(side),
        side is Buy ==> line == book.bids && line_after == book.cancel(side, id).bids,
        side is Sell ==> line == book.asks && line_after == book.cancel(side, id).asks,
        0 <= i < j < line.len(),
        line[i].id != id,
        line[j].id != id,
    ensures
        exists|k: int, l: int|
            0 <= k < l < line_after.len() && #[trigger] line_after[k] == line[i]
                && #[trigger] line_after[l] == line[j],
{
    let at = model::position(line, id);
    assert(0 <= at < line.len() && line[at].id == id);
    what_a_cancellation_does(book, id, side, line, line_after, at);
    let k = if i < at { i } else { i - 1 };
    let l = if j < at { j } else { j - 1 };
    assert(line_after[k] == line[i]);
    assert(line_after[l] == line[j]);
}

/// The lots at the best price are those of all who wait at it.  The best level of
/// a side is the best price at which anybody waits there, with
/// the lots of all who wait at that price added up, and their number.  `line` is
/// that side.
pub proof fn what_the_best_level_is(book: BookView, side: Side, line: Seq<QueuedOrder>)
    requires
        book.wf(),
        side is Buy ==> line == book.bids,
        side is Sell ==> line == book.asks,
    ensures
        ({
            match book.best(side) {
                None => line.len() == 0 && model::lots(book.top(side)) == 0,
                Some(level) => {
                    let there = line.filter(|o: QueuedOrder| o.price@ == level.price@);
                    let sum = there.fold_left(0int, |sum: int, o: QueuedOrder| sum + o.remaining);
                    &&& exists|i: int|
                        0 <= i < line.len() && (#[trigger] line[i]).price == level.price
                    &&& forall|i: int|
                        0 <= i < line.len() ==> if side is Buy {
                            (#[trigger] line[i]).price@ <= level.price@
                        } else {
                            line[i].price@ >= level.price@
                        }
                    &&& model::lots(book.top(side)) == sum
                    &&& sum <= Quantity::MAX ==> level.quantity == sum
                    &&& there.len() <= usize::MAX ==> level.order_count == there.len()
                },
            }
        }),
{
    if line.len() > 0 {
        let level = book.best(side)->0;
        let there = line.filter(|o: QueuedOrder| o.price@ == level.price@);
        assert(line[0].price == level.price);
        assert forall|i: int| 0 < i < line.len() implies !model::better(
            side,
            (#[trigger] line[i]).price,
            line[0].price,
        ) by {}
        assert((|o: QueuedOrder| o.price@ == level.price@) =~= (|o: QueuedOrder|
            o.price@ == line[0].price@));
        assert(there == model::at_ticks(line, line[0].price@));
        lots_are_the_sum(there);
    } else {
        reveal(Seq::filter);
    }
}

/// A well formed book is in price-time order on both sides, holds no empty
/// order and no name twice, and is not crossed.
pub proof fn what_holds_between_requests(book: BookView, i: int, j: int)
    requires
        book.wf(),
    ensures
        0 <= i < j < book.bids.len() ==> book.bids[i].price@ >= book.bids[j].price@
            && book.bids[i].id != book.bids[j].id,
        0 <= i < j < book.asks.len() ==> book.asks[i].price@ <= book.asks[j].price@
            && book.asks[i].id != book.asks[j].id,
        0 <= i < book.bids.len() ==> book.bids[i].remaining > 0 && book.seen.contains(
            book.bids[i].id,
        ),
        0 <= j < book.asks.len() ==> book.asks[j].remaining > 0 && book.seen.contains(
            book.asks[j].id,
        ),
        0 <= i < book.bids.len() && 0 <= j < book.asks.len() ==> book.bids[i].price@
            < book.asks[j].price@ && book.bids[i].id != book.asks[j].id,
{
    if 0 <= i < book.bids.len() && 0 <= j < book.asks.len() {
        assert(i == 0 || book.bids[0].price@ >= book.bids[i].price@);
        assert(j == 0 || book.asks[0].price@ <= book.asks[j].price@);
    }
}

/// An order that could not be reported changes nothing but the set of used
/// identifiers.
pub proof fn what_an_unreported_order_does(book: BookView, id: OrderId)
    ensures
        book.with_seen(id).bids == book.bids,
        book.with_seen(id).asks == book.asks,
        book.with_seen(id).seen == book.seen.insert(id),
{
}

/// A report adds one event to what an observer was told, the last, with the
/// error that came back, and leaves everything told before as it was.
pub proof fn what_a_report_adds(
    earlier: Seq<Report>,
    later: Seq<Report>,
    event: Event,
    error: Option<ObserverError>,
)
    requires
        observe::reported(Some(earlier), Some(later), event, error),
    ensures
        later.len() == earlier.len() + 1,
        forall|i: int| 0 <= i < earlier.len() ==> (#[trigger] later[i]) == earlier[i],
        later[earlier.len() as int].event.spec_event() == event,
        later[earlier.len() as int].error == error,
{
    assert forall|i: int| 0 <= i < earlier.len() implies (#[trigger] later[i]) == earlier[i] by {
        assert(later.drop_last()[i] == earlier[i]);
    }
}

/// An observer does not come or go by a report, and where there is none no
/// error comes back.
pub proof fn who_is_reported_to(
    before: Option<Seq<Report>>,
    after: Option<Seq<Report>>,
    event: Event,
    error: Option<ObserverError>,
)
    requires
        observe::reported(before, after, event, error),
    ensures
        before is Some <==> after is Some,
        before is None ==> error is None,
{
}

/// An event that all observers took was reported once to each of them.
pub proof fn what_all_observers_were_told(
    before: Seq<Box<dyn Observer>>,
    after: Seq<Box<dyn Observer>>,
    event: TimedEvent,
    i: int,
)
    requires
        observe::taken_by_first(before, after, event, before.len() as int),
        0 <= i < before.len(),
    ensures
        after.len() == before.len(),
        after[i].history() == before[i].history().push(Report { event, error: None }),
{
}

/// An event that an observer refused was reported once to it and to each before
/// it, who took it, and to none behind it.
pub proof fn what_observers_were_told_up_to_an_error(
    before: Seq<Box<dyn Observer>>,
    after: Seq<Box<dyn Observer>>,
    event: TimedEvent,
    told: int,
    error: ObserverError,
    i: int,
)
    requires
        observe::refused_by(before, after, event, told, error),
        0 <= told < before.len(),
        0 <= i < before.len(),
    ensures
        after.len() == before.len(),
        i < told ==> after[i].history() == before[i].history().push(
            Report { event, error: None },
        ),
        i == told ==> after[i].history() == before[i].history().push(
            Report { event, error: Some(error) },
        ),
        i > told ==> after[i] == before[i],
{
}

} // verus!
