//! What holds of the book as a whole.

use vstd::prelude::*;

use crate::lemmas;
use crate::model;
use crate::model::{BookView, QueuedOrder, Request};
use crate::observe;
use crate::observe::{Event, ObserverError, Report};
use crate::types::{BookError, LimitOrder, OrderId, Price, Quantity, Side};

verus! {

/// Price-time priority: an incoming order trades with the makers from the
/// front of the queue, one trade each and at the maker's price.  Every trade
/// but the last fills its maker, and the makers that are left are those behind
/// the filled ones, the first of them less what it traded.
pub proof fn makers_fill_in_priority_order(
    side: Side,
    limit: Price,
    taker: OrderId,
    quantity: Quantity,
    makers: Seq<QueuedOrder>,
)
    requires
        model::queue_wf(model::opposite(side), makers),
    ensures
        ({
            let fill = model::sweep(side, limit, taker, quantity, makers);
            let n = fill.trades.len() as int;
            &&& n <= makers.len()
            &&& forall|i: int|
                0 <= i < n ==> {
                    &&& (#[trigger] fill.trades[i]).maker_id == makers[i].id
                    &&& fill.trades[i].taker_id == taker
                    &&& fill.trades[i].price == makers[i].price
                    &&& 0 < fill.trades[i].quantity <= makers[i].remaining
                }
            &&& forall|i: int|
                0 <= i < n - 1 ==> (#[trigger] fill.trades[i]).quantity == makers[i].remaining
            &&& fill.makers == if n > 0 && fill.trades[n - 1].quantity < makers[n - 1].remaining {
                makers.skip(n - 1).update(
                    0,
                    model::shrunk(makers[n - 1], fill.trades[n - 1].quantity),
                )
            } else {
                makers.skip(n)
            }
        }),
    decreases makers.len(),
{
    let fill = model::sweep(side, limit, taker, quantity, makers);
    if quantity == 0 || makers.len() == 0 || !model::crosses(side, limit, makers[0].price) {
        assert(makers.skip(0) =~= makers);
    } else if quantity < makers[0].remaining {
        assert(makers.skip(0) =~= makers);
    } else {
        let behind = makers.drop_first();
        let left = (quantity - makers[0].remaining) as Quantity;
        assert(behind =~= makers.remove(0));
        lemmas::remove_keeps_queue_wf(model::opposite(side), makers, 0);
        makers_fill_in_priority_order(side, limit, taker, left, behind);
        let rest = model::sweep(side, limit, taker, left, behind);
        let n = fill.trades.len() as int;
        assert forall|i: int| 0 <= i < n implies {
            &&& (#[trigger] fill.trades[i]).maker_id == makers[i].id
            &&& fill.trades[i].taker_id == taker
            &&& fill.trades[i].price == makers[i].price
            &&& 0 < fill.trades[i].quantity <= makers[i].remaining
            &&& i < n - 1 ==> fill.trades[i].quantity == makers[i].remaining
        } by {
            if i > 0 {
                assert(fill.trades[i] == rest.trades[i - 1]);
                assert(behind[i - 1] == makers[i]);
            }
        }
        if n > 1 {
            assert(fill.trades[n - 1] == rest.trades[n - 2]);
            assert(behind[n - 2] == makers[n - 1]);
            assert(behind.skip(n - 2) =~= makers.skip(n - 1));
        }
        assert(behind.skip(n - 1) =~= makers.skip(n));
    }
}

/// Later trades of one order are never at a better price for it than earlier
/// ones.
pub proof fn trade_prices_never_improve(
    side: Side,
    limit: Price,
    taker: OrderId,
    quantity: Quantity,
    makers: Seq<QueuedOrder>,
    i: int,
    j: int,
)
    requires
        model::queue_wf(model::opposite(side), makers),
        0 <= i < j < model::sweep(side, limit, taker, quantity, makers).trades.len(),
    ensures
        ({
            let trades = model::sweep(side, limit, taker, quantity, makers).trades;
            !model::better(model::opposite(side), trades[j].price, trades[i].price)
        }),
{
    makers_fill_in_priority_order(side, limit, taker, quantity, makers);
}

/// An order trades only within its limit, and it stops only when it is filled,
/// when nobody is left, or when the next maker's price is beyond the limit.
pub proof fn trades_respect_the_limit(
    side: Side,
    limit: Price,
    taker: OrderId,
    quantity: Quantity,
    makers: Seq<QueuedOrder>,
)
    ensures
        ({
            let fill = model::sweep(side, limit, taker, quantity, makers);
            &&& forall|i: int|
                0 <= i < fill.trades.len() ==> model::crosses(
                    side,
                    limit,
                    (#[trigger] fill.trades[i]).price,
                )
            &&& fill.remaining == 0 || fill.makers.len() == 0 || !model::crosses(
                side,
                limit,
                fill.makers[0].price,
            )
        }),
    decreases makers.len(),
{
    if quantity == 0 || makers.len() == 0 || !model::crosses(side, limit, makers[0].price) {
    } else if quantity < makers[0].remaining {
    } else {
        let left = (quantity - makers[0].remaining) as Quantity;
        trades_respect_the_limit(side, limit, taker, left, makers.drop_first());
        let fill = model::sweep(side, limit, taker, quantity, makers);
        let rest = model::sweep(side, limit, taker, left, makers.drop_first());
        assert forall|i: int| 0 <= i < fill.trades.len() implies model::crosses(
            side,
            limit,
            (#[trigger] fill.trades[i]).price,
        ) by {
            if i > 0 {
                assert(fill.trades[i] == rest.trades[i - 1]);
            }
        }
    }
}

/// No lot is made or lost in matching: what the taker wanted is what it traded
/// and what is left of it, and what waited is what was traded and what still
/// waits.
pub proof fn matching_conserves_lots(
    side: Side,
    limit: Price,
    taker: OrderId,
    quantity: Quantity,
    makers: Seq<QueuedOrder>,
)
    ensures
        ({
            let fill = model::sweep(side, limit, taker, quantity, makers);
            &&& model::traded(fill.trades) + fill.remaining == quantity
            &&& model::lots(makers) == model::lots(fill.makers) + model::traded(fill.trades)
        }),
    decreases makers.len(),
{
    let fill = model::sweep(side, limit, taker, quantity, makers);
    if quantity == 0 || makers.len() == 0 || !model::crosses(side, limit, makers[0].price) {
    } else if quantity < makers[0].remaining {
        lemmas::traded_of_one(fill.trades[0]);
        assert(fill.trades =~= seq![fill.trades[0]]);
        lemmas::lots_of_front(makers);
        lemmas::lots_of_front(fill.makers);
        assert(fill.makers.drop_first() =~= makers.drop_first());
    } else {
        let left = (quantity - makers[0].remaining) as Quantity;
        matching_conserves_lots(side, limit, taker, left, makers.drop_first());
        let rest = model::sweep(side, limit, taker, left, makers.drop_first());
        let first = model::trade_with(makers[0], taker, makers[0].remaining);
        lemmas::traded_of_concat(seq![first], rest.trades);
        lemmas::traded_of_one(first);
        lemmas::lots_of_front(makers);
    }
}

/// An accepted order leaves the book well formed: both sides in priority
/// order, no name twice, no empty order, and the best bid below the best ask.
pub proof fn submit_keeps_the_book_well_formed(book: BookView, order: LimitOrder)
    requires
        book.wf(),
        book.refusal(order) is None,
        order.price@ != 0,
    ensures
        book.submit(order).wf(),
{
    let seen = book.with_seen(order.id);
    lemmas::sweep_keeps_book_wf(seen, order);
    trades_respect_the_limit(
        order.side,
        order.price,
        order.id,
        order.quantity,
        seen.queue(model::opposite(order.side)),
    );
    let fill = seen.fill(order);
    let swept = seen.with_queue(model::opposite(order.side), fill.makers);
    if fill.remaining > 0 {
        let left = QueuedOrder { id: order.id, price: order.price, remaining: fill.remaining };
        lemmas::rest_keeps_book_wf(swept, order.side, left);
    }
}

/// A cancelled order leaves the book well formed.
pub proof fn cancel_keeps_the_book_well_formed(book: BookView, id: OrderId, side: Side)
    requires
        book.wf(),
        book.side_of(id) == Some(side),
    ensures
        book.cancel(side, id).wf(),
{
    let at = model::position(book.queue(side), id);
    lemmas::leaving_keeps_book_wf(book, side, at);
}

/// The requests before the last have prices other than zero if all have, and
/// so has the last.
proof fn nonzero_prices_so_far(requests: Seq<Request>)
    requires
        model::prices_nonzero(requests),
        requests.len() > 0,
    ensures
        model::prices_nonzero(requests.drop_last()),
        requests.last() matches Request::Submit(order) ==> order.price@ != 0,
{
    let earlier = requests.drop_last();
    assert forall|i: int| 0 <= i < earlier.len() implies ((
    #[trigger] earlier[i]) matches Request::Submit(order) ==> order.price@ != 0) by {
        assert(earlier[i] == requests[i]);
    }
    assert(requests[requests.len() - 1] == requests.last());
}

/// Whatever is asked of a well formed book, it stays well formed.
pub proof fn replay_keeps_the_book_well_formed(book: BookView, requests: Seq<Request>)
    requires
        book.wf(),
        model::prices_nonzero(requests),
    ensures
        book.replay(requests).wf(),
    decreases requests.len(),
{
    if requests.len() > 0 {
        let before = book.replay(requests.drop_last());
        nonzero_prices_so_far(requests);
        replay_keeps_the_book_well_formed(book, requests.drop_last());
        match requests.last() {
            Request::Submit(order) => {
                if before.refusal(order) is None {
                    submit_keeps_the_book_well_formed(before, order);
                }
            },
            Request::Cancel(id) => {
                if let Some(side) = before.side_of(id) {
                    cancel_keeps_the_book_well_formed(before, id, side);
                }
            },
        }
    }
}

/// Whatever is asked of an empty book, it is well formed; in particular it is
/// never crossed.
pub proof fn every_reachable_book_is_well_formed(requests: Seq<Request>)
    requires
        model::prices_nonzero(requests),
    ensures
        BookView::empty().replay(requests).wf(),
{
    replay_keeps_the_book_well_formed(BookView::empty(), requests);
}

/// No identifier that was ever accepted is forgotten.
pub proof fn identifiers_are_remembered(book: BookView, requests: Seq<Request>)
    ensures
        book.seen.subset_of(book.replay(requests).seen),
    decreases requests.len(),
{
    if requests.len() > 0 {
        identifiers_are_remembered(book, requests.drop_last());
    }
}

/// Identifiers are never reused: once an order was accepted, a second order
/// with its identifier is refused, whatever was asked of the book in between
/// and whether or not the first order still waits.
pub proof fn identifiers_are_never_reused(
    book: BookView,
    order: LimitOrder,
    between: Seq<Request>,
    again: LimitOrder,
)
    requires
        book.refusal(order) is None,
        again.id == order.id,
        again.quantity > 0,
    ensures
        book.submit(order).replay(between).refusal(again) == Some(
            BookError::DuplicateOrderId(order.id),
        ),
{
    identifiers_are_remembered(book.submit(order), between);
    assert(book.submit(order).seen.contains(order.id));
}

/// An order never trades with itself.
pub proof fn no_order_trades_with_itself(book: BookView, order: LimitOrder, i: int)
    requires
        book.wf(),
        book.refusal(order) is None,
        0 <= i < book.fill(order).trades.len(),
    ensures
        book.fill(order).trades[i].maker_id != order.id,
        book.fill(order).trades[i].taker_id == order.id,
{
    let makers = book.queue(model::opposite(order.side));
    makers_fill_in_priority_order(order.side, order.price, order.id, order.quantity, makers);
    assert(book.seen.contains(makers[i].id));
}

/// The lots on the book after an accepted order: those that waited before and
/// those that came in, less both sides of what was traded.
pub proof fn submit_conserves_lots(book: BookView, order: LimitOrder)
    requires
        book.wf(),
        book.refusal(order) is None,
    ensures
        ({
            let after = book.submit(order);
            let moved = model::traded(book.fill(order).trades);
            model::lots(after.bids) + model::lots(after.asks) + 2 * moved == model::lots(book.bids)
                + model::lots(book.asks) + order.quantity
        }),
{
    let seen = book.with_seen(order.id);
    let fill = seen.fill(order);
    let swept = seen.with_queue(model::opposite(order.side), fill.makers);
    let queue = swept.queue(order.side);
    matching_conserves_lots(
        order.side,
        order.price,
        order.id,
        order.quantity,
        book.queue(model::opposite(order.side)),
    );
    if fill.remaining > 0 {
        lemmas::place_parts_the_queue(order.side, queue, order.price);
        lemmas::lots_of_insert(
            queue,
            model::place(order.side, queue, order.price),
            QueuedOrder { id: order.id, price: order.price, remaining: fill.remaining },
        );
    }
}

/// A resting order waits behind every order of an equal or better price and
/// ahead of every order of a worse one, and it moves nobody else.
pub proof fn resting_orders_queue_behind_their_price(
    book: BookView,
    side: Side,
    order: QueuedOrder,
    i: int,
)
    requires
        book.wf(),
        0 <= i < book.queue(side).len(),
    ensures
        ({
            let queue = book.queue(side);
            let at = model::place(side, queue, order.price);
            let after = book.rest(side, order);
            &&& 0 <= at <= queue.len()
            &&& after.queue(side)[at] == order
            &&& i < at <==> !model::better(side, order.price, queue[i].price)
            &&& queue[i] == after.queue(side)[if i < at { i } else { i + 1 }]
            &&& after.queue(model::opposite(side)) == book.queue(model::opposite(side))
        }),
{
    lemmas::place_parts_the_queue(side, book.queue(side), order.price);
}

/// After an accepted order, exactly what is left of it waits: it can be
/// cancelled for its unfilled quantity, and a filled order cannot be cancelled.
pub proof fn what_is_unfilled_can_be_cancelled(book: BookView, order: LimitOrder)
    requires
        book.wf(),
        book.refusal(order) is None,
        order.price@ != 0,
    ensures
        ({
            let after = book.submit(order);
            let left = order.quantity - model::traded(book.fill(order).trades);
            if left > 0 {
                &&& after.side_of(order.id) == Some(order.side)
                &&& after.cancelled(order.side, order.id).price == order.price
                &&& after.cancelled(order.side, order.id).quantity == left
            } else {
                after.side_of(order.id) is None
            }
        }),
{
    let seen = book.with_seen(order.id);
    let other = model::opposite(order.side);
    let fill = seen.fill(order);
    let swept = seen.with_queue(other, fill.makers);
    let after = book.submit(order);
    matching_conserves_lots(
        order.side,
        order.price,
        order.id,
        order.quantity,
        book.queue(other),
    );
    lemmas::sweep_keeps_book_wf(seen, order);
    submit_keeps_the_book_well_formed(book, order);
    if fill.remaining > 0 {
        let queue = swept.queue(order.side);
        let at = model::place(order.side, queue, order.price);
        lemmas::place_parts_the_queue(order.side, queue, order.price);
        assert(after.queue(order.side)[at].id == order.id);
        lemmas::position_is(after.queue(order.side), order.side, at);
        assert(after.queue(other) == fill.makers);
    }
}

/// Cancelling an order that has not traded undoes its submission, except that
/// its identifier stays used.
pub proof fn cancel_undoes_a_submission_without_trades(book: BookView, order: LimitOrder)
    requires
        book.wf(),
        book.refusal(order) is None,
        order.price@ != 0,
        book.fill(order).trades.len() == 0,
    ensures
        book.submit(order).cancel(order.side, order.id) == book.with_seen(order.id),
{
    let other = model::opposite(order.side);
    let queue = book.queue(order.side);
    let after = book.submit(order);
    let fill = book.fill(order);
    makers_fill_in_priority_order(
        order.side,
        order.price,
        order.id,
        order.quantity,
        book.queue(other),
    );
    matching_conserves_lots(
        order.side,
        order.price,
        order.id,
        order.quantity,
        book.queue(other),
    );
    assert(fill.makers =~= book.queue(other));
    submit_keeps_the_book_well_formed(book, order);
    let at = model::place(order.side, queue, order.price);
    lemmas::place_parts_the_queue(order.side, queue, order.price);
    assert(after.queue(order.side)[at].id == order.id);
    lemmas::position_is(after.queue(order.side), order.side, at);
    assert(after.queue(order.side).remove(at) =~= queue);
    assert(after.cancel(order.side, order.id) =~= book.with_seen(order.id));
}

/// Cancelling removes only the requested order: it cannot be cancelled again,
/// and every other order can still be cancelled for what it could before.
pub proof fn cancel_removes_only_the_requested_order(
    book: BookView,
    id: OrderId,
    side: Side,
    other: OrderId,
)
    requires
        book.wf(),
        book.side_of(id) == Some(side),
        other != id,
    ensures
        ({
            let after = book.cancel(side, id);
            &&& after.side_of(id) is None
            &&& after.side_of(other) == book.side_of(other)
            &&& book.side_of(other) matches Some(home) ==> after.cancelled(home, other)
                == book.cancelled(home, other)
            &&& after.queue(model::opposite(side)) == book.queue(model::opposite(side))
        }),
{
    let queue = book.queue(side);
    let at = model::position(queue, id);
    let left = queue.remove(at);
    let after = book.cancel(side, id);
    lemmas::leaving_keeps_book_wf(book, side, at);
    assert forall|j: int| 0 <= j < left.len() implies (#[trigger] left[j]) == if j < at {
        queue[j]
    } else {
        queue[j + 1]
    } by {}
    if model::waits(queue, other) {
        let j = model::position(queue, other);
        assert(queue[j].id == other && j != at);
        let moved = if j < at {
            j
        } else {
            j - 1
        };
        assert(left[moved] == queue[j]);
        lemmas::position_is(left, side, moved);
    }
    if model::waits(left, other) {
        let j = model::position(left, other);
        assert(left[j].id == other);
        assert(queue[if j < at {
            j
        } else {
            j + 1
        }].id == other);
    }
}

/// What is left of an order is what its name holds on the book.
proof fn left_is_held(book: BookView, id: OrderId)
    requires
        book.wf(),
    ensures
        book.left_of(id) == model::held(book.bids, id) + model::held(book.asks, id),
{
    if model::waits(book.bids, id) {
        let i = model::position(book.bids, id);
        assert(book.bids[i].id == id);
        lemmas::held_is_remaining(Side::Buy, book.bids, i);
        lemmas::held_by_none(book.asks, id);
    } else {
        lemmas::held_by_none(book.bids, id);
        if model::waits(book.asks, id) {
            let i = model::position(book.asks, id);
            assert(book.asks[i].id == id);
            lemmas::held_is_remaining(Side::Sell, book.asks, i);
        } else {
            lemmas::held_by_none(book.asks, id);
        }
    }
}

/// An accepted order leaves every other order where it is, less what the two
/// traded.
pub proof fn submit_changes_others_only_by_trading(
    book: BookView,
    order: LimitOrder,
    other: OrderId,
)
    requires
        book.wf(),
        book.refusal(order) is None,
        order.price@ != 0,
        other != order.id,
    ensures
        ({
            let after = book.submit(order);
            &&& book.left_of(other) == after.left_of(other) + model::traded_by(
                book.fill(order).trades,
                other,
            )
            &&& after.side_of(other) matches Some(side) ==> {
                &&& book.side_of(other) == Some(side)
                &&& after.cancelled(side, other).price == book.cancelled(side, other).price
            }
        }),
{
    let across = model::opposite(order.side);
    let makers = book.queue(across);
    let queue = book.queue(order.side);
    let fill = book.fill(order);
    let after = book.submit(order);
    let at = model::place(order.side, queue, order.price);
    let left = QueuedOrder { id: order.id, price: order.price, remaining: fill.remaining };
    submit_keeps_the_book_well_formed(book, order);
    left_is_held(book, other);
    left_is_held(after, other);
    lemmas::sweep_settles_each_maker(
        order.side,
        order.price,
        order.id,
        order.quantity,
        makers,
        other,
    );
    lemmas::place_parts_the_queue(order.side, queue, order.price);
    lemmas::held_of_insert(queue, at, left, other);
    makers_fill_in_priority_order(order.side, order.price, order.id, order.quantity, makers);
    if let Some(side) = after.side_of(other) {
        let i = model::position(after.queue(side), other);
        assert(after.queue(side)[i].id == other);
        let n = fill.trades.len() as int;
        let j = if side == across {
            if n > 0 && fill.trades[n - 1].quantity < makers[n - 1].remaining {
                i + n - 1
            } else {
                i + n
            }
        } else if fill.remaining > 0 && i > at {
            i - 1
        } else {
            i
        };
        assert(book.queue(side)[j].id == other);
        assert(book.queue(side)[j].price == after.queue(side)[i].price);
        lemmas::position_is(book.queue(side), side, j);
    }
}

/// Once an identifier was accepted and its order does not wait any more, filled
/// or cancelled, it stays unknown to cancellations, whatever is asked of the
/// book.
pub proof fn orders_that_left_stay_unknown(book: BookView, id: OrderId, requests: Seq<Request>)
    requires
        book.wf(),
        book.seen.contains(id),
        book.side_of(id) is None,
        model::prices_nonzero(requests),
    ensures
        book.replay(requests).side_of(id) is None,
    decreases requests.len(),
{
    if requests.len() > 0 {
        let earlier = requests.drop_last();
        let before = book.replay(earlier);
        nonzero_prices_so_far(requests);
        orders_that_left_stay_unknown(book, id, earlier);
        replay_keeps_the_book_well_formed(book, earlier);
        identifiers_are_remembered(book, earlier);
        match requests.last() {
            Request::Submit(order) => {
                if before.refusal(order) is None {
                    submit_changes_others_only_by_trading(before, order, id);
                }
            },
            Request::Cancel(gone) => {
                if let Some(side) = before.side_of(gone) {
                    cancel_removes_only_the_requested_order(before, gone, side, id);
                }
            },
        }
    }
}

/// Every lot of an accepted order is accounted for, whatever is asked of the
/// book afterwards: it was traded, taken off the book by a cancellation, or
/// still waits.  While the order waits nothing of it was cancelled, and it waits
/// on its side at its price.
pub proof fn lots_of_an_order_are_accounted_for(
    book: BookView,
    order: LimitOrder,
    requests: Seq<Request>,
)
    requires
        book.wf(),
        book.refusal(order) is None,
        order.price@ != 0,
        model::prices_nonzero(requests),
    ensures
        ({
            let submitted = book.submit(order);
            let after = submitted.replay(requests);
            let trades = book.fill(order).trades + submitted.session(requests);
            &&& model::traded_by(trades, order.id) + submitted.withdrawn(requests, order.id)
                + after.left_of(order.id) == order.quantity
            &&& after.side_of(order.id) matches Some(side) ==> {
                &&& side == order.side
                &&& after.cancelled(side, order.id).price == order.price
                &&& submitted.withdrawn(requests, order.id) == 0
            }
        }),
    decreases requests.len(),
{
    let id = order.id;
    let fill = book.fill(order);
    let submitted = book.submit(order);
    submit_keeps_the_book_well_formed(book, order);
    if requests.len() == 0 {
        let makers = book.queue(model::opposite(order.side));
        makers_fill_in_priority_order(order.side, order.price, id, order.quantity, makers);
        matching_conserves_lots(order.side, order.price, id, order.quantity, makers);
        what_is_unfilled_can_be_cancelled(book, order);
        lemmas::traded_by_the_taker(fill.trades, id);
        assert(fill.trades + submitted.session(requests) =~= fill.trades);
    } else {
        let earlier = requests.drop_last();
        let before = submitted.replay(earlier);
        let made = submitted.session(earlier);
        nonzero_prices_so_far(requests);
        lots_of_an_order_are_accounted_for(book, order, earlier);
        replay_keeps_the_book_well_formed(submitted, earlier);
        identifiers_are_remembered(submitted, earlier);
        let more = before.trades_of(requests.last());
        assert(fill.trades + submitted.session(requests) =~= (fill.trades + made) + more);
        lemmas::traded_by_of_concat(fill.trades + made, more, id);
        match requests.last() {
            Request::Submit(next) => {
                if before.refusal(next) is None {
                    submit_changes_others_only_by_trading(before, next, id);
                } else {
                    lemmas::traded_by_the_taker(more, id);
                }
            },
            Request::Cancel(gone) => {
                lemmas::traded_by_the_taker(more, id);
                if let Some(side) = before.side_of(gone) {
                    if gone == id {
                        let another: OrderId = if id == 0 {
                            1
                        } else {
                            0
                        };
                        cancel_removes_only_the_requested_order(before, id, side, another);
                    } else {
                        cancel_removes_only_the_requested_order(before, gone, side, id);
                    }
                }
            },
        }
    }
}

/// Over a whole session, a cancellation reports the submitted quantity less all
/// trades of that identifier, at the submitted price and side.
pub proof fn cancel_reports_the_submitted_quantity_less_its_trades(
    book: BookView,
    order: LimitOrder,
    requests: Seq<Request>,
    side: Side,
)
    requires
        book.wf(),
        book.refusal(order) is None,
        order.price@ != 0,
        model::prices_nonzero(requests),
        book.submit(order).replay(requests).side_of(order.id) == Some(side),
    ensures
        ({
            let submitted = book.submit(order);
            let trades = book.fill(order).trades + submitted.session(requests);
            let reported = submitted.replay(requests).cancelled(side, order.id);
            &&& reported.id == order.id
            &&& reported.side == order.side
            &&& reported.price == order.price
            &&& reported.quantity == order.quantity - model::traded_by(trades, order.id)
        }),
{
    lots_of_an_order_are_accounted_for(book, order, requests);
}

/// The best level is the front of the queue: nobody waits at a better price,
/// and the orders of the level are the first in line.
pub proof fn best_level_is_first_in_line(book: BookView, side: Side, i: int)
    requires
        book.wf(),
        0 <= i < book.queue(side).len(),
    ensures
        ({
            let queue = book.queue(side);
            &&& book.best(side) is Some
            &&& !model::better(side, queue[i].price, queue[0].price)
            &&& book.top(side) == queue.take(book.top(side).len() as int)
            &&& queue[i].price == queue[0].price <==> i < book.top(side).len()
        }),
{
    lemmas::top_is_a_prefix(side, book.queue(side));
    broadcast use crate::types::price_is_its_ticks;

}

/// The book is never crossed: the best bid lies below the best ask.
pub proof fn best_bid_is_below_best_ask(book: BookView)
    requires
        book.wf(),
        book.best(Side::Buy) is Some,
        book.best(Side::Sell) is Some,
    ensures
        book.best(Side::Buy)->0.price@ < book.best(Side::Sell)->0.price@,
{
}

/// Bids and asks match alike: on mirror images, matching against the front of
/// the bids at a price of the one and against the front of the asks at that
/// price of the other makes the same trade, leaves the taker the same quantity,
/// and leaves mirror images.
pub proof fn bids_and_asks_match_alike(
    a: BookView,
    b: BookView,
    price: Price,
    taker: OrderId,
    quantity: Quantity,
)
    requires
        model::mirrored(a, b),
        model::at_ticks(a.bids, price@).len() > 0,
    ensures
        ({
            let bought = model::hit(a.bids, model::first_at(a.bids, price@), taker, quantity);
            let sold = model::hit(b.asks, model::first_at(b.asks, price@), taker, quantity);
            &&& bought.trades == sold.trades
            &&& bought.remaining == sold.remaining
            &&& model::mirrored(
                a.with_queue(Side::Buy, bought.makers),
                b.with_queue(Side::Sell, sold.makers),
            )
        }),
{
    let i = model::first_at(a.bids, price@);
    let j = model::first_at(b.asks, price@);
    lemmas::first_at_is_first(a.bids, price@);
    lemmas::first_at_is_first(b.asks, price@);
    assert(a.bids[i] == b.asks[j]);
    let after_a = a.with_queue(Side::Buy, model::hit(a.bids, i, taker, quantity).makers);
    let after_b = b.with_queue(Side::Sell, model::hit(b.asks, j, taker, quantity).makers);
    assert forall|ticks: i64|
        model::at_ticks(after_a.bids, ticks) == model::at_ticks(after_b.asks, ticks)
            && model::at_ticks(after_a.asks, ticks) == model::at_ticks(after_b.bids, ticks) by {
        let left = model::shrunk(a.bids[i], quantity);
        lemmas::at_ticks_of_remove(a.bids, i, ticks);
        lemmas::at_ticks_of_remove(b.asks, j, ticks);
        lemmas::at_ticks_of_update(a.bids, i, left, ticks);
        lemmas::at_ticks_of_update(b.asks, j, left, ticks);
        assert(model::at_ticks(a.bids, ticks) == model::at_ticks(b.asks, ticks));
        assert(model::at_ticks(a.asks, ticks) == model::at_ticks(b.bids, ticks));
    }
}

/// Buyers and sellers are treated alike: an order and the order of the other
/// side at the price of opposite sign, submitted to books that are each other's
/// reflection in the same way, are refused alike, trade alike, and leave books
/// that are each other's reflection.
pub proof fn buyers_and_sellers_are_treated_alike(
    a: BookView,
    b: BookView,
    x: LimitOrder,
    y: LimitOrder,
)
    requires
        model::reflected(a, b),
        x.id == y.id,
        x.side == model::opposite(y.side),
        x.price@ == -y.price@,
        x.quantity == y.quantity,
    ensures
        a.refusal(x) == b.refusal(y),
        model::trades_reflected(a.fill(x).trades, b.fill(y).trades),
        model::reflected(a.submit(x), b.submit(y)),
{
    let makers_a = a.queue(model::opposite(x.side));
    let makers_b = b.queue(model::opposite(y.side));
    lemmas::sweep_of_reflected(x.side, x.price, y.price, x.id, x.quantity, makers_a, makers_b);
    lemmas::place_of_reflected(x.side, a.queue(x.side), b.queue(y.side), x.price, y.price);
}

/// An event log replays to the book: if the events reported so far tell of the
/// book, then they still do with an accepted order reported.
pub proof fn reported_orders_replay_to_the_book(
    book: BookView,
    order: LimitOrder,
    events: Seq<Report>,
    after: Seq<Report>,
)
    requires
        book == observe::retold(events),
        book.refusal(order) is None,
        observe::reported(Some(events), Some(after), Event::New(order), None),
    ensures
        book.submit(order) == observe::retold(after),
{
}

/// An event log replays to the book: if the events reported so far tell of the
/// book, then they still do with a cancellation reported.
pub proof fn reported_cancellations_replay_to_the_book(
    book: BookView,
    id: OrderId,
    side: Side,
    events: Seq<Report>,
    after: Seq<Report>,
)
    requires
        book == observe::retold(events),
        book.side_of(id) == Some(side),
        observe::reported(Some(events), Some(after), Event::Cancel { order_id: id }, None),
    ensures
        book.cancel(side, id) == observe::retold(after),
{
}

/// An event stream is unambiguous: if no two orders reported so far share an
/// identifier, then none do with an accepted order reported, or with a
/// cancellation, whether or not the observer took the report.
pub proof fn event_streams_are_unambiguous(
    book: BookView,
    order: LimitOrder,
    id: OrderId,
    events: Seq<Report>,
    after: Seq<Report>,
    error: Option<ObserverError>,
)
    requires
        observe::unambiguous(events, book.seen),
    ensures
        book.refusal(order) is None && observe::reported(
            Some(events),
            Some(after),
            Event::New(order),
            error,
        ) ==> observe::unambiguous(after, book.with_seen(order.id).seen),
        observe::reported(Some(events), Some(after), Event::Cancel { order_id: id }, error)
            ==> observe::unambiguous(after, book.seen),
{
    if after.len() == events.len() + 1 && after.drop_last() == events {
        assert forall|i: int| 0 <= i < events.len() implies (#[trigger] after[i]) == events[i] by {
            assert(after.drop_last()[i] == events[i]);
        }
        assert(after[after.len() - 1] == after.last());
    }
}

/// Whatever is asked of an empty book, its event log is unambiguous and replays
/// to the book.
pub proof fn event_logs_replay_to_the_book(requests: Seq<Request>, log: Seq<Report>)
    requires
        observe::logged(requests, log),
    ensures
        observe::retold(log) == BookView::empty().replay(requests),
        observe::unambiguous(log, BookView::empty().replay(requests).seen),
    decreases requests.len(),
{
    if requests.len() > 0 {
        let before = requests.drop_last();
        let book = BookView::empty().replay(before);
        let earlier = choose|earlier: Seq<Report>|
            observe::logged(before, earlier) && #[trigger] observe::tells(
                book,
                requests.last(),
                earlier,
                log,
            );
        event_logs_replay_to_the_book(before, earlier);
        match requests.last() {
            Request::Submit(order) => {
                event_streams_are_unambiguous(book, order, 0, earlier, log, None);
            },
            Request::Cancel(id) => {
                event_streams_are_unambiguous(book, arbitrary(), id, earlier, log, None);
            },
        }
    }
}

} // verus!
