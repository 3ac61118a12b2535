//! The mathematical order book.
//!
//! Each side of the book is one sequence of orders, best price first and, at
//! one price, earliest first.  An incoming order trades with the other side
//! from the front of its sequence, and what is left of it joins its own side.

use vstd::prelude::*;

use crate::types::{
    BookError, CancelledOrder, Level, LimitOrder, OrderId, Price, Quantity, Side, Trade,
};

verus! {

/// An order that waits on the book.
pub struct QueuedOrder {
    pub id: OrderId,
    pub price: Price,
    pub remaining: Quantity,
}

/// Whether, for orders of `side`, price `p` is strictly better than price `q`.
pub open spec fn better(side: Side, p: Price, q: Price) -> bool {
    match side {
        Side::Buy => p@ > q@,
        Side::Sell => p@ < q@,
    }
}

/// The side that orders of `side` trade with.
pub open spec fn opposite(side: Side) -> Side {
    match side {
        Side::Buy => Side::Sell,
        Side::Sell => Side::Buy,
    }
}

/// Whether an incoming order of `side` with limit `limit` may trade at
/// `price`: a buyer pays no more than the limit, a seller takes no less.
pub open spec fn crosses(side: Side, limit: Price, price: Price) -> bool {
    match side {
        Side::Buy => price@ <= limit@,
        Side::Sell => price@ >= limit@,
    }
}

/// What matching leaves behind: the trades in the order in which they were
/// made, the makers still waiting, and the taker's unfilled quantity.
pub struct Fill {
    pub trades: Seq<Trade>,
    pub makers: Seq<QueuedOrder>,
    pub remaining: Quantity,
}

/// The trade of `quantity` lots between `maker` and the taker, at the maker's
/// price.
pub open spec fn trade_with(maker: QueuedOrder, taker: OrderId, quantity: Quantity) -> Trade {
    Trade { maker_id: maker.id, taker_id: taker, price: maker.price, quantity }
}

/// Matches `quantity` lots of an incoming order against `makers`, front first,
/// until the quantity is used up or the next maker's price is beyond the limit.
pub open spec fn sweep(
    side: Side,
    limit: Price,
    taker: OrderId,
    quantity: Quantity,
    makers: Seq<QueuedOrder>,
) -> Fill
    decreases makers.len(),
{
    if quantity == 0 || makers.len() == 0 || !crosses(side, limit, makers[0].price) {
        Fill { trades: Seq::empty(), makers, remaining: quantity }
    } else if quantity < makers[0].remaining {
        Fill {
            trades: seq![trade_with(makers[0], taker, quantity)],
            makers: makers.update(0, shrunk(makers[0], quantity)),
            remaining: 0,
        }
    } else {
        let rest = sweep(
            side,
            limit,
            taker,
            (quantity - makers[0].remaining) as Quantity,
            makers.drop_first(),
        );
        Fill {
            trades: seq![trade_with(makers[0], taker, makers[0].remaining)] + rest.trades,
            ..rest
        }
    }
}

/// `order` with `quantity` lots taken off.
pub open spec fn shrunk(order: QueuedOrder, quantity: Quantity) -> QueuedOrder {
    QueuedOrder { remaining: (order.remaining - quantity) as Quantity, ..order }
}

/// The taker trades with the maker at `i` as much as both allow, and a maker
/// that is filled leaves.
pub open spec fn hit(
    makers: Seq<QueuedOrder>,
    i: int,
    taker: OrderId,
    quantity: Quantity,
) -> Fill {
    if quantity < makers[i].remaining {
        Fill {
            trades: seq![trade_with(makers[i], taker, quantity)],
            makers: makers.update(i, shrunk(makers[i], quantity)),
            remaining: 0,
        }
    } else {
        Fill {
            trades: seq![trade_with(makers[i], taker, makers[i].remaining)],
            makers: makers.remove(i),
            remaining: (quantity - makers[i].remaining) as Quantity,
        }
    }
}

/// `fill`, with `trades` made before it.
pub open spec fn after_trades(trades: Seq<Trade>, fill: Fill) -> Fill {
    Fill { trades: trades + fill.trades, ..fill }
}

/// Where an order at `price` joins `queue`: behind every order that waits at
/// an equal or better price.
pub open spec fn place(side: Side, queue: Seq<QueuedOrder>, price: Price) -> int
    decreases queue.len(),
{
    if queue.len() > 0 && better(side, price, queue.last().price) {
        place(side, queue.drop_last(), price)
    } else {
        queue.len() as int
    }
}

/// The orders of `queue` at `ticks` ticks, in their order.
pub open spec fn at_ticks(queue: Seq<QueuedOrder>, ticks: i64) -> Seq<QueuedOrder> {
    queue.filter(|order: QueuedOrder| order.price@ == ticks)
}

/// Where the first order at `ticks` ticks waits in `queue`.
pub open spec fn first_at(queue: Seq<QueuedOrder>, ticks: i64) -> int
    decreases queue.len(),
{
    if queue.len() == 0 || queue[0].price@ == ticks {
        0
    } else {
        1 + first_at(queue.drop_first(), ticks)
    }
}

/// The identifiers of the orders of `queue`, in their order.
pub open spec fn ids(queue: Seq<QueuedOrder>) -> Seq<OrderId> {
    queue.map_values(|order: QueuedOrder| order.id)
}

/// The number of lots that wait in `queue`.
pub open spec fn lots(queue: Seq<QueuedOrder>) -> nat
    decreases queue.len(),
{
    if queue.len() == 0 {
        0
    } else {
        lots(queue.drop_last()) + queue.last().remaining as nat
    }
}

/// The number of lots that `trades` moved.
pub open spec fn traded(trades: Seq<Trade>) -> nat
    decreases trades.len(),
{
    if trades.len() == 0 {
        0
    } else {
        traded(trades.drop_last()) + trades.last().quantity as nat
    }
}

/// The number of lots that orders named `id` hold in `queue`.
pub open spec fn held(queue: Seq<QueuedOrder>, id: OrderId) -> nat {
    lots(queue.filter(|order: QueuedOrder| order.id == id))
}

/// The number of lots that `trades` moved from or to the order named `id`.
pub open spec fn traded_by(trades: Seq<Trade>, id: OrderId) -> nat {
    traded(trades.filter(|trade: Trade| trade.maker_id == id || trade.taker_id == id))
}

/// Whether an order named `id` waits in `queue`.
pub open spec fn waits(queue: Seq<QueuedOrder>, id: OrderId) -> bool {
    exists|i: int| 0 <= i < queue.len() && (#[trigger] queue[i]).id == id
}

/// Where the order named `id` waits in `queue`.
pub open spec fn position(queue: Seq<QueuedOrder>, id: OrderId) -> int {
    choose|i: int| 0 <= i < queue.len() && (#[trigger] queue[i]).id == id
}

/// Whether `queue` is in priority order, names no order twice and holds no
/// empty order.
pub open spec fn queue_wf(side: Side, queue: Seq<QueuedOrder>) -> bool {
    &&& forall|i: int, j: int|
        0 <= i < j < queue.len() ==> !better(
            side,
            (#[trigger] queue[j]).price,
            (#[trigger] queue[i]).price,
        )
    &&& forall|i: int, j: int|
        0 <= i < j < queue.len() ==> (#[trigger] queue[i]).id != (#[trigger] queue[j]).id
    &&& forall|i: int|
        0 <= i < queue.len() ==> (#[trigger] queue[i]).remaining > 0 && queue[i].price@ != 0
}

/// The book: both sides in priority order, and every identifier ever accepted.
#[verifier::ext_equal]
pub struct BookView {
    pub bids: Seq<QueuedOrder>,
    pub asks: Seq<QueuedOrder>,
    pub seen: Set<OrderId>,
}

impl BookView {
    /// The book before the first request.
    pub open spec fn empty() -> BookView {
        BookView { bids: Seq::empty(), asks: Seq::empty(), seen: Set::empty() }
    }

    /// The orders that wait on `side`.
    pub open spec fn queue(self, side: Side) -> Seq<QueuedOrder> {
        match side {
            Side::Buy => self.bids,
            Side::Sell => self.asks,
        }
    }

    /// The book with `queue` on `side`.
    pub open spec fn with_queue(self, side: Side, queue: Seq<QueuedOrder>) -> BookView {
        match side {
            Side::Buy => BookView { bids: queue, ..self },
            Side::Sell => BookView { asks: queue, ..self },
        }
    }

    /// The book with `id` marked as used.
    pub open spec fn with_seen(self, id: OrderId) -> BookView {
        BookView { seen: self.seen.insert(id), ..self }
    }

    /// Both sides are well formed, no order waits on both, and every order that
    /// waits was accepted.
    pub open spec fn consistent(self) -> bool {
        &&& queue_wf(Side::Buy, self.bids)
        &&& queue_wf(Side::Sell, self.asks)
        &&& forall|i: int, j: int|
            0 <= i < self.bids.len() && 0 <= j < self.asks.len() ==> (#[trigger] self.bids[i]).id
                != (#[trigger] self.asks[j]).id
        &&& forall|i: int|
            0 <= i < self.bids.len() ==> self.seen.contains((#[trigger] self.bids[i]).id)
        &&& forall|i: int|
            0 <= i < self.asks.len() ==> self.seen.contains((#[trigger] self.asks[i]).id)
    }

    /// The best bid lies below the best ask.
    pub open spec fn uncrossed(self) -> bool {
        self.bids.len() > 0 && self.asks.len() > 0 ==> self.bids[0].price@ < self.asks[0].price@
    }

    /// What holds of the book between any two requests.
    pub open spec fn wf(self) -> bool {
        self.consistent() && self.uncrossed()
    }

    /// Why `order` is refused, if it is.
    pub open spec fn refusal(self, order: LimitOrder) -> Option<BookError> {
        if order.quantity == 0 {
            Some(BookError::ZeroQuantity)
        } else if self.seen.contains(order.id) {
            Some(BookError::DuplicateOrderId(order.id))
        } else {
            None
        }
    }

    /// What matching `order` against the other side yields.
    pub open spec fn fill(self, order: LimitOrder) -> Fill {
        sweep(
            order.side,
            order.price,
            order.id,
            order.quantity,
            self.queue(opposite(order.side)),
        )
    }

    /// The book with `order` waiting in its place on `side`.
    pub open spec fn rest(self, side: Side, order: QueuedOrder) -> BookView {
        let queue = self.queue(side);
        self.with_queue(side, queue.insert(place(side, queue, order.price), order))
    }

    /// The book after matching `order` and letting what is left of it wait.
    pub open spec fn execute(self, order: LimitOrder) -> BookView {
        let fill = self.fill(order);
        let swept = self.with_queue(opposite(order.side), fill.makers);
        if fill.remaining > 0 {
            swept.rest(
                order.side,
                QueuedOrder { id: order.id, price: order.price, remaining: fill.remaining },
            )
        } else {
            swept
        }
    }

    /// The book after `order` was accepted.
    pub open spec fn submit(self, order: LimitOrder) -> BookView {
        self.with_seen(order.id).execute(order)
    }

    /// The side on which the order named `id` waits, if it does.
    pub open spec fn side_of(self, id: OrderId) -> Option<Side> {
        if waits(self.bids, id) {
            Some(Side::Buy)
        } else if waits(self.asks, id) {
            Some(Side::Sell)
        } else {
            None
        }
    }

    /// What is reported of the order named `id`, which waits on `side`.
    pub open spec fn cancelled(self, side: Side, id: OrderId) -> CancelledOrder {
        let order = self.queue(side)[position(self.queue(side), id)];
        CancelledOrder { id, side, price: order.price, quantity: order.remaining }
    }

    /// The book without the order named `id`, which waits on `side`.
    pub open spec fn cancel(self, side: Side, id: OrderId) -> BookView {
        self.with_queue(side, self.queue(side).remove(position(self.queue(side), id)))
    }

    /// The orders at the best price of `side`.
    pub open spec fn top(self, side: Side) -> Seq<QueuedOrder> {
        at_ticks(self.queue(side), self.queue(side)[0].price@)
    }

    /// The best price level of `side`, if any order waits there.
    pub open spec fn best(self, side: Side) -> Option<Level> {
        if self.queue(side).len() == 0 {
            None
        } else {
            Some(
                Level {
                    price: self.queue(side)[0].price,
                    quantity: lots(self.top(side)) as Quantity,
                    order_count: self.top(side).len() as usize,
                },
            )
        }
    }
}

/// Whether `a` and `b` are mirror images: at every price the orders that wait
/// to buy on the one wait, in the same line, to sell on the other.
pub open spec fn mirrored(a: BookView, b: BookView) -> bool {
    forall|ticks: i64|
        #![trigger at_ticks(a.bids, ticks)]
        #![trigger at_ticks(a.asks, ticks)]
        {
            &&& at_ticks(a.bids, ticks) == at_ticks(b.asks, ticks)
            &&& at_ticks(a.asks, ticks) == at_ticks(b.bids, ticks)
        }
}

/// Whether `a` and `b` are the same orders in the same line, at prices of
/// opposite sign.
pub open spec fn queues_reflected(a: Seq<QueuedOrder>, b: Seq<QueuedOrder>) -> bool {
    &&& a.len() == b.len()
    &&& forall|i: int|
        #![trigger a[i]]
        #![trigger b[i]]
        0 <= i < a.len() ==> {
            &&& a[i].id == b[i].id
            &&& a[i].price@ == -b[i].price@
            &&& a[i].remaining == b[i].remaining
        }
}

/// Whether `a` and `b` are the same trades at prices of opposite sign.
pub open spec fn trades_reflected(a: Seq<Trade>, b: Seq<Trade>) -> bool {
    &&& a.len() == b.len()
    &&& forall|i: int|
        #![trigger a[i]]
        #![trigger b[i]]
        0 <= i < a.len() ==> {
            &&& a[i].maker_id == b[i].maker_id
            &&& a[i].taker_id == b[i].taker_id
            &&& a[i].price@ == -b[i].price@
            &&& a[i].quantity == b[i].quantity
        }
}

/// Whether what waits to buy on `a` waits to sell on `b` at the price of
/// opposite sign, and the other way round.
pub open spec fn reflected(a: BookView, b: BookView) -> bool {
    &&& queues_reflected(a.bids, b.asks)
    &&& queues_reflected(a.asks, b.bids)
    &&& a.seen == b.seen
}

/// A request to the book.
pub enum Request {
    Submit(LimitOrder),
    Cancel(OrderId),
}

impl BookView {
    /// The book after one request, accepted or refused.
    pub open spec fn after(self, request: Request) -> BookView {
        match request {
            Request::Submit(order) => if self.refusal(order) is None {
                self.submit(order)
            } else {
                self
            },
            Request::Cancel(id) => match self.side_of(id) {
                Some(side) => self.cancel(side, id),
                None => self,
            },
        }
    }

    /// The book after all of `requests`, the first one first.
    pub open spec fn replay(self, requests: Seq<Request>) -> BookView
        decreases requests.len(),
    {
        if requests.len() == 0 {
            self
        } else {
            self.replay(requests.drop_last()).after(requests.last())
        }
    }
}

impl BookView {
    /// The trades that one request makes.
    pub open spec fn trades_of(self, request: Request) -> Seq<Trade> {
        match request {
            Request::Submit(order) => if self.refusal(order) is None {
                self.fill(order).trades
            } else {
                Seq::empty()
            },
            Request::Cancel(_) => Seq::empty(),
        }
    }

    /// The trades that all of `requests` make, in the order in which they are
    /// made.
    pub open spec fn session(self, requests: Seq<Request>) -> Seq<Trade>
        decreases requests.len(),
    {
        if requests.len() == 0 {
            Seq::empty()
        } else {
            self.session(requests.drop_last()) + self.replay(requests.drop_last()).trades_of(
                requests.last(),
            )
        }
    }

    /// The unfilled quantity of the order named `id`, or zero if it does not
    /// wait.
    pub open spec fn left_of(self, id: OrderId) -> nat {
        match self.side_of(id) {
            Some(side) => self.cancelled(side, id).quantity as nat,
            None => 0,
        }
    }

    /// The number of lots of the order named `id` that cancellations among
    /// `requests` take off the book.
    pub open spec fn withdrawn(self, requests: Seq<Request>, id: OrderId) -> nat
        decreases requests.len(),
    {
        if requests.len() == 0 {
            0
        } else {
            let earlier = self.withdrawn(requests.drop_last(), id);
            if requests.last() == Request::Cancel(id) {
                earlier + self.replay(requests.drop_last()).left_of(id)
            } else {
                earlier
            }
        }
    }
}

/// Whether every order among `requests` has a price other than zero, as every
/// [`Price`] has that was made.
pub open spec fn prices_nonzero(requests: Seq<Request>) -> bool {
    forall|i: int|
        0 <= i < requests.len() ==> ((#[trigger] requests[i]) matches Request::Submit(order)
            ==> order.price@ != 0)
}

} // verus!
