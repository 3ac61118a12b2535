//! Facts about queues in priority order.

use vstd::prelude::*;

use crate::model;
use crate::model::{BookView, QueuedOrder};
use crate::types::{LimitOrder, OrderId, Price, Quantity, Side, Trade};

verus! {

/// Filtering by price works piece by piece.
pub proof fn at_ticks_of_concat(a: Seq<QueuedOrder>, b: Seq<QueuedOrder>, ticks: i64)
    ensures
        model::at_ticks(a + b, ticks) == model::at_ticks(a, ticks) + model::at_ticks(b, ticks),
{
    Seq::filter_distributes_over_add(a, b, |order: QueuedOrder| order.price@ == ticks);
}

/// Filtering one order by price keeps it or drops it.
pub proof fn at_ticks_of_one(order: QueuedOrder, ticks: i64)
    ensures
        model::at_ticks(seq![order], ticks) == if order.price@ == ticks {
            seq![order]
        } else {
            Seq::empty()
        },
{
    reveal_with_fuel(Seq::filter, 2);
    assert(seq![order].drop_last() =~= Seq::<QueuedOrder>::empty());
    assert(Seq::<QueuedOrder>::empty().push(order) =~= seq![order]);
}

/// Orders are found at a price if and only if some order waits at it.
pub proof fn at_ticks_nonempty(queue: Seq<QueuedOrder>, ticks: i64)
    ensures
        model::at_ticks(queue, ticks).len() > 0 <==> exists|i: int|
            0 <= i < queue.len() && (#[trigger] queue[i]).price@ == ticks,
    decreases queue.len(),
{
    reveal(Seq::filter);
    if queue.len() > 0 {
        at_ticks_nonempty(queue.drop_last(), ticks);
        if exists|i: int|
            0 <= i < queue.drop_last().len() && (#[trigger] queue.drop_last()[i]).price@ == ticks {
            let i = choose|i: int|
                0 <= i < queue.drop_last().len() && (#[trigger] queue.drop_last()[i]).price@
                    == ticks;
            assert(queue[i].price@ == ticks);
        }
        if queue.last().price@ == ticks {
            assert(queue[queue.len() - 1].price@ == ticks);
        }
        assert forall|i: int|
            0 <= i < queue.len() && (#[trigger] queue[i]).price@
                == ticks implies model::at_ticks(queue, ticks).len() > 0 by {
            if i < queue.len() - 1 {
                assert(queue.drop_last()[i].price@ == ticks);
            }
        }
    }
}

/// A queue seen from its order at `i`: what waits at a price before it, the
/// order itself, what waits at that price behind it.
pub proof fn at_ticks_around(queue: Seq<QueuedOrder>, i: int, ticks: i64)
    requires
        0 <= i < queue.len(),
    ensures
        model::at_ticks(queue, ticks) == model::at_ticks(queue.take(i), ticks)
            + model::at_ticks(seq![queue[i]], ticks) + model::at_ticks(queue.skip(i + 1), ticks),
{
    assert(queue =~= queue.take(i) + seq![queue[i]] + queue.skip(i + 1));
    at_ticks_of_concat(queue.take(i) + seq![queue[i]], queue.skip(i + 1), ticks);
    at_ticks_of_concat(queue.take(i), seq![queue[i]], ticks);
}

/// What waits at a price after the order at `i` has left.
pub proof fn at_ticks_of_remove(queue: Seq<QueuedOrder>, i: int, ticks: i64)
    requires
        0 <= i < queue.len(),
    ensures
        queue[i].price@ != ticks ==> model::at_ticks(queue.remove(i), ticks) == model::at_ticks(
            queue,
            ticks,
        ),
        queue[i].price@ == ticks ==> {
            let j = model::at_ticks(queue.take(i), ticks).len() as int;
            &&& j < model::at_ticks(queue, ticks).len()
            &&& model::at_ticks(queue, ticks)[j] == queue[i]
            &&& model::at_ticks(queue.remove(i), ticks) == model::at_ticks(queue, ticks).remove(j)
        },
{
    at_ticks_around(queue, i, ticks);
    at_ticks_of_one(queue[i], ticks);
    assert(queue.remove(i) =~= queue.take(i) + queue.skip(i + 1));
    at_ticks_of_concat(queue.take(i), queue.skip(i + 1), ticks);
    let before = model::at_ticks(queue.take(i), ticks);
    let after = model::at_ticks(queue.skip(i + 1), ticks);
    if queue[i].price@ == ticks {
        assert((before + seq![queue[i]] + after).remove(before.len() as int) =~= before + after);
    } else {
        assert(before + Seq::<QueuedOrder>::empty() + after =~= before + after);
    }
}

/// What waits at a price after the order at `i` was replaced by one of the same
/// price.
pub proof fn at_ticks_of_update(
    queue: Seq<QueuedOrder>,
    i: int,
    order: QueuedOrder,
    ticks: i64,
)
    requires
        0 <= i < queue.len(),
        order.price == queue[i].price,
    ensures
        order.price@ != ticks ==> model::at_ticks(queue.update(i, order), ticks)
            == model::at_ticks(queue, ticks),
        order.price@ == ticks ==> {
            let j = model::at_ticks(queue.take(i), ticks).len() as int;
            &&& j < model::at_ticks(queue, ticks).len()
            &&& model::at_ticks(queue, ticks)[j] == queue[i]
            &&& model::at_ticks(queue.update(i, order), ticks) == model::at_ticks(
                queue,
                ticks,
            ).update(j, order)
        },
{
    let updated = queue.update(i, order);
    at_ticks_around(queue, i, ticks);
    at_ticks_around(updated, i, ticks);
    at_ticks_of_one(queue[i], ticks);
    at_ticks_of_one(order, ticks);
    assert(updated.take(i) =~= queue.take(i));
    assert(updated.skip(i + 1) =~= queue.skip(i + 1));
    let before = model::at_ticks(queue.take(i), ticks);
    let after = model::at_ticks(queue.skip(i + 1), ticks);
    if order.price@ == ticks {
        assert((before + seq![queue[i]] + after).update(before.len() as int, order) =~= before
            + seq![order] + after);
    }
}

/// Taking lots off an order moves nobody.
pub proof fn ids_at_ticks_of_update(
    queue: Seq<QueuedOrder>,
    i: int,
    order: QueuedOrder,
    ticks: i64,
)
    requires
        0 <= i < queue.len(),
        order.id == queue[i].id,
        order.price == queue[i].price,
    ensures
        model::ids(model::at_ticks(queue.update(i, order), ticks)) == model::ids(
            model::at_ticks(queue, ticks),
        ),
        model::at_ticks(queue.update(i, order), ticks).len() == model::at_ticks(
            queue,
            ticks,
        ).len(),
{
    at_ticks_of_update(queue, i, order, ticks);
    assert(model::ids(model::at_ticks(queue.update(i, order), ticks)) =~= model::ids(
        model::at_ticks(queue, ticks),
    ));
}

/// The first order at a price is first among those at that price.
pub proof fn first_at_is_first(queue: Seq<QueuedOrder>, ticks: i64)
    requires
        model::at_ticks(queue, ticks).len() > 0,
    ensures
        ({
            let i = model::first_at(queue, ticks);
            &&& 0 <= i < queue.len()
            &&& queue[i].price@ == ticks
            &&& model::at_ticks(queue.take(i), ticks).len() == 0
            &&& model::at_ticks(queue, ticks)[0] == queue[i]
        }),
    decreases queue.len(),
{
    let i = model::first_at(queue, ticks);
    at_ticks_nonempty(queue, ticks);
    if queue[0].price@ == ticks {
        reveal(Seq::filter);
        assert(queue.take(0) =~= Seq::<QueuedOrder>::empty());
    } else {
        let behind = queue.drop_first();
        at_ticks_of_remove(queue, 0, ticks);
        assert(queue.remove(0) =~= behind);
        first_at_is_first(behind, ticks);
        at_ticks_of_remove(queue.take(i), 0, ticks);
        assert(queue.take(i).remove(0) =~= behind.take(i - 1));
        assert(behind[i - 1] == queue[i]);
    }
    at_ticks_of_remove(queue, i, ticks);
}

/// What waits at a price after an order has joined behind every order of its
/// price.
pub proof fn at_ticks_of_insert(
    queue: Seq<QueuedOrder>,
    i: int,
    order: QueuedOrder,
    ticks: i64,
)
    requires
        0 <= i <= queue.len(),
        forall|j: int| i <= j < queue.len() ==> (#[trigger] queue[j]).price@ != order.price@,
    ensures
        order.price@ != ticks ==> model::at_ticks(queue.insert(i, order), ticks)
            == model::at_ticks(queue, ticks),
        order.price@ == ticks ==> model::at_ticks(queue.insert(i, order), ticks)
            == model::at_ticks(queue, ticks).push(order),
{
    let longer = queue.insert(i, order);
    at_ticks_of_remove(longer, i, ticks);
    assert(longer.remove(i) =~= queue);
    if order.price@ == ticks {
        at_ticks_around(longer, i, ticks);
        at_ticks_of_one(order, ticks);
        at_ticks_nonempty(longer.skip(i + 1), ticks);
        assert forall|j: int| 0 <= j < longer.skip(i + 1).len() implies (#[trigger] longer.skip(
            i + 1,
        )[j]).price@ != ticks by {
            assert(queue[i + j].price@ != order.price@);
        }
        let after = model::at_ticks(longer.skip(i + 1), ticks);
        assert(after =~= Seq::<QueuedOrder>::empty());
        let j = model::at_ticks(longer.take(i), ticks).len() as int;
        assert(model::at_ticks(longer, ticks) =~= model::at_ticks(longer.take(i), ticks).push(
            order,
        ));
        assert(model::at_ticks(longer, ticks).remove(j) =~= model::at_ticks(longer.take(i), ticks));
    }
}

/// No order is named twice at one price.
pub proof fn at_ticks_names_once(queue: Seq<QueuedOrder>, side: Side, ticks: i64)
    requires
        model::queue_wf(side, queue),
    ensures
        forall|i: int, j: int|
            0 <= i < j < model::at_ticks(queue, ticks).len() ==> (#[trigger] model::at_ticks(
                queue,
                ticks,
            )[i]).id != (#[trigger] model::at_ticks(queue, ticks)[j]).id,
        forall|i: int|
            0 <= i < model::at_ticks(queue, ticks).len() ==> queue.contains(
                #[trigger] model::at_ticks(queue, ticks)[i],
            ),
    decreases queue.len(),
{
    reveal(Seq::filter);
    if queue.len() > 0 {
        let shorter = queue.drop_last();
        assert(shorter =~= queue.remove(queue.len() - 1));
        remove_keeps_queue_wf(side, queue, queue.len() - 1);
        at_ticks_names_once(shorter, side, ticks);
        let found = model::at_ticks(queue, ticks);
        let fewer = model::at_ticks(shorter, ticks);
        assert forall|i: int| 0 <= i < fewer.len() implies queue.contains(#[trigger] fewer[i])
            && fewer[i].id != queue.last().id by {
            let k = choose|k: int| 0 <= k < shorter.len() && shorter[k] == fewer[i];
            assert(queue[k] == fewer[i]);
        }
        assert(queue[queue.len() - 1] == queue.last());
        assert(queue.contains(queue.last()));
        assert forall|i: int, j: int| 0 <= i < j < found.len() implies (#[trigger] found[i]).id != (
        #[trigger] found[j]).id by {
            assert(found[i] == fewer[i]);
            if j < fewer.len() {
                assert(found[j] == fewer[j]);
            }
        }
        assert forall|i: int| 0 <= i < found.len() implies queue.contains(#[trigger] found[i]) by {
            if i < fewer.len() {
                assert(found[i] == fewer[i]);
            }
        }
    }
}

/// The place of a price parts the queue: nothing before it is worse,
/// everything from it on is.
pub proof fn place_parts_the_queue(side: Side, queue: Seq<QueuedOrder>, price: Price)
    requires
        forall|i: int, j: int|
            0 <= i < j < queue.len() ==> !model::better(
                side,
                (#[trigger] queue[j]).price,
                (#[trigger] queue[i]).price,
            ),
    ensures
        0 <= model::place(side, queue, price) <= queue.len(),
        forall|i: int|
            0 <= i < model::place(side, queue, price) ==> !model::better(
                side,
                price,
                (#[trigger] queue[i]).price,
            ),
        forall|i: int|
            model::place(side, queue, price) <= i < queue.len() ==> model::better(
                side,
                price,
                (#[trigger] queue[i]).price,
            ),
    decreases queue.len(),
{
    if queue.len() > 0 && model::better(side, price, queue.last().price) {
        let shorter = queue.drop_last();
        place_parts_the_queue(side, shorter, price);
        let at = model::place(side, queue, price);
        assert forall|i: int| 0 <= i < at implies !model::better(
            side,
            price,
            (#[trigger] queue[i]).price,
        ) by {
            assert(shorter[i] == queue[i]);
        }
        assert forall|i: int| at <= i < queue.len() implies model::better(
            side,
            price,
            (#[trigger] queue[i]).price,
        ) by {
            if i < shorter.len() {
                assert(shorter[i] == queue[i]);
            }
        }
    }
}

/// Named once, found once.
pub proof fn position_is(queue: Seq<QueuedOrder>, side: Side, i: int)
    requires
        model::queue_wf(side, queue),
        0 <= i < queue.len(),
    ensures
        model::waits(queue, queue[i].id),
        model::position(queue, queue[i].id) == i,
{
    let j = model::position(queue, queue[i].id);
    assert(0 <= j < queue.len() && queue[j].id == queue[i].id);
}

/// A queue stays well formed when an order joins it in its place.
pub proof fn insert_keeps_queue_wf(side: Side, queue: Seq<QueuedOrder>, order: QueuedOrder)
    requires
        model::queue_wf(side, queue),
        !model::waits(queue, order.id),
        order.remaining > 0,
        order.price@ != 0,
    ensures
        model::queue_wf(side, queue.insert(model::place(side, queue, order.price), order)),
{
    let at = model::place(side, queue, order.price);
    place_parts_the_queue(side, queue, order.price);
    let longer = queue.insert(at, order);
    assert forall|i: int| 0 <= i < longer.len() implies (#[trigger] longer[i]) == if i < at {
        queue[i]
    } else if i == at {
        order
    } else {
        queue[i - 1]
    } by {}
    assert forall|i: int, j: int| 0 <= i < j < longer.len() implies !model::better(
        side,
        (#[trigger] longer[j]).price,
        (#[trigger] longer[i]).price,
    ) by {}
    assert forall|i: int, j: int| 0 <= i < j < longer.len() implies (#[trigger] longer[i]).id != (
    #[trigger] longer[j]).id by {
        if i == at {
            assert(queue[j - 1].id != order.id);
        } else if j == at {
            assert(queue[i].id != order.id);
        }
    }
}

/// A queue stays well formed when an order leaves it.
pub proof fn remove_keeps_queue_wf(side: Side, queue: Seq<QueuedOrder>, i: int)
    requires
        model::queue_wf(side, queue),
        0 <= i < queue.len(),
    ensures
        model::queue_wf(side, queue.remove(i)),
{
    let shorter = queue.remove(i);
    assert forall|j: int| 0 <= j < shorter.len() implies (#[trigger] shorter[j]) == if j < i {
        queue[j]
    } else {
        queue[j + 1]
    } by {}
}

/// A sweep that goes on hits the front maker first.
pub proof fn sweep_starts_with_a_hit(
    side: Side,
    limit: Price,
    taker: OrderId,
    quantity: Quantity,
    makers: Seq<QueuedOrder>,
)
    requires
        quantity > 0,
        makers.len() > 0,
        model::crosses(side, limit, makers[0].price),
    ensures
        model::sweep(side, limit, taker, quantity, makers) == ({
            let step = model::hit(makers, 0, taker, quantity);
            model::after_trades(
                step.trades,
                model::sweep(side, limit, taker, step.remaining, step.makers),
            )
        }),
{
    let step = model::hit(makers, 0, taker, quantity);
    let rest = model::sweep(side, limit, taker, step.remaining, step.makers);
    let whole = model::sweep(side, limit, taker, quantity, makers);
    assert(makers.remove(0) =~= makers.drop_first());
    assert(whole.trades =~= step.trades + rest.trades);
}

/// What one hit leaves is still in order, names nobody new, and is no better
/// priced than before.
pub proof fn hit_keeps_queue_wf(
    side: Side,
    makers: Seq<QueuedOrder>,
    taker: OrderId,
    quantity: Quantity,
)
    requires
        model::queue_wf(side, makers),
        makers.len() > 0,
        quantity > 0,
    ensures
        ({
            let left = model::hit(makers, 0, taker, quantity).makers;
            &&& model::queue_wf(side, left)
            &&& forall|i: int| 0 <= i < left.len() ==> model::waits(makers, (#[trigger] left[i]).id)
            &&& left.len() > 0 ==> !model::better(side, left[0].price, makers[0].price)
        }),
{
    let left = model::hit(makers, 0, taker, quantity).makers;
    if quantity < makers[0].remaining {
        assert forall|i: int| 0 <= i < left.len() implies model::waits(
            makers,
            (#[trigger] left[i]).id,
        ) by {
            assert(makers[i].id == left[i].id);
        }
    } else {
        assert(left =~= makers.remove(0));
        remove_keeps_queue_wf(side, makers, 0);
        assert forall|i: int| 0 <= i < left.len() implies model::waits(
            makers,
            (#[trigger] left[i]).id,
        ) by {
            assert(makers[i + 1].id == left[i].id);
        }
    }
}

/// One more order adds its lots.
pub proof fn lots_of_next(orders: Seq<QueuedOrder>, i: int)
    requires
        0 <= i < orders.len(),
    ensures
        model::lots(orders.take(i + 1)) == model::lots(orders.take(i)) + orders[i].remaining,
{
    assert(orders.take(i + 1).drop_last() =~= orders.take(i));
}

/// The first few orders hold no more lots than all of them.
pub proof fn lots_of_take(orders: Seq<QueuedOrder>, i: int)
    requires
        0 <= i <= orders.len(),
    ensures
        model::lots(orders.take(i)) <= model::lots(orders),
    decreases orders.len() - i,
{
    if i < orders.len() {
        lots_of_next(orders, i);
        lots_of_take(orders, i + 1);
    } else {
        assert(orders.take(i) =~= orders);
    }
}

/// A trade made earlier adds its lots.
pub proof fn traded_of_concat(a: Seq<Trade>, b: Seq<Trade>)
    ensures
        model::traded(a + b) == model::traded(a) + model::traded(b),
    decreases b.len(),
{
    if b.len() == 0 {
        assert(a + b =~= a);
    } else {
        assert((a + b).drop_last() =~= a + b.drop_last());
        traded_of_concat(a, b.drop_last());
    }
}

/// One trade moves its own lots.
pub proof fn traded_of_one(trade: Trade)
    ensures
        model::traded(seq![trade]) == trade.quantity,
{
    reveal_with_fuel(model::traded, 2);
    assert(seq![trade].drop_last() =~= Seq::<Trade>::empty());
}

/// The lots of two parts of a queue add up.
pub proof fn lots_of_concat(a: Seq<QueuedOrder>, b: Seq<QueuedOrder>)
    ensures
        model::lots(a + b) == model::lots(a) + model::lots(b),
    decreases b.len(),
{
    if b.len() == 0 {
        assert(a + b =~= a);
    } else {
        assert((a + b).drop_last() =~= a + b.drop_last());
        lots_of_concat(a, b.drop_last());
    }
}

/// The front order's lots, and the lots behind it.
pub proof fn lots_of_front(queue: Seq<QueuedOrder>)
    requires
        queue.len() > 0,
    ensures
        model::lots(queue) == queue[0].remaining + model::lots(queue.drop_first()),
{
    assert(queue =~= seq![queue[0]] + queue.drop_first());
    lots_of_concat(seq![queue[0]], queue.drop_first());
    reveal_with_fuel(model::lots, 2);
    assert(seq![queue[0]].drop_last() =~= Seq::<QueuedOrder>::empty());
}

/// An order's lots count wherever it waits.
pub proof fn lots_of_insert(queue: Seq<QueuedOrder>, i: int, order: QueuedOrder)
    requires
        0 <= i <= queue.len(),
    ensures
        model::lots(queue.insert(i, order)) == model::lots(queue) + order.remaining,
{
    let behind = queue.skip(i);
    assert(queue.insert(i, order) =~= queue.take(i) + (seq![order] + behind));
    assert(queue =~= queue.take(i) + behind);
    lots_of_concat(queue.take(i), seq![order] + behind);
    lots_of_concat(queue.take(i), behind);
    lots_of_front(seq![order] + behind);
    assert((seq![order] + behind).drop_first() =~= behind);
}

/// The lots that one name holds in two parts of a queue add up.
pub proof fn held_of_concat(a: Seq<QueuedOrder>, b: Seq<QueuedOrder>, id: OrderId)
    ensures
        model::held(a + b, id) == model::held(a, id) + model::held(b, id),
{
    let named = |order: QueuedOrder| order.id == id;
    Seq::filter_distributes_over_add(a, b, named);
    lots_of_concat(a.filter(named), b.filter(named));
}

/// An order holds its own lots.
pub proof fn held_of_one(order: QueuedOrder, id: OrderId)
    ensures
        model::held(seq![order], id) == if order.id == id {
            order.remaining as nat
        } else {
            0
        },
{
    reveal_with_fuel(Seq::filter, 2);
    reveal_with_fuel(model::lots, 2);
    assert(seq![order].drop_last() =~= Seq::<QueuedOrder>::empty());
    assert(Seq::<QueuedOrder>::empty().push(order) =~= seq![order]);
}

/// A queue seen from its order at `i`: what a name holds before it, by it and
/// behind it.
pub proof fn held_around(queue: Seq<QueuedOrder>, i: int, id: OrderId)
    requires
        0 <= i < queue.len(),
    ensures
        model::held(queue, id) == model::held(queue.take(i), id) + model::held(
            seq![queue[i]],
            id,
        ) + model::held(queue.skip(i + 1), id),
{
    assert(queue =~= queue.take(i) + seq![queue[i]] + queue.skip(i + 1));
    held_of_concat(queue.take(i) + seq![queue[i]], queue.skip(i + 1), id);
    held_of_concat(queue.take(i), seq![queue[i]], id);
}

/// A name that does not wait holds nothing.
pub proof fn held_by_none(queue: Seq<QueuedOrder>, id: OrderId)
    requires
        forall|i: int| 0 <= i < queue.len() ==> (#[trigger] queue[i]).id != id,
    ensures
        model::held(queue, id) == 0,
    decreases queue.len(),
{
    reveal(Seq::filter);
    if queue.len() > 0 {
        assert(queue[queue.len() - 1].id != id);
        held_by_none(queue.drop_last(), id);
    }
}

/// A name that waits holds what its order has left.
pub proof fn held_is_remaining(side: Side, queue: Seq<QueuedOrder>, i: int)
    requires
        model::queue_wf(side, queue),
        0 <= i < queue.len(),
    ensures
        model::held(queue, queue[i].id) == queue[i].remaining,
{
    let id = queue[i].id;
    held_around(queue, i, id);
    held_of_one(queue[i], id);
    held_by_none(queue.take(i), id);
    held_by_none(queue.skip(i + 1), id);
}

/// An order that joins brings its own lots.
pub proof fn held_of_insert(queue: Seq<QueuedOrder>, i: int, order: QueuedOrder, id: OrderId)
    requires
        0 <= i <= queue.len(),
        order.id != id,
    ensures
        model::held(queue.insert(i, order), id) == model::held(queue, id),
{
    let longer = queue.insert(i, order);
    held_around(longer, i, id);
    held_of_one(order, id);
    assert(longer.take(i) =~= queue.take(i));
    assert(longer.skip(i + 1) =~= queue.skip(i));
    assert(queue =~= queue.take(i) + queue.skip(i));
    held_of_concat(queue.take(i), queue.skip(i), id);
}

/// The lots that two runs of trades move for one name add up.
pub proof fn traded_by_of_concat(a: Seq<Trade>, b: Seq<Trade>, id: OrderId)
    ensures
        model::traded_by(a + b, id) == model::traded_by(a, id) + model::traded_by(b, id),
{
    let concerned = |trade: Trade| trade.maker_id == id || trade.taker_id == id;
    Seq::filter_distributes_over_add(a, b, concerned);
    traded_of_concat(a.filter(concerned), b.filter(concerned));
}

/// A trade moves its own lots for those it is between.
pub proof fn traded_by_of_one(trade: Trade, id: OrderId)
    ensures
        model::traded_by(seq![trade], id) == if trade.maker_id == id || trade.taker_id == id {
            trade.quantity as nat
        } else {
            0
        },
{
    reveal_with_fuel(Seq::filter, 2);
    reveal_with_fuel(model::traded, 2);
    assert(seq![trade].drop_last() =~= Seq::<Trade>::empty());
    assert(Seq::<Trade>::empty().push(trade) =~= seq![trade]);
}

/// Trades that all have one taker move all their lots for it.
pub proof fn traded_by_the_taker(trades: Seq<Trade>, id: OrderId)
    requires
        forall|i: int| 0 <= i < trades.len() ==> (#[trigger] trades[i]).taker_id == id,
    ensures
        model::traded_by(trades, id) == model::traded(trades),
    decreases trades.len(),
{
    if trades.len() > 0 {
        let last = trades[trades.len() - 1];
        traded_by_the_taker(trades.drop_last(), id);
        assert(trades =~= trades.drop_last() + seq![last]);
        traded_by_of_concat(trades.drop_last(), seq![last], id);
        traded_by_of_one(last, id);
    } else {
        reveal(Seq::filter);
    }
}

/// What a maker traded in a sweep is what it has less afterwards.
pub proof fn sweep_settles_each_maker(
    side: Side,
    limit: Price,
    taker: OrderId,
    quantity: Quantity,
    makers: Seq<QueuedOrder>,
    id: OrderId,
)
    requires
        taker != id,
    ensures
        ({
            let fill = model::sweep(side, limit, taker, quantity, makers);
            model::held(makers, id) == model::held(fill.makers, id) + model::traded_by(
                fill.trades,
                id,
            )
        }),
    decreases makers.len(),
{
    let fill = model::sweep(side, limit, taker, quantity, makers);
    if quantity == 0 || makers.len() == 0 || !model::crosses(side, limit, makers[0].price) {
        reveal(Seq::filter);
    } else {
        let behind = makers.drop_first();
        assert(makers =~= seq![makers[0]] + behind);
        held_of_concat(seq![makers[0]], behind, id);
        held_of_one(makers[0], id);
        if quantity < makers[0].remaining {
            let left = model::shrunk(makers[0], quantity);
            assert(fill.makers =~= seq![left] + behind);
            held_of_concat(seq![left], behind, id);
            held_of_one(left, id);
            traded_by_of_one(model::trade_with(makers[0], taker, quantity), id);
        } else {
            let rest = (quantity - makers[0].remaining) as Quantity;
            let first = model::trade_with(makers[0], taker, makers[0].remaining);
            sweep_settles_each_maker(side, limit, taker, rest, behind, id);
            traded_by_of_concat(
                seq![first],
                model::sweep(side, limit, taker, rest, behind).trades,
                id,
            );
            traded_by_of_one(first, id);
        }
    }
}

/// What a sweep leaves is still in order, names nobody new, and is no better
/// priced than before.
pub proof fn sweep_keeps_queue_wf(
    side: Side,
    limit: Price,
    taker: OrderId,
    quantity: Quantity,
    makers: Seq<QueuedOrder>,
)
    requires
        model::queue_wf(model::opposite(side), makers),
    ensures
        ({
            let left = model::sweep(side, limit, taker, quantity, makers).makers;
            &&& model::queue_wf(model::opposite(side), left)
            &&& forall|i: int| 0 <= i < left.len() ==> model::waits(makers, (#[trigger] left[i]).id)
            &&& left.len() > 0 ==> makers.len() > 0 && !model::better(
                model::opposite(side),
                left[0].price,
                makers[0].price,
            )
        }),
    decreases makers.len(),
{
    let left = model::sweep(side, limit, taker, quantity, makers).makers;
    if quantity == 0 || makers.len() == 0 || !model::crosses(side, limit, makers[0].price) {
        assert forall|i: int| 0 <= i < left.len() implies model::waits(
            makers,
            (#[trigger] left[i]).id,
        ) by {
            assert(makers[i].id == left[i].id);
        }
    } else {
        hit_keeps_queue_wf(model::opposite(side), makers, taker, quantity);
        if quantity >= makers[0].remaining {
            let behind = makers.drop_first();
            assert(behind =~= makers.remove(0));
            sweep_keeps_queue_wf(
                side,
                limit,
                taker,
                (quantity - makers[0].remaining) as Quantity,
                behind,
            );
            assert forall|i: int| 0 <= i < left.len() implies model::waits(
                makers,
                (#[trigger] left[i]).id,
            ) by {
                let j = model::position(behind, left[i].id);
                assert(0 <= j < behind.len() && behind[j].id == left[i].id);
                assert(makers[j + 1].id == left[i].id);
            }
        }
    }
}

/// A book stays well formed when a sweep has gone through one of its sides.
pub proof fn sweep_keeps_book_wf(book: BookView, order: LimitOrder)
    requires
        book.wf(),
    ensures
        book.with_queue(model::opposite(order.side), book.fill(order).makers).wf(),
        !model::waits(book.bids, order.id) && !model::waits(book.asks, order.id)
            ==> !model::waits(book.fill(order).makers, order.id),
{
    let other = model::opposite(order.side);
    let makers = book.queue(other);
    let left = book.fill(order).makers;
    sweep_keeps_queue_wf(order.side, order.price, order.id, order.quantity, makers);
    assert forall|i: int| 0 <= i < left.len() implies exists|j: int|
        0 <= j < makers.len() && (#[trigger] makers[j]).id == (#[trigger] left[i]).id by {
        assert(model::waits(makers, left[i].id));
    }
}

/// A book stays consistent when an accepted order joins it, and uncrossed when
/// that order cannot trade.
pub proof fn rest_keeps_book_wf(book: BookView, side: Side, order: QueuedOrder)
    requires
        book.consistent(),
        book.seen.contains(order.id),
        !model::waits(book.bids, order.id),
        !model::waits(book.asks, order.id),
        order.remaining > 0,
        order.price@ != 0,
    ensures
        book.rest(side, order).consistent(),
        ({
            let others = book.queue(model::opposite(side));
            &&& book.uncrossed()
            &&& others.len() > 0 ==> !model::crosses(side, order.price, others[0].price)
        }) ==> book.rest(side, order).uncrossed(),
{
    let queue = book.queue(side);
    let at = model::place(side, queue, order.price);
    let longer = queue.insert(at, order);
    let others = book.queue(model::opposite(side));
    place_parts_the_queue(side, queue, order.price);
    insert_keeps_queue_wf(side, queue, order);
    assert forall|j: int| 0 <= j < longer.len() implies (#[trigger] longer[j]) == if j < at {
        queue[j]
    } else if j == at {
        order
    } else {
        queue[j - 1]
    } by {}
    assert forall|i: int, j: int|
        0 <= i < longer.len() && 0 <= j < others.len() implies (#[trigger] longer[i]).id != (
    #[trigger] others[j]).id by {
        if i == at {
            assert(others[j].id != order.id);
        }
    }
}

/// A book stays consistent, and uncrossed, when an order leaves it.
pub proof fn leaving_keeps_book_wf(book: BookView, side: Side, i: int)
    requires
        book.consistent(),
        0 <= i < book.queue(side).len(),
    ensures
        book.with_queue(side, book.queue(side).remove(i)).consistent(),
        book.uncrossed() ==> book.with_queue(side, book.queue(side).remove(i)).uncrossed(),
{
    let queue = book.queue(side);
    let left = queue.remove(i);
    remove_keeps_queue_wf(side, queue, i);
    assert forall|j: int| 0 <= j < left.len() implies (#[trigger] left[j]) == if j < i {
        queue[j]
    } else {
        queue[j + 1]
    } by {}
}

/// A sweep does the same to the same makers at prices of opposite sign.
pub proof fn sweep_of_reflected(
    side: Side,
    limit_a: Price,
    limit_b: Price,
    taker: OrderId,
    quantity: Quantity,
    a: Seq<QueuedOrder>,
    b: Seq<QueuedOrder>,
)
    requires
        limit_a@ == -limit_b@,
        model::queues_reflected(a, b),
    ensures
        ({
            let x = model::sweep(side, limit_a, taker, quantity, a);
            let y = model::sweep(model::opposite(side), limit_b, taker, quantity, b);
            &&& model::trades_reflected(x.trades, y.trades)
            &&& model::queues_reflected(x.makers, y.makers)
            &&& x.remaining == y.remaining
        }),
    decreases a.len(),
{
    if a.len() > 0 {
        assert(a[0].price@ == -b[0].price@);
        if quantity > 0 && model::crosses(side, limit_a, a[0].price) && quantity
            >= a[0].remaining {
            sweep_of_reflected(
                side,
                limit_a,
                limit_b,
                taker,
                (quantity - a[0].remaining) as Quantity,
                a.drop_first(),
                b.drop_first(),
            );
        }
    }
}

/// An order finds the same place among the same orders at prices of opposite
/// sign.
pub proof fn place_of_reflected(
    side: Side,
    a: Seq<QueuedOrder>,
    b: Seq<QueuedOrder>,
    price_a: Price,
    price_b: Price,
)
    requires
        price_a@ == -price_b@,
        model::queues_reflected(a, b),
    ensures
        model::place(side, a, price_a) == model::place(model::opposite(side), b, price_b),
        0 <= model::place(side, a, price_a) <= a.len(),
    decreases a.len(),
{
    if a.len() > 0 {
        assert(a[a.len() - 1].price@ == -b[b.len() - 1].price@);
        place_of_reflected(side, a.drop_last(), b.drop_last(), price_a, price_b);
    }
}

/// What waits at a price, seen from the end of the queue.
pub proof fn at_ticks_of_last(queue: Seq<QueuedOrder>, ticks: i64)
    requires
        queue.len() > 0,
    ensures
        model::at_ticks(queue, ticks) == if queue.last().price@ == ticks {
            model::at_ticks(queue.drop_last(), ticks).push(queue.last())
        } else {
            model::at_ticks(queue.drop_last(), ticks)
        },
{
    reveal(Seq::filter);
}

/// The orders at the best price are the first in line.
pub proof fn top_is_a_prefix(side: Side, queue: Seq<QueuedOrder>)
    requires
        model::queue_wf(side, queue),
        queue.len() > 0,
    ensures
        ({
            let top = model::at_ticks(queue, queue[0].price@);
            &&& 0 < top.len() <= queue.len()
            &&& top == queue.take(top.len() as int)
            &&& forall|i: int|
                0 <= i < queue.len() ==> ((#[trigger] queue[i]).price@ == queue[0].price@ <==> i
                    < top.len())
        }),
    decreases queue.len(),
{
    let ticks = queue[0].price@;
    let top = model::at_ticks(queue, ticks);
    let shorter = queue.drop_last();
    let n = shorter.len() as int;
    at_ticks_of_last(queue, ticks);
    if n == 0 {
        at_ticks_of_one(queue[0], ticks);
        assert(queue =~= seq![queue[0]]);
        assert(top =~= queue.take(1));
    } else {
        assert(shorter =~= queue.remove(n));
        remove_keeps_queue_wf(side, queue, n);
        top_is_a_prefix(side, shorter);
        assert(shorter[0] == queue[0]);
        let fewer = model::at_ticks(shorter, ticks);
        if queue[n].price@ == ticks {
            assert(!model::better(side, queue[n].price, queue[n - 1].price));
            assert(!model::better(side, queue[n - 1].price, queue[0].price) || n == 1);
            assert(shorter[n - 1].price@ == ticks);
            assert(fewer.len() == n);
        }
        assert(top =~= queue.take(top.len() as int));
        assert forall|i: int| 0 <= i < queue.len() implies ((#[trigger] queue[i]).price@ == ticks
            <==> i < top.len()) by {
            if i < n {
                assert(shorter[i] == queue[i]);
            }
        }
    }
}

} // verus!
