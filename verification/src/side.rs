//! One side of the book as it is stored: a sorted map from price to the queue
//! of order identifiers at that price.

use std::collections::{BTreeMap, VecDeque};

use vstd::prelude::*;

use crate::lemmas;
use crate::model;
use crate::model::QueuedOrder;
use crate::types::{OrderId, Price, Quantity, Side};

verus! {

/// The orders at one price.
pub struct PriceLevel {
    /// FIFO is the "time priority" part of price-time priority.
    pub queue: VecDeque<OrderId>,
}

/// The price levels of one side, together with the sequence of orders in
/// priority order that they stand for.
pub struct BookSide {
    pub levels: BTreeMap<i64, PriceLevel>,
    pub queue: Ghost<Seq<QueuedOrder>>,
}

/// The smallest key of `map`, through `BTreeMap::first_key_value`, which hands
/// out the entry with the minimum key, and `None` only for an empty map.
#[verifier::external_body]
fn first_key(map: &BTreeMap<i64, PriceLevel>) -> (key: Option<i64>)
    ensures
        match key {
            Some(k) => map@.contains_key(k) && forall|j: i64| #[trigger]
                map@.contains_key(j) ==> k <= j,
            None => forall|j: i64| !(#[trigger] map@.contains_key(j)),
        },
{
    map.first_key_value().map(|(key, _)| *key)
}

/// The largest key of `map`, through `BTreeMap::last_key_value`, which hands
/// out the entry with the maximum key, and `None` only for an empty map.
#[verifier::external_body]
fn last_key(map: &BTreeMap<i64, PriceLevel>) -> (key: Option<i64>)
    ensures
        match key {
            Some(k) => map@.contains_key(k) && forall|j: i64| #[trigger]
                map@.contains_key(j) ==> k >= j,
            None => forall|j: i64| !(#[trigger] map@.contains_key(j)),
        },
{
    map.last_key_value().map(|(key, _)| *key)
}

impl BookSide {
    /// The levels hold exactly the queue's orders, each at its price and in
    /// the queue's order, and no level is empty.
    pub open spec fn wf(&self, side: Side) -> bool {
        &&& model::queue_wf(side, self.queue@)
        &&& forall|ticks: i64| #[trigger]
            self.levels@.contains_key(ticks) <==> model::at_ticks(self.queue@, ticks).len() > 0
        &&& forall|ticks: i64| #[trigger]
            self.levels@.contains_key(ticks) ==> self.levels@[ticks].queue@ == model::ids(
                model::at_ticks(self.queue@, ticks),
            )
    }

    /// A side on which nothing waits.
    pub fn new() -> (result: BookSide)
        ensures
            forall|side: Side| result.wf(side),
            result.queue@ == Seq::<QueuedOrder>::empty(),
    {
        let result = BookSide { levels: BTreeMap::new(), queue: Ghost(Seq::empty()) };
        proof {
            reveal(Seq::filter);
        }
        result
    }

    /// The best price on this side.
    pub fn best(&self, side: Side) -> (price: Option<Price>)
        requires
            self.wf(side),
        ensures
            match price {
                Some(p) => self.queue@.len() > 0 && self.queue@[0].price == p,
                None => self.queue@.len() == 0,
            },
    {
        let ticks = match side {
            Side::Buy => last_key(&self.levels),
            Side::Sell => first_key(&self.levels),
        };
        proof {
            let queue = self.queue@;
            if queue.len() > 0 {
                lemmas::at_ticks_nonempty(queue, queue[0].price@);
                assert(self.levels@.contains_key(queue[0].price@));
            }
            if let Some(t) = ticks {
                lemmas::at_ticks_nonempty(queue, t);
            }
            broadcast use crate::types::price_is_its_ticks;
        }
        match ticks {
            Some(t) => Price::new(t),
            None => None,
        }
    }

    /// The order that is first in line at `price`.
    pub fn front(&self, side: Side, price: Price) -> (id: OrderId)
        requires
            self.wf(side),
            model::at_ticks(self.queue@, price@).len() > 0,
        ensures
            id == self.queue@[model::first_at(self.queue@, price@)].id,
    {
        let ticks: i64 = price.get();
        proof {
            lemmas::first_at_is_first(self.queue@, ticks);
            assert(self.levels@.contains_key(ticks));
        }
        let level = self.levels.get(&ticks).unwrap();
        level.queue[0]
    }

    /// Takes the first order in line off the level at `price`.
    pub fn pop_front(&mut self, side: Side, price: Price)
        requires
            old(self).wf(side),
            model::at_ticks(old(self).queue@, price@).len() > 0,
        ensures
            final(self).wf(side),
            final(self).queue@ == old(self).queue@.remove(
                model::first_at(old(self).queue@, price@),
            ),
    {
        let ticks: i64 = price.get();
        let ghost queue = self.queue@;
        let ghost i = model::first_at(queue, ticks);
        let ghost found = model::at_ticks(queue, ticks);
        proof {
            lemmas::first_at_is_first(queue, ticks);
            lemmas::at_ticks_of_remove(queue, i, ticks);
            assert(self.levels@.contains_key(ticks));
        }
        let mut level = self.levels.remove(&ticks).unwrap();
        level.queue.pop_front();
        if level.queue.len() > 0 {
            self.levels.insert(ticks, level);
        }
        self.queue = Ghost(queue.remove(i));
        proof {
            let shorter = queue.remove(i);
            lemmas::remove_keeps_queue_wf(side, queue, i);
            assert(model::ids(model::at_ticks(shorter, ticks)) =~= model::ids(found).subrange(
                1,
                found.len() as int,
            ));
            assert forall|t: i64| #[trigger] self.levels@.contains_key(t) <==> model::at_ticks(
                shorter,
                t,
            ).len() > 0 by {
                lemmas::at_ticks_of_remove(queue, i, t);
                assert(old(self).levels@.contains_key(t) <==> model::at_ticks(queue, t).len() > 0);
            }
            assert forall|t: i64| #[trigger]
                self.levels@.contains_key(t) implies self.levels@[t].queue@ == model::ids(
                model::at_ticks(shorter, t),
            ) by {
                lemmas::at_ticks_of_remove(queue, i, t);
                if t != ticks {
                    assert(old(self).levels@.contains_key(t));
                }
            }
        }
    }

    /// Lets an order wait at `price`, behind every order already there.
    pub fn push(&mut self, side: Side, id: OrderId, price: Price, remaining: Quantity)
        requires
            old(self).wf(side),
            !model::waits(old(self).queue@, id),
            remaining > 0,
        ensures
            price@ != 0,
            final(self).wf(side),
            final(self).queue@ == old(self).queue@.insert(
                model::place(side, old(self).queue@, price),
                (QueuedOrder { id, price, remaining }),
            ),
    {
        let ghost queue = self.queue@;
        let ghost order = QueuedOrder { id, price, remaining };
        let ticks: i64 = price.get();
        let mut level = match self.levels.remove(&ticks) {
            Some(level) => level,
            None => PriceLevel { queue: VecDeque::new() },
        };
        level.queue.push_back(id);
        self.levels.insert(ticks, level);
        self.queue = Ghost(queue.insert(model::place(side, queue, price), order));
        proof {
            let at = model::place(side, queue, price);
            let longer = queue.insert(at, order);
            lemmas::place_parts_the_queue(side, queue, price);
            lemmas::insert_keeps_queue_wf(side, queue, order);
            lemmas::at_ticks_of_insert(queue, at, order, ticks);
            assert(old(self).levels@.contains_key(ticks) <==> model::at_ticks(queue, ticks).len()
                > 0);
            assert(model::ids(model::at_ticks(longer, ticks)) =~= model::ids(
                model::at_ticks(queue, ticks),
            ).push(id));
            assert forall|t: i64| #[trigger] self.levels@.contains_key(t) <==> model::at_ticks(
                longer,
                t,
            ).len() > 0 by {
                lemmas::at_ticks_of_insert(queue, at, order, t);
                assert(old(self).levels@.contains_key(t) <==> model::at_ticks(queue, t).len() > 0);
            }
            assert forall|t: i64| #[trigger]
                self.levels@.contains_key(t) implies self.levels@[t].queue@ == model::ids(
                model::at_ticks(longer, t),
            ) by {
                lemmas::at_ticks_of_insert(queue, at, order, t);
                if t != ticks {
                    assert(old(self).levels@.contains_key(t));
                }
            }
        }
    }

    /// Takes the order named `id` out of its price level, `price`.
    pub fn remove(&mut self, side: Side, price: Price, id: OrderId)
        requires
            old(self).wf(side),
            model::waits(old(self).queue@, id),
            old(self).queue@[model::position(old(self).queue@, id)].price == price,
        ensures
            final(self).wf(side),
            final(self).queue@ == old(self).queue@.remove(
                model::position(old(self).queue@, id),
            ),
    {
        let ticks: i64 = price.get();
        let ghost queue = self.queue@;
        let ghost i = model::position(queue, id);
        let ghost found = model::at_ticks(queue, ticks);
        let ghost j = model::at_ticks(queue.take(i), ticks).len() as int;
        proof {
            lemmas::at_ticks_of_remove(queue, i, ticks);
            assert(self.levels@.contains_key(ticks));
        }
        let mut level = self.levels.remove(&ticks).unwrap();
        let mut at: usize = 0;
        while level.queue[at] != id
            invariant
                0 <= at <= j < level.queue.len(),
                level.queue@[j] == id,
            decreases j - at,
        {
            at = at + 1;
        }
        proof {
            lemmas::at_ticks_names_once(queue, side, ticks);
            assert(found[at as int].id == id);
            assert(found[j].id == id);
            assert(at == j);
        }
        level.queue.remove(at);
        if level.queue.len() > 0 {
            self.levels.insert(ticks, level);
        }
        self.queue = Ghost(queue.remove(i));
        proof {
            let shorter = queue.remove(i);
            lemmas::remove_keeps_queue_wf(side, queue, i);
            assert(model::ids(model::at_ticks(shorter, ticks)) =~= model::ids(found).remove(j));
            assert forall|t: i64| #[trigger] self.levels@.contains_key(t) <==> model::at_ticks(
                shorter,
                t,
            ).len() > 0 by {
                lemmas::at_ticks_of_remove(queue, i, t);
                assert(old(self).levels@.contains_key(t) <==> model::at_ticks(queue, t).len() > 0);
            }
            assert forall|t: i64| #[trigger]
                self.levels@.contains_key(t) implies self.levels@[t].queue@ == model::ids(
                model::at_ticks(shorter, t),
            ) by {
                lemmas::at_ticks_of_remove(queue, i, t);
                if t != ticks {
                    assert(old(self).levels@.contains_key(t));
                }
            }
        }
    }

    /// Notes that `quantity` lots were taken off the first order in line at
    /// `price`, which keeps its place.
    pub fn shrink_front(&mut self, side: Side, price: Price, quantity: Quantity)
        requires
            old(self).wf(side),
            model::at_ticks(old(self).queue@, price@).len() > 0,
            quantity < old(self).queue@[model::first_at(old(self).queue@, price@)].remaining,
        ensures
            final(self).wf(side),
            ({
                let queue = old(self).queue@;
                let i = model::first_at(queue, price@);
                final(self).queue@ == queue.update(i, model::shrunk(queue[i], quantity))
            }),
    {
        let ghost queue = self.queue@;
        let ghost i = model::first_at(queue, price@);
        let ghost order = model::shrunk(queue[i], quantity);
        self.queue = Ghost(queue.update(i, order));
        proof {
            let updated = queue.update(i, order);
            lemmas::first_at_is_first(queue, price@);
            assert forall|t: i64| #[trigger] self.levels@.contains_key(t) <==> model::at_ticks(
                updated,
                t,
            ).len() > 0 by {
                lemmas::ids_at_ticks_of_update(queue, i, order, t);
            }
            assert forall|t: i64| #[trigger]
                self.levels@.contains_key(t) implies self.levels@[t].queue@ == model::ids(
                model::at_ticks(updated, t),
            ) by {
                lemmas::ids_at_ticks_of_update(queue, i, order, t);
            }
        }
    }
}

} // verus!
