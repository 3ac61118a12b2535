//! The book as text, in the form of a structure with its fields by name, on one
//! line or over several.

use std::collections::{BTreeSet, VecDeque};

use vstd::prelude::*;

use crate::model;
use crate::model::{BookView, QueuedOrder};
use crate::side::BookSide;
use crate::sorted;
use crate::text;
use crate::types::{OrderId, Side};

verus! {

/// The identifiers `ids`, in ascending order.
pub open spec fn ascending_ids(ids: Set<OrderId>) -> Seq<int> {
    text::ascending(ids.map(|id: OrderId| id as int))
}

/// The prices `prices` in ticks, in ascending order.
pub open spec fn ascending_ticks(prices: Set<i64>) -> Seq<int> {
    text::ascending(prices.map(|t: i64| t as int))
}

/// The prices at which orders of `queue` wait, in ticks.
pub open spec fn ticks(queue: Seq<QueuedOrder>) -> Set<i64> {
    Set::new(|t: i64| model::at_ticks(queue, t).len() > 0)
}

/// The space before what stands `depth` levels deep.
pub open spec fn pad(depth: nat) -> Seq<char>
    decreases depth,
{
    if depth == 0 {
        Seq::empty()
    } else {
        pad((depth - 1) as nat) + "    "@
    }
}

/// `entries`, each on a line of its own, `depth` levels deep and with a comma
/// behind it.
pub open spec fn lines(entries: Seq<Seq<char>>, depth: nat) -> Seq<char>
    decreases entries.len(),
{
    if entries.len() == 0 {
        Seq::empty()
    } else {
        lines(entries.drop_last(), depth) + pad(depth) + entries.last() + ",\n"@
    }
}

/// `entries` between `open` and `close`, which stand `depth` levels deep: on one
/// line, or, if `pretty`, one entry to a line.
pub open spec fn group(
    open: Seq<char>,
    entries: Seq<Seq<char>>,
    close: Seq<char>,
    pretty: bool,
    depth: nat,
) -> Seq<char> {
    if pretty && entries.len() > 0 {
        open + "\n"@ + lines(entries, depth + 1) + pad(depth) + close
    } else {
        open + text::list(entries) + close
    }
}

/// A structure with its fields by name.
pub open spec fn structure(
    name: Seq<char>,
    fields: Seq<Seq<char>>,
    pretty: bool,
    depth: nat,
) -> Seq<char> {
    if pretty {
        group(name + " {"@, fields, "}"@, pretty, depth)
    } else {
        group(name + " { "@, fields, " }"@, pretty, depth)
    }
}

/// The identifiers `ids`, each as a number.
pub open spec fn numbers(ids: Seq<OrderId>) -> Seq<Seq<char>> {
    ids.map_values(|id: OrderId| text::decimal(id as nat))
}

/// The price level at `ticks` ticks, behind its price.
pub open spec fn level(queue: Seq<QueuedOrder>, ticks: i64, pretty: bool) -> Seq<char> {
    let ids = numbers(model::ids(model::at_ticks(queue, ticks)));
    text::signed(ticks as int) + ": "@ + structure(
        "PriceLevel"@,
        seq!["queue: "@ + group("["@, ids, "]"@, pretty, 3)],
        pretty,
        2,
    )
}

/// The price levels of one side, by ascending price.
pub open spec fn levels(queue: Seq<QueuedOrder>, pretty: bool) -> Seq<char> {
    group(
        "{"@,
        ascending_ticks(ticks(queue)).map_values(|t: int| level(queue, t as i64, pretty)),
        "}"@,
        pretty,
        1,
    )
}

/// The order named `id`, as the book remembers it, behind its identifier.
pub open spec fn resting_order(book: BookView, id: OrderId, pretty: bool) -> Seq<char> {
    let side = book.side_of(id)->0;
    let order = book.cancelled(side, id);
    text::decimal(id as nat) + ": "@ + structure(
        "RestingOrder"@,
        seq![
            "side: "@ + text::side(side),
            "price: "@ + text::signed(order.price@ as int),
            "remaining: "@ + text::decimal(order.quantity as nat),
        ],
        pretty,
        2,
    )
}

/// The orders that wait, by ascending identifier.
pub open spec fn resting_orders(book: BookView, pretty: bool) -> Seq<char> {
    group(
        "{"@,
        ascending_ids(Set::new(|id: OrderId| book.side_of(id) is Some)).map_values(
            |id: int| resting_order(book, id as OrderId, pretty),
        ),
        "}"@,
        pretty,
        1,
    )
}

/// The identifiers `ids`, ascending.
pub open spec fn identifiers(ids: Set<OrderId>, pretty: bool) -> Seq<char> {
    group(
        "{"@,
        ascending_ids(ids).map_values(|id: int| text::decimal(id as nat)),
        "}"@,
        pretty,
        1,
    )
}

/// Whether an observer is attached.
pub open spec fn observer(attached: bool) -> Seq<char> {
    if attached {
        "\"Attached Observer\""@
    } else {
        "\"No Observer\""@
    }
}

/// The whole book: on one line, or, if `pretty`, over several.
pub open spec fn book(book: BookView, attached: bool, pretty: bool) -> Seq<char> {
    structure(
        "OrderBook"@,
        seq![
            "observer: "@ + observer(attached),
            "bids: "@ + levels(book.bids, pretty),
            "asks: "@ + levels(book.asks, pretty),
            "resting_orders: "@ + resting_orders(book, pretty),
            "seen_order_ids: "@ + identifiers(book.seen, pretty),
        ],
        pretty,
        0,
    )
}

/// Keys in ascending order are the ascending order of their set.
pub proof fn ascending_ids_is(keys: Seq<OrderId>)
    requires
        forall|i: int, j: int| 0 <= i < j < keys.len() ==> keys[i] < keys[j],
    ensures
        ascending_ids(keys.to_set()).len() == keys.len(),
        forall|i: int|
            0 <= i < keys.len() ==> #[trigger] ascending_ids(keys.to_set())[i] == keys[i],
{
    let f = |id: OrderId| id as int;
    keys.lemma_to_set_map_commutes(f);
    text::ascending_is(keys.map_values(f));
}

/// Keys in ascending order are the ascending order of their set.
pub proof fn ascending_ticks_is(keys: Seq<i64>)
    requires
        forall|i: int, j: int| 0 <= i < j < keys.len() ==> keys[i] < keys[j],
    ensures
        ascending_ticks(keys.to_set()).len() == keys.len(),
        forall|i: int|
            0 <= i < keys.len() ==> #[trigger] ascending_ticks(keys.to_set())[i] == keys[i],
{
    let f = |t: i64| t as int;
    keys.lemma_to_set_map_commutes(f);
    text::ascending_is(keys.map_values(f));
}

/// The views of `strings`.
pub open spec fn views(strings: Seq<String>) -> Seq<Seq<char>> {
    strings.map_values(|s: String| s@)
}

/// `entries`, with a comma and a space between each two.
fn list_text(entries: &Vec<String>) -> (list: String)
    ensures
        list@ == text::list(views(entries@)),
{
    let mut list = String::new();
    let mut i: usize = 0;
    proof {
        assert(views(entries@).take(0) =~= Seq::<Seq<char>>::empty());
    }
    while i < entries.len()
        invariant
            0 <= i <= entries.len(),
            list@ == text::list(views(entries@).take(i as int)),
        decreases entries.len() - i,
    {
        proof {
            text::list_of_next(views(entries@), i as int);
        }
        if i > 0 {
            list.append(", ");
        }
        list.append(entries[i].as_str());
        proof {
            if i == 0 {
                assert(Seq::<char>::empty() + entries[0]@ =~= entries[0]@);
            }
        }
        i = i + 1;
    }
    assert(views(entries@).take(i as int) =~= views(entries@));
    list
}

/// The space before what stands `depth` levels deep.
fn pad_text(depth: u8) -> (space: String)
    ensures
        space@ == pad(depth as nat),
    decreases depth,
{
    if depth == 0 {
        let space = String::new();
        assert(space@ =~= pad(0));
        space
    } else {
        let mut space = pad_text(depth - 1);
        space.append("    ");
        space
    }
}

/// One more entry on a line of its own.
proof fn lines_of_next(entries: Seq<Seq<char>>, depth: nat, i: int)
    requires
        0 <= i < entries.len(),
    ensures
        lines(entries.take(i + 1), depth) == lines(entries.take(i), depth) + pad(depth)
            + entries[i] + ",\n"@,
{
    assert(entries.take(i + 1).drop_last() =~= entries.take(i));
}

/// `entries`, each on a line of its own.
fn lines_text(entries: &Vec<String>, depth: u8) -> (text: String)
    ensures
        text@ == lines(views(entries@), depth as nat),
{
    let space = pad_text(depth);
    let mut text = String::new();
    let mut i: usize = 0;
    proof {
        assert(views(entries@).take(0) =~= Seq::<Seq<char>>::empty());
        assert(text@ =~= lines(views(entries@).take(0), depth as nat));
    }
    while i < entries.len()
        invariant
            0 <= i <= entries.len(),
            space@ == pad(depth as nat),
            text@ == lines(views(entries@).take(i as int), depth as nat),
        decreases entries.len() - i,
    {
        proof {
            lines_of_next(views(entries@), depth as nat, i as int);
        }
        text.append(space.as_str());
        text.append(entries[i].as_str());
        text.append(",\n");
        i = i + 1;
    }
    assert(views(entries@).take(i as int) =~= views(entries@));
    text
}

/// `entries` between `open` and `close`.
pub(crate) fn group_text(
    open: &str,
    entries: &Vec<String>,
    close: &str,
    pretty: bool,
    depth: u8,
) -> (text: String)
    requires
        depth < 10,
    ensures
        text@ == group(open@, views(entries@), close@, pretty, depth as nat),
{
    let mut text = open.to_owned();
    if pretty && entries.len() > 0 {
        text.append("\n");
        text.append(lines_text(entries, depth + 1).as_str());
        text.append(pad_text(depth).as_str());
    } else {
        text.append(list_text(entries).as_str());
    }
    text.append(close);
    text
}

/// A structure with its fields by name.
pub(crate) fn structure_text(
    name: &str,
    fields: &Vec<String>,
    pretty: bool,
    depth: u8,
) -> (text: String)
    requires
        depth < 10,
    ensures
        text@ == structure(name@, views(fields@), pretty, depth as nat),
{
    let mut open = name.to_owned();
    if pretty {
        open.append(" {");
        group_text(open.as_str(), fields, "}", pretty, depth)
    } else {
        open.append(" { ");
        group_text(open.as_str(), fields, " }", pretty, depth)
    }
}

/// `value`, behind `name`.
pub(crate) fn named_text(name: &str, value: &str) -> (text: String)
    ensures
        text@ == name@ + value@,
{
    let mut text = name.to_owned();
    text.append(value);
    text
}

/// The queue of one price level.
fn queue_text(queue: &VecDeque<OrderId>, pretty: bool) -> (list: String)
    ensures
        list@ == group("["@, numbers(queue@), "]"@, pretty, 3),
{
    let mut entries: Vec<String> = Vec::new();
    let mut i: usize = 0;
    while i < queue.len()
        invariant
            0 <= i <= queue.len(),
            entries@.len() == i,
            forall|j: int| 0 <= j < i ==> (#[trigger] entries@[j])@ == numbers(queue@)[j],
        decreases queue.len() - i,
    {
        entries.push(text::number_text(queue[i]));
        i = i + 1;
    }
    assert(views(entries@) =~= numbers(queue@));
    group_text("[", &entries, "]", pretty, 3)
}

/// The level of `side` at `key` ticks, behind its price.
fn level_text(stored: &BookSide, side: Side, key: i64, pretty: bool) -> (text: String)
    requires
        stored.wf(side),
        stored.levels@.contains_key(key),
    ensures
        text@ == level(stored.queue@, key, pretty),
{
    let queue = queue_text(&stored.levels.get(&key).unwrap().queue, pretty);
    let mut fields: Vec<String> = Vec::new();
    fields.push(named_text("queue: ", queue.as_str()));
    let mut text = text::signed_text(key);
    text.append(": ");
    text.append(structure_text("PriceLevel", &fields, pretty, 2).as_str());
    proof {
        let ids = numbers(model::ids(model::at_ticks(stored.queue@, key)));
        assert(views(fields@) =~= seq!["queue: "@ + group("["@, ids, "]"@, pretty, 3)]);
    }
    text
}

/// The price levels of one side, by ascending price.
pub(crate) fn levels_text(stored: &BookSide, side: Side, pretty: bool) -> (levels_text: String)
    requires
        stored.wf(side),
    ensures
        levels_text@ == levels(stored.queue@, pretty),
{
    let ghost queue = stored.queue@;
    let keys = sorted::prices(&stored.levels);
    let ghost ascending = ascending_ticks(ticks(queue));
    let ghost texts = ascending.map_values(|t: int| level(queue, t as i64, pretty));
    proof {
        assert(keys@.to_set() =~= ticks(queue));
        ascending_ticks_is(keys@);
    }
    let mut entries: Vec<String> = Vec::new();
    let mut i: usize = 0;
    while i < keys.len()
        invariant
            0 <= i <= keys.len(),
            stored.wf(side),
            queue == stored.queue@,
            keys@.to_set() == stored.levels@.dom(),
            ascending.len() == keys@.len(),
            forall|j: int| 0 <= j < keys@.len() ==> #[trigger] ascending[j] == keys@[j],
            texts == ascending.map_values(|t: int| level(queue, t as i64, pretty)),
            entries@.len() == i,
            forall|j: int| 0 <= j < i ==> (#[trigger] entries@[j])@ == texts[j],
        decreases keys.len() - i,
    {
        let key: i64 = keys[i];
        assert(keys@.to_set().contains(keys@[i as int]));
        assert(stored.levels@.contains_key(key));
        assert(ascending[i as int] == key);
        entries.push(level_text(stored, side, key, pretty));
        i = i + 1;
    }
    assert(views(entries@) =~= texts);
    group_text("{", &entries, "}", pretty, 1)
}

/// The identifiers `ids`, ascending.
pub(crate) fn identifiers_text(ids: &BTreeSet<OrderId>, pretty: bool) -> (text: String)
    ensures
        text@ == identifiers(ids@, pretty),
{
    let keys = sorted::elements(ids);
    let ghost ascending = ascending_ids(ids@);
    let ghost texts = ascending.map_values(|id: int| text::decimal(id as nat));
    proof {
        ascending_ids_is(keys@);
    }
    let mut entries: Vec<String> = Vec::new();
    let mut i: usize = 0;
    while i < keys.len()
        invariant
            0 <= i <= keys.len(),
            ascending.len() == keys@.len(),
            forall|j: int| 0 <= j < keys@.len() ==> #[trigger] ascending[j] == keys@[j],
            texts == ascending.map_values(|id: int| text::decimal(id as nat)),
            entries@.len() == i,
            forall|j: int| 0 <= j < i ==> (#[trigger] entries@[j])@ == texts[j],
        decreases keys.len() - i,
    {
        assert(ascending[i as int] == keys@[i as int]);
        entries.push(text::number_text(keys[i]));
        i = i + 1;
    }
    assert(views(entries@) =~= texts);
    group_text("{", &entries, "}", pretty, 1)
}

} // verus!
