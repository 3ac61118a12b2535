//! Numbers, lists, orders and events as text.

use vstd::prelude::*;

use crate::observe::Event;
use crate::types::{CancelledOrder, Level, LimitOrder, Price, Side, Trade};

verus! {

/// The digit `d`.
pub open spec fn digit(d: u8) -> Seq<char> {
    match d {
        0 => "0"@,
        1 => "1"@,
        2 => "2"@,
        3 => "3"@,
        4 => "4"@,
        5 => "5"@,
        6 => "6"@,
        7 => "7"@,
        8 => "8"@,
        _ => "9"@,
    }
}

/// The decimal digits of `n`, without leading zeros.
pub open spec fn decimal(n: nat) -> Seq<char>
    decreases n,
{
    if n < 10 {
        digit(n as u8)
    } else {
        decimal(n / 10) + digit((n % 10) as u8)
    }
}

/// The decimal digits of `n`, behind a minus sign if it is negative.
pub open spec fn signed(n: int) -> Seq<char> {
    if n < 0 {
        "-"@ + decimal((-n) as nat)
    } else {
        decimal(n as nat)
    }
}

/// `entries`, with a comma and a space between each two.
pub open spec fn list(entries: Seq<Seq<char>>) -> Seq<char>
    decreases entries.len(),
{
    if entries.len() == 0 {
        Seq::empty()
    } else if entries.len() == 1 {
        entries[0]
    } else {
        list(entries.drop_last()) + ", "@ + entries.last()
    }
}

/// The elements of `set` in ascending order.
pub open spec fn ascending(set: Set<int>) -> Seq<int> {
    choose|s: Seq<int>| is_ascending(s) && #[trigger] s.to_set() == set
}

/// Whether each element of `s` is smaller than those behind it.
pub open spec fn is_ascending(s: Seq<int>) -> bool {
    forall|i: int, j: int| 0 <= i < j < s.len() ==> s[i] < s[j]
}

/// A set has only one ascending order.
pub proof fn ascending_is(s: Seq<int>)
    requires
        is_ascending(s),
    ensures
        ascending(s.to_set()) == s,
{
    let t = ascending(s.to_set());
    assert(is_ascending(t) && t.to_set() == s.to_set());
    same_ascending(s, t);
}

proof fn same_ascending(s: Seq<int>, t: Seq<int>)
    requires
        is_ascending(s),
        is_ascending(t),
        s.to_set() == t.to_set(),
    ensures
        s == t,
    decreases s.len(),
{
    s.unique_seq_to_set();
    t.unique_seq_to_set();
    if s.len() > 0 {
        let n = s.len() - 1;
        assert(s.to_set().contains(s[n]));
        assert(t.to_set().contains(t[n]));
        assert(t.contains(s[n]));
        assert(s.contains(t[n]));
        assert(s[n] == t[n]);
        assert forall|x: int| s.drop_last().to_set().contains(x)
            <==> t.drop_last().to_set().contains(x) by {
            if s.drop_last().contains(x) {
                let i = choose|i: int| 0 <= i < n && s[i] == x;
                assert(s.drop_last()[i] == x);
                assert(s.to_set().contains(x));
                assert(t.contains(x));
                let j = choose|j: int| 0 <= j < t.len() && t[j] == x;
                assert(t.drop_last()[j] == x);
            }
            if t.drop_last().contains(x) {
                let i = choose|i: int| 0 <= i < n && t[i] == x;
                assert(t.to_set().contains(x));
                assert(s.contains(x));
                let j = choose|j: int| 0 <= j < s.len() && s[j] == x;
                assert(s.drop_last()[j] == x);
            }
        }
        assert(s.drop_last().to_set() =~= t.drop_last().to_set());
        same_ascending(s.drop_last(), t.drop_last());
        assert(s =~= s.drop_last().push(s[n]));
        assert(t =~= t.drop_last().push(t[n]));
    } else {
        assert(s =~= t);
    }
}

/// One more entry in a list.
pub proof fn list_of_next(entries: Seq<Seq<char>>, i: int)
    requires
        0 <= i < entries.len(),
    ensures
        list(entries.take(i + 1)) == if i == 0 {
            entries[0]
        } else {
            list(entries.take(i)) + ", "@ + entries[i]
        },
{
    assert(entries.take(i + 1).drop_last() =~= entries.take(i));
}

fn digit_text(d: u8) -> (text: &'static str)
    requires
        d < 10,
    ensures
        text@ == digit(d),
{
    match d {
        0 => "0",
        1 => "1",
        2 => "2",
        3 => "3",
        4 => "4",
        5 => "5",
        6 => "6",
        7 => "7",
        8 => "8",
        _ => "9",
    }
}

/// The decimal digits of `n`.
pub fn decimal_text(n: u128) -> (text: String)
    ensures
        text@ == decimal(n as nat),
    decreases n,
{
    let last = digit_text((n % 10) as u8);
    if n < 10 {
        last.to_owned()
    } else {
        let mut text = decimal_text(n / 10);
        text.append(last);
        text
    }
}

/// The decimal digits of `n`, behind a minus sign if it is negative.
pub fn signed_text(n: i64) -> (text: String)
    ensures
        text@ == signed(n as int),
{
    if n < 0 {
        let mut text = "-".to_owned();
        text.append(decimal_text((-(n as i128)) as u128).as_str());
        text
    } else {
        decimal_text(n as u128)
    }
}

/// A side by its name.
pub open spec fn side(side: Side) -> Seq<char> {
    match side {
        Side::Buy => "Buy"@,
        Side::Sell => "Sell"@,
    }
}

/// A limit order with its fields by name.
pub open spec fn limit_order(order: LimitOrder) -> Seq<char> {
    "LimitOrder { id: "@ + decimal(order.id as nat) + ", side: "@ + side(order.side)
        + ", price: "@ + signed(order.price@ as int) + ", quantity: "@ + decimal(
        order.quantity as nat,
    ) + " }"@
}

/// A trade with its fields by name.
pub open spec fn trade(trade: Trade) -> Seq<char> {
    "Trade { maker_id: "@ + decimal(trade.maker_id as nat) + ", taker_id: "@ + decimal(
        trade.taker_id as nat,
    ) + ", price: "@ + signed(trade.price@ as int) + ", quantity: "@ + decimal(
        trade.quantity as nat,
    ) + " }"@
}

/// A price level with its fields by name.
pub open spec fn level(level: Level) -> Seq<char> {
    "Level { price: "@ + signed(level.price@ as int) + ", quantity: "@ + decimal(
        level.quantity as nat,
    ) + ", order_count: "@ + decimal(level.order_count as nat) + " }"@
}

/// A cancelled order with its fields by name.
pub open spec fn cancelled_order(order: CancelledOrder) -> Seq<char> {
    "CancelledOrder { id: "@ + decimal(order.id as nat) + ", side: "@ + side(order.side)
        + ", price: "@ + signed(order.price@ as int) + ", quantity: "@ + decimal(
        order.quantity as nat,
    ) + " }"@
}

/// A price that may be missing.
pub open spec fn optional_price(price: Option<Price>) -> Seq<char> {
    match price {
        Some(p) => "Some("@ + signed(p@ as int) + ")"@,
        None => "None"@,
    }
}

/// A quantity that may be missing.
pub open spec fn optional_quantity(quantity: Option<u64>) -> Seq<char> {
    match quantity {
        Some(q) => "Some("@ + decimal(q as nat) + ")"@,
        None => "None"@,
    }
}

/// An event by its name, with what it carries.
pub open spec fn event(event: Event) -> Seq<char> {
    match event {
        Event::New(order) => "New("@ + limit_order(order) + ")"@,
        Event::Trade(t) => "Trade("@ + trade(t) + ")"@,
        Event::Cancel { order_id } => "Cancel { order_id: "@ + decimal(order_id as nat) + " }"@,
        Event::Amend { order_id, new_price, new_quantity } => "Amend { order_id: "@ + decimal(
            order_id as nat,
        ) + ", new_price: "@ + optional_price(new_price) + ", new_quantity: "@
            + optional_quantity(new_quantity) + " }"@,
    }
}

/// A side by its name.
pub fn side_text(s: Side) -> (text: &'static str)
    ensures
        text@ == side(s),
{
    match s {
        Side::Buy => "Buy",
        Side::Sell => "Sell",
    }
}

/// A price in ticks.
pub fn price_text(price: Price) -> (text: String)
    ensures
        text@ == signed(price@ as int),
{
    signed_text(price.get())
}

/// A quantity or an identifier.
pub fn number_text(n: u64) -> (text: String)
    ensures
        text@ == decimal(n as nat),
{
    decimal_text(n as u128)
}

/// A limit order with its fields by name.
pub fn limit_order_text(order: LimitOrder) -> (text: String)
    ensures
        text@ == limit_order(order),
{
    let mut text = "LimitOrder { id: ".to_owned();
    text.append(number_text(order.id).as_str());
    text.append(", side: ");
    text.append(side_text(order.side));
    text.append(", price: ");
    text.append(price_text(order.price).as_str());
    text.append(", quantity: ");
    text.append(number_text(order.quantity).as_str());
    text.append(" }");
    text
}

/// A trade with its fields by name.
pub fn trade_text(t: Trade) -> (text: String)
    ensures
        text@ == trade(t),
{
    let mut text = "Trade { maker_id: ".to_owned();
    text.append(number_text(t.maker_id).as_str());
    text.append(", taker_id: ");
    text.append(number_text(t.taker_id).as_str());
    text.append(", price: ");
    text.append(price_text(t.price).as_str());
    text.append(", quantity: ");
    text.append(number_text(t.quantity).as_str());
    text.append(" }");
    text
}

/// A price level with its fields by name.
pub fn level_text(l: Level) -> (text: String)
    ensures
        text@ == level(l),
{
    let mut text = "Level { price: ".to_owned();
    text.append(price_text(l.price).as_str());
    text.append(", quantity: ");
    text.append(number_text(l.quantity).as_str());
    text.append(", order_count: ");
    text.append(decimal_text(l.order_count as u128).as_str());
    text.append(" }");
    text
}

/// A cancelled order with its fields by name.
pub fn cancelled_order_text(order: CancelledOrder) -> (text: String)
    ensures
        text@ == cancelled_order(order),
{
    let mut text = "CancelledOrder { id: ".to_owned();
    text.append(number_text(order.id).as_str());
    text.append(", side: ");
    text.append(side_text(order.side));
    text.append(", price: ");
    text.append(price_text(order.price).as_str());
    text.append(", quantity: ");
    text.append(number_text(order.quantity).as_str());
    text.append(" }");
    text
}

fn optional_price_text(price: Option<Price>) -> (text: String)
    ensures
        text@ == optional_price(price),
{
    match price {
        Some(p) => {
            let mut text = "Some(".to_owned();
            text.append(price_text(p).as_str());
            text.append(")");
            text
        },
        None => "None".to_owned(),
    }
}

fn optional_quantity_text(quantity: Option<u64>) -> (text: String)
    ensures
        text@ == optional_quantity(quantity),
{
    match quantity {
        Some(q) => {
            let mut text = "Some(".to_owned();
            text.append(number_text(q).as_str());
            text.append(")");
            text
        },
        None => "None".to_owned(),
    }
}

/// An event by its name, with what it carries.
pub fn event_text(e: Event) -> (text: String)
    ensures
        text@ == event(e),
{
    match e {
        Event::New(order) => {
            let mut text = "New(".to_owned();
            text.append(limit_order_text(order).as_str());
            text.append(")");
            text
        },
        Event::Trade(t) => {
            let mut text = "Trade(".to_owned();
            text.append(trade_text(t).as_str());
            text.append(")");
            text
        },
        Event::Cancel { order_id } => {
            let mut text = "Cancel { order_id: ".to_owned();
            text.append(number_text(order_id).as_str());
            text.append(" }");
            text
        },
        Event::Amend { order_id, new_price, new_quantity } => {
            let mut text = "Amend { order_id: ".to_owned();
            text.append(number_text(order_id).as_str());
            text.append(", new_price: ");
            text.append(optional_price_text(new_price).as_str());
            text.append(", new_quantity: ");
            text.append(optional_quantity_text(new_quantity).as_str());
            text.append(" }");
            text
        },
    }
}

} // verus!
