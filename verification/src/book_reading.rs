//! What can be read back from the text of a book: the book.

use vstd::prelude::*;

use crate::debug;
use crate::lemmas;
use crate::model;
use crate::model::{BookView, QueuedOrder};
use crate::reading;
use crate::text;
use crate::types::{OrderId, Side};

verus! {

/// `entries`, with `sep` between each two.
spec fn joined(entries: Seq<Seq<char>>, sep: Seq<char>) -> Seq<char>
    decreases entries.len(),
{
    if entries.len() == 0 {
        Seq::empty()
    } else if entries.len() == 1 {
        entries[0]
    } else {
        entries[0] + (sep + joined(entries.drop_first(), sep))
    }
}

/// One more entry at the end.
proof fn joined_at_the_end(entries: Seq<Seq<char>>, sep: Seq<char>)
    requires
        entries.len() > 1,
    ensures
        joined(entries, sep) == joined(entries.drop_last(), sep) + sep + entries.last(),
    decreases entries.len(),
{
    let behind = entries.drop_first();
    if entries.len() == 2 {
        assert(joined(behind, sep) == entries[1]);
        assert(joined(entries.drop_last(), sep) == entries[0]);
        assert(entries[0] + (sep + entries[1]) =~= entries[0] + sep + entries[1]);
    } else {
        joined_at_the_end(behind, sep);
        let middle = joined(behind.drop_last(), sep);
        assert(entries.drop_last().drop_first() =~= behind.drop_last());
        assert(entries[0] + (sep + (middle + sep + entries.last())) =~= entries[0] + (sep + middle)
            + sep + entries.last());
    }
}

/// Entries on one line are joined by a comma and a space.
proof fn list_is_joined(entries: Seq<Seq<char>>)
    ensures
        text::list(entries) == joined(entries, ", "@),
    decreases entries.len(),
{
    if entries.len() > 1 {
        list_is_joined(entries.drop_last());
        joined_at_the_end(entries, ", "@);
    }
}

/// What stands between two entries.
spec fn between(pretty: bool, depth: nat) -> Seq<char> {
    if pretty {
        ",\n"@ + debug::pad(depth + 1)
    } else {
        ", "@
    }
}

/// Entries on lines of their own are joined by a comma and the start of the next
/// line.
proof fn lines_are_joined(entries: Seq<Seq<char>>, depth: nat)
    requires
        entries.len() > 0,
    ensures
        debug::lines(entries, depth + 1) == debug::pad(depth + 1) + joined(
            entries,
            between(true, depth),
        ) + ",\n"@,
    decreases entries.len(),
{
    let space = debug::pad(depth + 1);
    let sep = between(true, depth);
    if entries.len() == 1 {
        assert(debug::lines(entries.drop_last(), depth + 1) =~= Seq::<char>::empty());
        assert(Seq::<char>::empty() + space + entries[0] + ",\n"@ =~= space + entries[0] + ",\n"@);
    } else {
        lines_are_joined(entries.drop_last(), depth);
        joined_at_the_end(entries, sep);
        let before = joined(entries.drop_last(), sep);
        assert((space + before + ",\n"@) + space + entries.last() + ",\n"@ =~= space + (before + (
        ",\n"@ + space) + entries.last()) + ",\n"@);
    }
}

/// What stands before the first entry.
spec fn opening(open: Seq<char>, pretty: bool, depth: nat) -> Seq<char> {
    if pretty {
        open + "\n"@ + debug::pad(depth + 1)
    } else {
        open
    }
}

/// What stands behind the last entry.
spec fn closing(close: Seq<char>, pretty: bool, depth: nat) -> Seq<char> {
    if pretty {
        ",\n"@ + debug::pad(depth) + close
    } else {
        close
    }
}

/// A group of entries, piece by piece.
proof fn group_pieces(
    open: Seq<char>,
    entries: Seq<Seq<char>>,
    close: Seq<char>,
    pretty: bool,
    depth: nat,
    r: Seq<char>,
)
    requires
        entries.len() > 0,
    ensures
        debug::group(open, entries, close, pretty, depth) + r == opening(open, pretty, depth) + (
        joined(entries, between(pretty, depth)) + (closing(close, pretty, depth) + r)),
{
    let inner = joined(entries, between(pretty, depth));
    if pretty {
        lines_are_joined(entries, depth);
        let space = debug::pad(depth + 1);
        let end = debug::pad(depth);
        assert((open + "\n"@ + (space + inner + ",\n"@) + end + close) + r =~= (open + "\n"@
            + space) + (inner + ((",\n"@ + end + close) + r)));
    } else {
        list_is_joined(entries);
        assert((open + inner + close) + r =~= open + (inner + (close + r)));
    }
}

/// Whether the texts that `write` gives can be told apart, and where they end,
/// if no digit follows.
spec fn told_apart<T>(write: spec_fn(T) -> Seq<char>) -> bool {
    forall|x: T, y: T, r: Seq<char>, s: Seq<char>|
        #![trigger write(x) + r, write(y) + s]
        reading::stops(r) && reading::stops(s) && write(x) + r == write(y) + s ==> x == y && r == s
}

/// Whether the texts that `write` gives start with a number.
spec fn start_with_numbers<T>(write: spec_fn(T) -> Seq<char>) -> bool {
    forall|x: T|
        (#[trigger] write(x)).len() > 0 && (reading::is_digit(write(x)[0]) || write(x)[0] == '-')
}

/// Whether nothing starts with both `a` and `b`.
spec fn differ(a: Seq<char>, b: Seq<char>) -> bool {
    exists|i: int| 0 <= i < a.len() && i < b.len() && #[trigger] a[i] != b[i]
}

/// Joined texts can be told apart if the texts can.
proof fn joined_end<T>(
    xs: Seq<T>,
    ys: Seq<T>,
    write: spec_fn(T) -> Seq<char>,
    sep: Seq<char>,
    close: Seq<char>,
    r: Seq<char>,
    s: Seq<char>,
)
    requires
        told_apart(write),
        reading::stops(sep),
        reading::stops(close),
        differ(sep, close),
        xs.len() > 0,
        ys.len() > 0,
        joined(xs.map_values(write), sep) + (close + r) == joined(ys.map_values(write), sep) + (
        close + s),
    ensures
        xs == ys,
        r == s,
    decreases xs.len(),
{
    let tx = xs.map_values(write);
    let ty = ys.map_values(write);
    let rest_x = if xs.len() == 1 {
        close + r
    } else {
        sep + (joined(tx.drop_first(), sep) + (close + r))
    };
    let rest_y = if ys.len() == 1 {
        close + s
    } else {
        sep + (joined(ty.drop_first(), sep) + (close + s))
    };
    assert(joined(tx, sep) + (close + r) =~= write(xs[0]) + rest_x);
    assert(joined(ty, sep) + (close + s) =~= write(ys[0]) + rest_y);
    assert(reading::stops(rest_x));
    assert(reading::stops(rest_y));
    assert(xs[0] == ys[0] && rest_x == rest_y);
    let i = choose|i: int| 0 <= i < sep.len() && i < close.len() && #[trigger] sep[i] != close[i];
    assert(rest_x[i] == if xs.len() == 1 {
        close[i]
    } else {
        sep[i]
    });
    assert(rest_y[i] == if ys.len() == 1 {
        close[i]
    } else {
        sep[i]
    });
    if xs.len() == 1 {
        reading::after_the_same(close, r, s);
        assert(xs =~= ys);
    } else {
        let bx = xs.drop_first();
        let by = ys.drop_first();
        assert(tx.drop_first() =~= bx.map_values(write));
        assert(ty.drop_first() =~= by.map_values(write));
        reading::after_the_same(
            sep,
            joined(tx.drop_first(), sep) + (close + r),
            joined(ty.drop_first(), sep) + (close + s),
        );
        joined_end(bx, by, write, sep, close, r, s);
        assert(xs =~= seq![xs[0]] + bx);
        assert(ys =~= seq![ys[0]] + by);
    }
}

/// Indentation is made of spaces, four to a level.
pub proof fn padding(depth: nat)
    ensures
        debug::pad(depth).len() == 4 * depth,
        forall|i: int| 0 <= i < debug::pad(depth).len() ==> #[trigger] debug::pad(depth)[i] == ' ',
    decreases depth,
{
    reveal_strlit("    ");
    if depth > 0 {
        padding((depth - 1) as nat);
    }
}

/// What stands between entries and what stands behind the last are told apart.
proof fn ends_are_seen(close: Seq<char>, pretty: bool, depth: nat)
    requires
        close.len() > 0,
        !reading::is_digit(close[0]),
        close[0] != ' ',
        close[0] != ',',
    ensures
        reading::stops(between(pretty, depth)),
        reading::stops(closing(close, pretty, depth)),
        differ(between(pretty, depth), closing(close, pretty, depth)),
{
    reveal_strlit(", ");
    reveal_strlit(",\n");
    padding(depth);
    padding(depth + 1);
    let a = between(pretty, depth);
    let b = closing(close, pretty, depth);
    if pretty {
        let i = 2 + 4 * depth as int;
        assert(a[i] == ' ');
        assert(b[i] == close[0]);
        assert(a[i] != b[i]);
    } else {
        assert(a[0] != b[0]);
    }
}

/// Groups can be told apart if their entries can.
proof fn groups_end<T>(
    open: Seq<char>,
    xs: Seq<T>,
    ys: Seq<T>,
    write: spec_fn(T) -> Seq<char>,
    close: Seq<char>,
    pretty: bool,
    depth: nat,
    r: Seq<char>,
    s: Seq<char>,
)
    requires
        told_apart(write),
        start_with_numbers(write),
        close.len() > 0,
        !reading::is_digit(close[0]),
        close[0] != ' ',
        close[0] != ',',
        close[0] != '\n',
        close[0] != '-',
        debug::group(open, xs.map_values(write), close, pretty, depth) + r == debug::group(
            open,
            ys.map_values(write),
            close,
            pretty,
            depth,
        ) + s,
    ensures
        xs == ys,
        r == s,
{
    let sep = between(pretty, depth);
    let end = closing(close, pretty, depth);
    ends_are_seen(close, pretty, depth);
    reveal_strlit("\n");
    group_or_nothing(open, xs, write, close, pretty, depth, r);
    group_or_nothing(open, ys, write, close, pretty, depth, s);
    if xs.len() == 0 && ys.len() == 0 {
        reading::after_the_same(open, close + r, close + s);
        reading::after_the_same(close, r, s);
        assert(xs =~= ys);
    } else if xs.len() > 0 && ys.len() > 0 {
        reading::after_the_same(
            opening(open, pretty, depth),
            joined(xs.map_values(write), sep) + (end + r),
            joined(ys.map_values(write), sep) + (end + s),
        );
        joined_end(xs, ys, write, sep, end, r, s);
    } else {
        let n = open.len() as int;
        let u = debug::group(open, xs.map_values(write), close, pretty, depth) + r;
        let v = debug::group(open, ys.map_values(write), close, pretty, depth) + s;
        assert(u[n] == v[n]);
        assert(xs.len() == 0 ==> u[n] == close[0]);
        assert(ys.len() == 0 ==> v[n] == close[0]);
    }
}

/// A group with entries starts its first line, or its first entry, where one
/// without has its end.
proof fn group_or_nothing<T>(
    open: Seq<char>,
    xs: Seq<T>,
    write: spec_fn(T) -> Seq<char>,
    close: Seq<char>,
    pretty: bool,
    depth: nat,
    r: Seq<char>,
)
    requires
        start_with_numbers(write),
        close.len() > 0,
    ensures
        ({
            let whole = debug::group(open, xs.map_values(write), close, pretty, depth) + r;
            let n = open.len() as int;
            if xs.len() == 0 {
                whole == open + (close + r)
            } else {
                &&& whole == opening(open, pretty, depth) + (joined(
                    xs.map_values(write),
                    between(pretty, depth),
                ) + (closing(close, pretty, depth) + r))
                &&& pretty ==> whole[n] == '\n'
                &&& !pretty ==> reading::is_digit(whole[n]) || whole[n] == '-'
            }
        }),
{
    let entries = xs.map_values(write);
    let whole = debug::group(open, entries, close, pretty, depth) + r;
    let n = open.len() as int;
    reveal_strlit("\n");
    if xs.len() == 0 {
        assert(entries =~= Seq::<Seq<char>>::empty());
        assert(whole =~= open + (close + r));
    } else {
        group_pieces(open, entries, close, pretty, depth, r);
        let inner = joined(entries, between(pretty, depth));
        assert(entries[0] == write(xs[0]));
        assert(inner.len() > 0 && inner[0] == write(xs[0])[0]);
        if pretty {
            assert(opening(open, pretty, depth)[n] == '\n');
        } else {
            assert(whole[n] == inner[0]);
        }
    }
}

/// The way an identifier is written.
spec fn id_writer() -> spec_fn(OrderId) -> Seq<char> {
    |id: OrderId| text::decimal(id as nat)
}

/// Identifiers can be told apart.
proof fn ids_are_told_apart()
    ensures
        told_apart(id_writer()),
        start_with_numbers(id_writer()),
{
    let write = id_writer();
    assert forall|x: OrderId, y: OrderId, r: Seq<char>, s: Seq<char>|
        #![trigger write(x) + r, write(y) + s]
        reading::stops(r) && reading::stops(s) && write(x) + r == write(y) + s implies x == y && r
        == s by {
        reading::numbers_end(x as nat, r, y as nat, s);
    }
    assert forall|x: OrderId|
        (#[trigger] write(x)).len() > 0 && (reading::is_digit(write(x)[0]) || write(x)[0]
            == '-') by {
        reading::numbers_read_back(x as nat);
    }
}

/// A structure's text, piece by piece.
proof fn structure_pieces(
    name: Seq<char>,
    fields: Seq<Seq<char>>,
    pretty: bool,
    depth: nat,
    r: Seq<char>,
)
    requires
        fields.len() > 0,
    ensures
        debug::structure(name, fields, pretty, depth) + r == structure_opening(
            name,
            pretty,
            depth,
        ) + (joined(fields, between(pretty, depth)) + (structure_closing(pretty, depth) + r)),
{
    if pretty {
        group_pieces(name + " {"@, fields, "}"@, pretty, depth, r);
    } else {
        group_pieces(name + " { "@, fields, " }"@, pretty, depth, r);
    }
}

/// What stands before a structure's first field.
spec fn structure_opening(name: Seq<char>, pretty: bool, depth: nat) -> Seq<char> {
    if pretty {
        opening(name + " {"@, pretty, depth)
    } else {
        opening(name + " { "@, pretty, depth)
    }
}

/// What stands behind a structure's last field.
spec fn structure_closing(pretty: bool, depth: nat) -> Seq<char> {
    if pretty {
        closing("}"@, pretty, depth)
    } else {
        closing(" }"@, pretty, depth)
    }
}

/// No digit stands behind a structure's fields.
proof fn structure_stops(pretty: bool, depth: nat)
    ensures
        reading::stops(between(pretty, depth)),
        reading::stops(structure_closing(pretty, depth)),
{
    reveal_strlit(", ");
    reveal_strlit(",\n");
    reveal_strlit(" }");
    reveal_strlit("}");
}

/// A price level by its ticks and the identifiers that wait at it.
spec fn level_of(item: (int, Seq<OrderId>), pretty: bool) -> Seq<char> {
    text::signed(item.0) + ": "@ + debug::structure(
        "PriceLevel"@,
        seq!["queue: "@ + debug::group("["@, debug::numbers(item.1), "]"@, pretty, 3)],
        pretty,
        2,
    )
}

/// The way a price level is written.
spec fn level_writer(pretty: bool) -> spec_fn((int, Seq<OrderId>)) -> Seq<char> {
    |item: (int, Seq<OrderId>)| level_of(item, pretty)
}

/// A level's text, piece by piece.
proof fn level_pieces(item: (int, Seq<OrderId>), pretty: bool, r: Seq<char>)
    ensures
        level_of(item, pretty) + r == text::signed(item.0) + (": "@ + (structure_opening(
            "PriceLevel"@,
            pretty,
            2,
        ) + ("queue: "@ + (debug::group("["@, item.1.map_values(id_writer()), "]"@, pretty, 3) + (
        structure_closing(pretty, 2) + r))))),
{
    let ids = debug::group("["@, debug::numbers(item.1), "]"@, pretty, 3);
    let field = "queue: "@ + ids;
    let inner = debug::structure("PriceLevel"@, seq![field], pretty, 2);
    let front = structure_opening("PriceLevel"@, pretty, 2);
    let back = structure_closing(pretty, 2) + r;
    structure_pieces("PriceLevel"@, seq![field], pretty, 2, r);
    assert(debug::numbers(item.1) =~= item.1.map_values(id_writer()));
    assert(joined(seq![field], between(pretty, 2)) == field);
    assert((text::signed(item.0) + ": "@ + inner) + r =~= text::signed(item.0) + (": "@ + (inner
        + r)));
    assert(front + (field + back) =~= front + ("queue: "@ + (ids + back)));
}

/// Levels can be told apart.
proof fn levels_are_told_apart(pretty: bool)
    ensures
        told_apart(level_writer(pretty)),
        start_with_numbers(level_writer(pretty)),
{
    let write = level_writer(pretty);
    reveal_strlit(": ");
    reveal_strlit("]");
    assert forall|x: (int, Seq<OrderId>), y: (int, Seq<OrderId>), r: Seq<char>, s: Seq<char>|
        #![trigger write(x) + r, write(y) + s]
        reading::stops(r) && reading::stops(s) && write(x) + r == write(y) + s implies x == y && r
        == s by {
        level_pieces(x, pretty, r);
        level_pieces(y, pretty, s);
        let front = structure_opening("PriceLevel"@, pretty, 2);
        let end = structure_closing(pretty, 2);
        let gx = debug::group("["@, x.1.map_values(id_writer()), "]"@, pretty, 3) + (end + r);
        let gy = debug::group("["@, y.1.map_values(id_writer()), "]"@, pretty, 3) + (end + s);
        let bx = front + ("queue: "@ + gx);
        let by = front + ("queue: "@ + gy);
        reading::signed_numbers_end(x.0, ": "@ + bx, y.0, ": "@ + by);
        reading::after_the_same(": "@, bx, by);
        reading::after_the_same(front, "queue: "@ + gx, "queue: "@ + gy);
        reading::after_the_same("queue: "@, gx, gy);
        ids_are_told_apart();
        groups_end("["@, x.1, y.1, id_writer(), "]"@, pretty, 3, end + r, end + s);
        reading::after_the_same(end, r, s);
    }
    assert forall|x: (int, Seq<OrderId>)|
        (#[trigger] write(x)).len() > 0 && (reading::is_digit(write(x)[0]) || write(x)[0]
            == '-') by {
        reading::signed_numbers_read_back(x.0);
        assert(write(x)[0] == text::signed(x.0)[0]);
    }
}

/// An order that waits, as it is written: its identifier, side, price and
/// quantity.
spec fn resting_of(item: (OrderId, Side, int, nat), pretty: bool) -> Seq<char> {
    text::decimal(item.0 as nat) + ": "@ + debug::structure(
        "RestingOrder"@,
        seq![
            "side: "@ + text::side(item.1),
            "price: "@ + text::signed(item.2),
            "remaining: "@ + text::decimal(item.3),
        ],
        pretty,
        2,
    )
}

/// The way an order that waits is written.
spec fn resting_writer(pretty: bool) -> spec_fn((OrderId, Side, int, nat)) -> Seq<char> {
    |item: (OrderId, Side, int, nat)| resting_of(item, pretty)
}

/// The text of an order that waits, piece by piece.
proof fn resting_pieces(item: (OrderId, Side, int, nat), pretty: bool, r: Seq<char>)
    ensures
        resting_of(item, pretty) + r == text::decimal(item.0 as nat) + (": "@ + (structure_opening(
            "RestingOrder"@,
            pretty,
            2,
        ) + ("side: "@ + (text::side(item.1) + (between(pretty, 2) + ("price: "@ + (text::signed(
            item.2,
        ) + (between(pretty, 2) + ("remaining: "@ + (text::decimal(item.3) + (structure_closing(
            pretty,
            2,
        ) + r))))))))))),
{
    let sep = between(pretty, 2);
    let f0 = "side: "@ + text::side(item.1);
    let f1 = "price: "@ + text::signed(item.2);
    let f2 = "remaining: "@ + text::decimal(item.3);
    let fields = seq![f0, f1, f2];
    let inner = debug::structure("RestingOrder"@, fields, pretty, 2);
    let front = structure_opening("RestingOrder"@, pretty, 2);
    let back = structure_closing(pretty, 2) + r;
    structure_pieces("RestingOrder"@, fields, pretty, 2, r);
    assert(fields.drop_first() =~= seq![f1, f2]);
    assert(fields.drop_first().drop_first() =~= seq![f2]);
    assert(joined(seq![f2], sep) == f2);
    assert(joined(seq![f1, f2], sep) == f1 + (sep + f2));
    assert(joined(fields, sep) == f0 + (sep + (f1 + (sep + f2))));
    let id = text::decimal(item.0 as nat);
    pieces(id, ": "@, inner);
    pieces(id, ": "@ + inner, r);
    pieces(": "@, inner, r);
    let two = sep + f2;
    let three = sep + (f1 + two);
    let side = text::side(item.1);
    let price = text::signed(item.2);
    let quantity = text::decimal(item.3);
    pieces(f0, three, back);
    pieces(sep, f1 + two, back);
    pieces(f1, two, back);
    pieces(sep, f2, back);
    pieces("remaining: "@, quantity, back);
    pieces("price: "@, price, sep + (f2 + back));
    pieces("side: "@, side, sep + (f1 + (sep + (f2 + back))));
}

/// Three pieces make up the same text whichever two are put together first.
proof fn pieces(a: Seq<char>, b: Seq<char>, c: Seq<char>)
    ensures
        (a + b) + c == a + (b + c),
{
    assert((a + b) + c =~= a + (b + c));
}

/// Orders that wait can be told apart.
proof fn resting_orders_are_told_apart(pretty: bool)
    ensures
        told_apart(resting_writer(pretty)),
        start_with_numbers(resting_writer(pretty)),
{
    let write = resting_writer(pretty);
    reveal_strlit(": ");
    structure_stops(pretty, 2);
    assert forall|
        x: (OrderId, Side, int, nat),
        y: (OrderId, Side, int, nat),
        r: Seq<char>,
        s: Seq<char>,
    |
        #![trigger write(x) + r, write(y) + s]
        reading::stops(r) && reading::stops(s) && write(x) + r == write(y) + s implies x == y && r
        == s by {
        resting_pieces(x, pretty, r);
        resting_pieces(y, pretty, s);
        let sep = between(pretty, 2);
        let end = structure_closing(pretty, 2);
        let front = structure_opening("RestingOrder"@, pretty, 2);
        let qx = text::decimal(x.3) + (end + r);
        let qy = text::decimal(y.3) + (end + s);
        let px = text::signed(x.2) + (sep + ("remaining: "@ + qx));
        let py = text::signed(y.2) + (sep + ("remaining: "@ + qy));
        let sx = text::side(x.1) + (sep + ("price: "@ + px));
        let sy = text::side(y.1) + (sep + ("price: "@ + py));
        let bx = front + ("side: "@ + sx);
        let by = front + ("side: "@ + sy);
        reading::numbers_end(x.0 as nat, ": "@ + bx, y.0 as nat, ": "@ + by);
        reading::after_the_same(": "@, bx, by);
        reading::after_the_same(front, "side: "@ + sx, "side: "@ + sy);
        reading::after_the_same("side: "@, sx, sy);
        reading::sides_end(x.1, sep + ("price: "@ + px), y.1, sep + ("price: "@ + py));
        reading::after_the_same(sep, "price: "@ + px, "price: "@ + py);
        reading::after_the_same("price: "@, px, py);
        reading::signed_numbers_end(
            x.2,
            sep + ("remaining: "@ + qx),
            y.2,
            sep + ("remaining: "@ + qy),
        );
        reading::after_the_same(sep, "remaining: "@ + qx, "remaining: "@ + qy);
        reading::after_the_same("remaining: "@, qx, qy);
        reading::numbers_end(x.3, end + r, y.3, end + s);
        reading::after_the_same(end, r, s);
    }
    assert forall|x: (OrderId, Side, int, nat)|
        (#[trigger] write(x)).len() > 0 && (reading::is_digit(write(x)[0]) || write(x)[0]
            == '-') by {
        reading::numbers_read_back(x.0 as nat);
        assert(write(x)[0] == text::decimal(x.0 as nat)[0]);
    }
}

/// A number finds its place among others in ascending order.
proof fn insert_ascending(s: Seq<int>, x: int) -> (t: Seq<int>)
    requires
        text::is_ascending(s),
        !s.contains(x),
    ensures
        text::is_ascending(t),
        forall|y: int| #[trigger] t.contains(y) <==> s.contains(y) || y == x,
    decreases s.len(),
{
    if s.len() == 0 || s.last() < x {
        let t = s.push(x);
        assert(t[t.len() - 1] == x);
        assert forall|y: int| #[trigger] t.contains(y) <==> s.contains(y) || y == x by {
            if s.contains(y) {
                let i = choose|i: int| 0 <= i < s.len() && s[i] == y;
                assert(t[i] == y);
            }
            if t.contains(y) {
                let i = choose|i: int| 0 <= i < t.len() && t[i] == y;
                if i < s.len() {
                    assert(s[i] == y);
                }
            }
        }
        t
    } else {
        let before = s.drop_last();
        let last = s.last();
        assert(s[s.len() - 1] == last);
        assert forall|y: int| #[trigger] before.contains(y) implies s.contains(y) && y < last by {
            let i = choose|i: int| 0 <= i < before.len() && before[i] == y;
            assert(s[i] == y);
        }
        assert(s.contains(last));
        let u = insert_ascending(before, x);
        let t = u.push(last);
        assert forall|i: int| 0 <= i < u.len() implies (#[trigger] u[i]) < last by {
            assert(u.contains(u[i]));
        }
        assert forall|y: int| #[trigger] t.contains(y) <==> s.contains(y) || y == x by {
            if s.contains(y) {
                let i = choose|i: int| 0 <= i < s.len() && s[i] == y;
                if i < before.len() {
                    assert(before[i] == y);
                    assert(u.contains(y));
                    let j = choose|j: int| 0 <= j < u.len() && u[j] == y;
                    assert(t[j] == y);
                } else {
                    assert(t[t.len() - 1] == y);
                }
            }
            if y == x {
                assert(u.contains(x));
                let j = choose|j: int| 0 <= j < u.len() && u[j] == x;
                assert(t[j] == x);
            }
            if t.contains(y) {
                let i = choose|i: int| 0 <= i < t.len() && t[i] == y;
                if i < u.len() {
                    assert(u[i] == y);
                    assert(u.contains(y));
                }
            }
        }
        t
    }
}

/// The numbers of a set have an ascending order.
proof fn some_ascending(set: Set<int>) -> (s: Seq<int>)
    requires
        set.finite(),
    ensures
        text::is_ascending(s),
        s.to_set() == set,
    decreases set.len(),
{
    if set.len() == 0 {
        let s = Seq::<int>::empty();
        assert(s.to_set() =~= set);
        s
    } else {
        let x = set.choose();
        let t = some_ascending(set.remove(x));
        assert(!t.to_set().contains(x));
        let s = insert_ascending(t, x);
        assert forall|y: int| s.to_set().contains(y) <==> set.contains(y) by {
            assert(t.to_set().contains(y) <==> t.contains(y));
        }
        assert(s.to_set() =~= set);
        s
    }
}

/// The ascending order of a set holds exactly the set's numbers, each smaller
/// than the next.
pub proof fn ascending_orders_the_set(set: Set<int>)
    requires
        set.finite(),
    ensures
        forall|i: int, j: int|
            0 <= i < j < text::ascending(set).len() ==> text::ascending(set)[i] < text::ascending(
                set,
            )[j],
        text::ascending(set).to_set() == set,
{
    let s = some_ascending(set);
    text::ascending_is(s);
}

/// The ascending identifiers are those of the set.
proof fn ascending_ids_order(ids: Set<OrderId>)
    requires
        ids.finite(),
    ensures
        forall|i: int|
            0 <= i < debug::ascending_ids(ids).len() ==> {
                &&& 0 <= (#[trigger] debug::ascending_ids(ids)[i]) <= u64::MAX
                &&& ids.contains(debug::ascending_ids(ids)[i] as OrderId)
            },
        forall|id: OrderId|
            ids.contains(id) ==> exists|i: int|
                0 <= i < debug::ascending_ids(ids).len() && #[trigger] debug::ascending_ids(ids)[i]
                    == id,
{
    let f = |id: OrderId| id as int;
    let set = ids.map(f);
    ids.lemma_map_finite(f);
    ascending_orders_the_set(set);
    let s = debug::ascending_ids(ids);
    assert forall|i: int| 0 <= i < s.len() implies 0 <= (#[trigger] s[i]) <= u64::MAX
        && ids.contains(s[i] as OrderId) by {
        assert(s.to_set().contains(s[i]));
        let id = choose|id: OrderId| ids.contains(id) && f(id) == s[i];
        assert(ids.contains(id) && f(id) == s[i]);
    }
    assert forall|id: OrderId| ids.contains(id) implies exists|i: int|
        0 <= i < s.len() && #[trigger] s[i] == id by {
        assert(set.contains(f(id)));
        assert(s.to_set().contains(id as int));
        let i = choose|i: int| 0 <= i < s.len() && s[i] == id as int;
        assert(s[i] == id);
    }
}

/// The ascending prices are those of the set.
proof fn ascending_ticks_order(prices: Set<i64>)
    requires
        prices.finite(),
    ensures
        forall|i: int|
            0 <= i < debug::ascending_ticks(prices).len() ==> {
                &&& i64::MIN <= (#[trigger] debug::ascending_ticks(prices)[i]) <= i64::MAX
                &&& prices.contains(debug::ascending_ticks(prices)[i] as i64)
            },
        forall|t: i64|
            prices.contains(t) ==> exists|i: int|
                0 <= i < debug::ascending_ticks(prices).len() && #[trigger] debug::ascending_ticks(
                    prices,
                )[i] == t,
{
    let f = |t: i64| t as int;
    let set = prices.map(f);
    prices.lemma_map_finite(f);
    ascending_orders_the_set(set);
    let s = debug::ascending_ticks(prices);
    assert forall|i: int| 0 <= i < s.len() implies i64::MIN <= (#[trigger] s[i]) <= i64::MAX
        && prices.contains(s[i] as i64) by {
        assert(s.to_set().contains(s[i]));
        let t = choose|t: i64| prices.contains(t) && f(t) == s[i];
        assert(prices.contains(t) && f(t) == s[i]);
    }
    assert forall|t: i64| prices.contains(t) implies exists|i: int|
        0 <= i < s.len() && #[trigger] s[i] == t by {
        assert(set.contains(f(t)));
        assert(s.to_set().contains(t as int));
        let i = choose|i: int| 0 <= i < s.len() && s[i] == t as int;
        assert(s[i] == t);
    }
}

/// The levels of a side, as they are written.
spec fn level_items(queue: Seq<QueuedOrder>) -> Seq<(int, Seq<OrderId>)> {
    debug::ascending_ticks(debug::ticks(queue)).map_values(
        |t: int| (t, model::ids(model::at_ticks(queue, t as i64))),
    )
}

/// Orders wait at finitely many prices.
proof fn ticks_are_finite(queue: Seq<QueuedOrder>)
    ensures
        debug::ticks(queue).finite(),
{
    let prices = queue.map_values(|o: QueuedOrder| o.price@);
    assert forall|t: i64| debug::ticks(queue).contains(t) implies prices.to_set().contains(t) by {
        lemmas::at_ticks_nonempty(queue, t);
        let i = choose|i: int| 0 <= i < queue.len() && (#[trigger] queue[i]).price@ == t;
        assert(prices[i] == t);
    }
    assert(debug::ticks(queue).subset_of(prices.to_set()));
    vstd::set_lib::lemma_len_subset(debug::ticks(queue), prices.to_set());
}

/// The levels of a side are written from its level items.
proof fn levels_from_items(queue: Seq<QueuedOrder>, pretty: bool)
    ensures
        debug::levels(queue, pretty) == debug::group(
            "{"@,
            level_items(queue).map_values(level_writer(pretty)),
            "}"@,
            pretty,
            1,
        ),
{
    ticks_are_finite(queue);
    ascending_ticks_order(debug::ticks(queue));
    let s = debug::ascending_ticks(debug::ticks(queue));
    let texts = s.map_values(|t: int| debug::level(queue, t as i64, pretty));
    let items = level_items(queue).map_values(level_writer(pretty));
    assert forall|i: int| 0 <= i < s.len() implies texts[i] == items[i] by {
        assert(i64::MIN <= s[i] <= i64::MAX);
        assert(texts[i] == debug::level(queue, s[i] as i64, pretty));
        assert(items[i] == level_of(
            (s[i], model::ids(model::at_ticks(queue, s[i] as i64))),
            pretty,
        ));
    }
    assert(texts =~= items);
}

/// Queues in priority order with the same orders at each price are the same.
proof fn queues_from_ticks(side: Side, a: Seq<QueuedOrder>, b: Seq<QueuedOrder>)
    requires
        model::queue_wf(side, a),
        model::queue_wf(side, b),
        forall|t: i64| #[trigger] model::at_ticks(a, t) == model::at_ticks(b, t),
    ensures
        a == b,
    decreases a.len(),
{
    if a.len() == 0 || b.len() == 0 {
        if a.len() > 0 {
            lemmas::at_ticks_nonempty(a, a[0].price@);
            lemmas::at_ticks_nonempty(b, a[0].price@);
            assert(model::at_ticks(a, a[0].price@) == model::at_ticks(b, a[0].price@));
        }
        if b.len() > 0 {
            lemmas::at_ticks_nonempty(b, b[0].price@);
            lemmas::at_ticks_nonempty(a, b[0].price@);
            assert(model::at_ticks(a, b[0].price@) == model::at_ticks(b, b[0].price@));
        }
        assert(a =~= b);
    } else {
        let p = a[0].price@;
        let q = b[0].price@;
        assert(model::at_ticks(a, p) == model::at_ticks(b, p));
        assert(model::at_ticks(a, q) == model::at_ticks(b, q));
        lemmas::at_ticks_nonempty(a, p);
        lemmas::at_ticks_nonempty(b, p);
        lemmas::at_ticks_nonempty(a, q);
        lemmas::at_ticks_nonempty(b, q);
        let i = choose|i: int| 0 <= i < a.len() && (#[trigger] a[i]).price@ == q;
        let j = choose|j: int| 0 <= j < b.len() && (#[trigger] b[j]).price@ == p;
        assert(i == 0 || !model::better(side, a[i].price, a[0].price));
        assert(j == 0 || !model::better(side, b[j].price, b[0].price));
        assert(p == q);
        lemmas::first_at_is_first(a, p);
        lemmas::first_at_is_first(b, p);
        assert(a[0] == b[0]);
        let fewer_a = a.remove(0);
        let fewer_b = b.remove(0);
        lemmas::remove_keeps_queue_wf(side, a, 0);
        lemmas::remove_keeps_queue_wf(side, b, 0);
        assert forall|t: i64| #[trigger]
            model::at_ticks(fewer_a, t) == model::at_ticks(fewer_b, t) by {
            lemmas::at_ticks_of_remove(a, 0, t);
            lemmas::at_ticks_of_remove(b, 0, t);
            assert(a.take(0) =~= b.take(0));
            assert(model::at_ticks(a, t) == model::at_ticks(b, t));
        }
        queues_from_ticks(side, fewer_a, fewer_b);
        assert(a =~= seq![a[0]] + fewer_a);
        assert(b =~= seq![b[0]] + fewer_b);
    }
}

/// Queues with the same levels are the same, if orders of one name are.
proof fn queues_from_levels(side: Side, a: Seq<QueuedOrder>, b: Seq<QueuedOrder>)
    requires
        model::queue_wf(side, a),
        model::queue_wf(side, b),
        level_items(a) == level_items(b),
        forall|i: int, j: int|
            0 <= i < a.len() && 0 <= j < b.len() && (#[trigger] a[i]).id == (#[trigger] b[j]).id
                ==> a[i] == b[j],
    ensures
        a == b,
{
    ticks_are_finite(a);
    ticks_are_finite(b);
    ascending_ticks_order(debug::ticks(a));
    ascending_ticks_order(debug::ticks(b));
    let sa = debug::ascending_ticks(debug::ticks(a));
    let sb = debug::ascending_ticks(debug::ticks(b));
    assert(sa.len() == level_items(a).len());
    assert(sb.len() == level_items(b).len());
    assert forall|k: int| 0 <= k < sa.len() implies sa[k] == sb[k] && model::ids(
        model::at_ticks(a, sa[k] as i64),
    ) == model::ids(model::at_ticks(b, sa[k] as i64)) by {
        assert(level_items(a)[k] == level_items(b)[k]);
        assert(level_items(a)[k].0 == sa[k]);
        assert(level_items(b)[k].0 == sb[k]);
        assert(level_items(a)[k].1 == model::ids(model::at_ticks(a, sa[k] as i64)));
        assert(level_items(b)[k].1 == model::ids(model::at_ticks(b, sb[k] as i64)));
    }
    assert forall|t: i64| #[trigger] model::at_ticks(a, t) == model::at_ticks(b, t) by {
        let fa = model::at_ticks(a, t);
        let fb = model::at_ticks(b, t);
        if debug::ticks(a).contains(t) {
            let k = choose|k: int| 0 <= k < sa.len() && #[trigger] sa[k] == t;
            assert(sb[k] == sa[k]);
        } else if debug::ticks(b).contains(t) {
            let k = choose|k: int| 0 <= k < sb.len() && #[trigger] sb[k] == t;
            assert(sb[k] == sa[k]);
        }
        assert(model::ids(fa) =~= model::ids(fb));
        assert(model::ids(fa).len() == model::ids(fb).len());
        lemmas::at_ticks_names_once(a, side, t);
        lemmas::at_ticks_names_once(b, side, t);
        assert forall|k: int| 0 <= k < fa.len() implies fa[k] == fb[k] by {
            assert(model::ids(fa)[k] == model::ids(fb)[k]);
            assert(a.contains(fa[k]));
            assert(b.contains(fb[k]));
            let i = choose|i: int| 0 <= i < a.len() && a[i] == fa[k];
            let j = choose|j: int| 0 <= j < b.len() && b[j] == fb[k];
            assert(a[i].id == b[j].id);
        }
        assert(fa =~= fb);
    }
    queues_from_ticks(side, a, b);
}

/// The identifiers of the orders that wait.
spec fn waiting(book: BookView) -> Set<OrderId> {
    Set::new(|id: OrderId| book.side_of(id) is Some)
}

/// Finitely many orders wait.
proof fn waiting_is_finite(book: BookView)
    ensures
        waiting(book).finite(),
{
    let names = (model::ids(book.bids) + model::ids(book.asks)).to_set();
    assert forall|id: OrderId| waiting(book).contains(id) implies names.contains(id) by {
        let all = model::ids(book.bids) + model::ids(book.asks);
        if model::waits(book.bids, id) {
            let i = model::position(book.bids, id);
            assert(book.bids[i].id == id);
            assert(all[i] == id);
        } else {
            let i = model::position(book.asks, id);
            assert(book.asks[i].id == id);
            assert(all[book.bids.len() + i] == id);
        }
    }
    assert(waiting(book).subset_of(names));
    vstd::set_lib::lemma_len_subset(waiting(book), names);
}

/// An order that waits, as it is written.
spec fn resting_item(book: BookView, id: OrderId) -> (OrderId, Side, int, nat) {
    let side = book.side_of(id)->0;
    let order = book.cancelled(side, id);
    (id, side, order.price@ as int, order.quantity as nat)
}

/// The orders that wait, as they are written.
spec fn resting_items(book: BookView) -> Seq<(OrderId, Side, int, nat)> {
    debug::ascending_ids(waiting(book)).map_values(|id: int| resting_item(book, id as OrderId))
}

/// The orders that wait are written from their items.
proof fn resting_orders_from_items(book: BookView, pretty: bool)
    ensures
        debug::resting_orders(book, pretty) == debug::group(
            "{"@,
            resting_items(book).map_values(resting_writer(pretty)),
            "}"@,
            pretty,
            1,
        ),
{
    let s = debug::ascending_ids(waiting(book));
    let texts = s.map_values(|id: int| debug::resting_order(book, id as OrderId, pretty));
    assert(waiting(book) == Set::new(|id: OrderId| book.side_of(id) is Some));
    assert(texts =~= resting_items(book).map_values(resting_writer(pretty)));
}

/// The identifiers of a set, as they are written.
spec fn id_items(ids: Set<OrderId>) -> Seq<OrderId> {
    debug::ascending_ids(ids).map_values(|id: int| id as OrderId)
}

/// Identifiers are written from their items.
proof fn identifiers_from_items(ids: Set<OrderId>, pretty: bool)
    requires
        ids.finite(),
    ensures
        debug::identifiers(ids, pretty) == debug::group(
            "{"@,
            id_items(ids).map_values(id_writer()),
            "}"@,
            pretty,
            1,
        ),
{
    ascending_ids_order(ids);
    let s = debug::ascending_ids(ids);
    let texts = s.map_values(|id: int| text::decimal(id as nat));
    let items = id_items(ids).map_values(id_writer());
    assert forall|i: int| 0 <= i < s.len() implies texts[i] == items[i] by {
        assert(0 <= s[i] <= u64::MAX);
    }
    assert(texts =~= items);
}

/// Sets with the same identifiers in ascending order are the same.
proof fn sets_from_ids(a: Set<OrderId>, b: Set<OrderId>)
    requires
        a.finite(),
        b.finite(),
        id_items(a) == id_items(b),
    ensures
        a == b,
{
    ascending_ids_order(a);
    ascending_ids_order(b);
    let sa = debug::ascending_ids(a);
    let sb = debug::ascending_ids(b);
    assert(sa.len() == id_items(a).len());
    assert(sb.len() == id_items(b).len());
    assert forall|k: int| 0 <= k < sa.len() implies #[trigger] sa[k] == #[trigger] sb[k] by {
        assert(id_items(a)[k] == id_items(b)[k]);
        assert(id_items(a)[k] == sa[k] as OrderId);
        assert(id_items(b)[k] == sb[k] as OrderId);
        assert(0 <= sa[k] <= u64::MAX);
        assert(0 <= sb[k] <= u64::MAX);
    }
    assert forall|id: OrderId| a.contains(id) <==> b.contains(id) by {
        if a.contains(id) {
            let k = choose|k: int| 0 <= k < sa.len() && #[trigger] sa[k] == id;
            assert(b.contains(sb[k] as OrderId));
        }
        if b.contains(id) {
            let k = choose|k: int| 0 <= k < sb.len() && #[trigger] sb[k] == id;
            assert(a.contains(sa[k] as OrderId));
        }
    }
    assert(a =~= b);
}

/// Books with the same items agree on every order that waits.
proof fn orders_from_items(a: BookView, b: BookView, id: OrderId)
    requires
        resting_items(a) == resting_items(b),
    ensures
        a.side_of(id) == b.side_of(id),
        a.side_of(id) is Some ==> resting_item(a, id) == resting_item(b, id),
{
    waiting_is_finite(a);
    waiting_is_finite(b);
    ascending_ids_order(waiting(a));
    ascending_ids_order(waiting(b));
    let sa = debug::ascending_ids(waiting(a));
    let sb = debug::ascending_ids(waiting(b));
    assert(sa.len() == resting_items(a).len());
    assert(sb.len() == resting_items(b).len());
    if waiting(a).contains(id) {
        let k = choose|k: int| 0 <= k < sa.len() && #[trigger] sa[k] == id;
        assert(resting_items(a)[k] == resting_items(b)[k]);
        assert(resting_items(a)[k] == resting_item(a, id));
        assert(resting_items(b)[k] == resting_item(b, sb[k] as OrderId));
        assert(waiting(b).contains(sb[k] as OrderId));
        assert(sb[k] as OrderId == id);
    } else if waiting(b).contains(id) {
        let k = choose|k: int| 0 <= k < sb.len() && #[trigger] sb[k] == id;
        assert(resting_items(a)[k] == resting_items(b)[k]);
        assert(resting_items(b)[k] == resting_item(b, id));
        assert(resting_items(a)[k] == resting_item(a, sa[k] as OrderId));
        assert(waiting(a).contains(sa[k] as OrderId));
        assert(sa[k] as OrderId == id);
    }
}

/// Books that agree on every order that waits hold the same orders.
proof fn same_orders(a: BookView, b: BookView, side: Side, i: int, j: int)
    requires
        a.wf(),
        b.wf(),
        resting_items(a) == resting_items(b),
        0 <= i < a.queue(side).len(),
        0 <= j < b.queue(side).len(),
        a.queue(side)[i].id == b.queue(side)[j].id,
    ensures
        a.queue(side)[i] == b.queue(side)[j],
{
    broadcast use crate::types::price_is_its_ticks;

    let id = a.queue(side)[i].id;
    orders_from_items(a, b, id);
    lemmas::position_is(a.queue(side), side, i);
    lemmas::position_is(b.queue(side), side, j);
    crate::meaning::orders_that_wait_can_be_cancelled(a, id);
    assert(a.side_of(id) == Some(side));
    assert(resting_item(a, id) == resting_item(b, id));
}

/// A book's text, piece by piece.
proof fn book_pieces(book: BookView, attached: bool, pretty: bool)
    ensures
        debug::book(book, attached, pretty) == structure_opening("OrderBook"@, pretty, 0) + (
        "observer: "@ + (debug::observer(attached) + (between(pretty, 0) + ("bids: "@ + (
        debug::levels(book.bids, pretty) + (between(pretty, 0) + ("asks: "@ + (debug::levels(
            book.asks,
            pretty,
        ) + (between(pretty, 0) + ("resting_orders: "@ + (debug::resting_orders(book, pretty) + (
        between(pretty, 0) + ("seen_order_ids: "@ + (debug::identifiers(book.seen, pretty)
            + structure_closing(pretty, 0))))))))))))))),
{
    let none = Seq::<char>::empty();
    let sep = between(pretty, 0);
    let end = structure_closing(pretty, 0);
    let v0 = debug::observer(attached);
    let v1 = debug::levels(book.bids, pretty);
    let v2 = debug::levels(book.asks, pretty);
    let v3 = debug::resting_orders(book, pretty);
    let v4 = debug::identifiers(book.seen, pretty);
    let f0 = "observer: "@ + v0;
    let f1 = "bids: "@ + v1;
    let f2 = "asks: "@ + v2;
    let f3 = "resting_orders: "@ + v3;
    let f4 = "seen_order_ids: "@ + v4;
    let fields = seq![f0, f1, f2, f3, f4];
    let whole = debug::structure("OrderBook"@, fields, pretty, 0);
    structure_pieces("OrderBook"@, fields, pretty, 0, none);
    assert(whole + none =~= whole);
    assert(end + none =~= end);
    assert(fields.drop_first() =~= seq![f1, f2, f3, f4]);
    assert(seq![f1, f2, f3, f4].drop_first() =~= seq![f2, f3, f4]);
    assert(seq![f2, f3, f4].drop_first() =~= seq![f3, f4]);
    assert(seq![f3, f4].drop_first() =~= seq![f4]);
    let j4 = sep + f4;
    let j3 = sep + (f3 + j4);
    let j2 = sep + (f2 + j3);
    let j1 = sep + (f1 + j2);
    assert(joined(seq![f4], sep) == f4);
    assert(joined(seq![f3, f4], sep) == f3 + j4);
    assert(joined(seq![f2, f3, f4], sep) == f2 + j3);
    assert(joined(seq![f1, f2, f3, f4], sep) == f1 + j2);
    assert(joined(fields, sep) == f0 + j1);
    let e4 = sep + (f4 + end);
    let e3 = sep + (f3 + e4);
    let e2 = sep + (f2 + e3);
    let e1 = sep + (f1 + e2);
    pieces(f0, j1, end);
    pieces(sep, f1 + j2, end);
    pieces(f1, j2, end);
    pieces(sep, f2 + j3, end);
    pieces(f2, j3, end);
    pieces(sep, f3 + j4, end);
    pieces(f3, j4, end);
    pieces(sep, f4, end);
    pieces("seen_order_ids: "@, v4, end);
    pieces("resting_orders: "@, v3, e4);
    pieces("asks: "@, v2, e3);
    pieces("bids: "@, v1, e2);
    pieces("observer: "@, v0, e1);
}

/// What the text says of an observer tells whether one is attached.
proof fn observers_end(a: bool, r: Seq<char>, b: bool, s: Seq<char>)
    requires
        debug::observer(a) + r == debug::observer(b) + s,
    ensures
        a == b,
        r == s,
{
    reveal_strlit("\"Attached Observer\"");
    reveal_strlit("\"No Observer\"");
    assert((debug::observer(a) + r)[1] == debug::observer(a)[1]);
    assert((debug::observer(b) + s)[1] == debug::observer(b)[1]);
    assert(a == b);
    reading::after_the_same(debug::observer(a), r, s);
}

/// A book can be read from its text, in either form: two books with the same
/// text hold the same orders in the same lines, have used the same identifiers,
/// and either both or neither report to an observer.
pub proof fn book_texts_tell_books_apart(
    a: BookView,
    attached_a: bool,
    b: BookView,
    attached_b: bool,
    pretty: bool,
)
    requires
        a.wf(),
        b.wf(),
        a.seen.finite(),
        b.seen.finite(),
        debug::book(a, attached_a, pretty) == debug::book(b, attached_b, pretty),
    ensures
        a.bids == b.bids,
        a.asks == b.asks,
        a.seen == b.seen,
        attached_a == attached_b,
{
    let sep = between(pretty, 0);
    let end = structure_closing(pretty, 0);
    let front = structure_opening("OrderBook"@, pretty, 0);
    book_pieces(a, attached_a, pretty);
    book_pieces(b, attached_b, pretty);
    let ia = debug::identifiers(a.seen, pretty) + end;
    let ib = debug::identifiers(b.seen, pretty) + end;
    let ra = debug::resting_orders(a, pretty) + (sep + ("seen_order_ids: "@ + ia));
    let rb = debug::resting_orders(b, pretty) + (sep + ("seen_order_ids: "@ + ib));
    let sa = debug::levels(a.asks, pretty) + (sep + ("resting_orders: "@ + ra));
    let sb = debug::levels(b.asks, pretty) + (sep + ("resting_orders: "@ + rb));
    let ba = debug::levels(a.bids, pretty) + (sep + ("asks: "@ + sa));
    let bb = debug::levels(b.bids, pretty) + (sep + ("asks: "@ + sb));
    let oa = debug::observer(attached_a) + (sep + ("bids: "@ + ba));
    let ob = debug::observer(attached_b) + (sep + ("bids: "@ + bb));
    reading::after_the_same(front, "observer: "@ + oa, "observer: "@ + ob);
    reading::after_the_same("observer: "@, oa, ob);
    observers_end(attached_a, sep + ("bids: "@ + ba), attached_b, sep + ("bids: "@ + bb));
    reading::after_the_same(sep, "bids: "@ + ba, "bids: "@ + bb);
    reading::after_the_same("bids: "@, ba, bb);
    reveal_strlit("}");
    levels_are_told_apart(pretty);
    resting_orders_are_told_apart(pretty);
    ids_are_told_apart();
    levels_from_items(a.bids, pretty);
    levels_from_items(b.bids, pretty);
    groups_end(
        "{"@,
        level_items(a.bids),
        level_items(b.bids),
        level_writer(pretty),
        "}"@,
        pretty,
        1,
        sep + ("asks: "@ + sa),
        sep + ("asks: "@ + sb),
    );
    reading::after_the_same(sep, "asks: "@ + sa, "asks: "@ + sb);
    reading::after_the_same("asks: "@, sa, sb);
    levels_from_items(a.asks, pretty);
    levels_from_items(b.asks, pretty);
    groups_end(
        "{"@,
        level_items(a.asks),
        level_items(b.asks),
        level_writer(pretty),
        "}"@,
        pretty,
        1,
        sep + ("resting_orders: "@ + ra),
        sep + ("resting_orders: "@ + rb),
    );
    reading::after_the_same(sep, "resting_orders: "@ + ra, "resting_orders: "@ + rb);
    reading::after_the_same("resting_orders: "@, ra, rb);
    resting_orders_from_items(a, pretty);
    resting_orders_from_items(b, pretty);
    groups_end(
        "{"@,
        resting_items(a),
        resting_items(b),
        resting_writer(pretty),
        "}"@,
        pretty,
        1,
        sep + ("seen_order_ids: "@ + ia),
        sep + ("seen_order_ids: "@ + ib),
    );
    reading::after_the_same(sep, "seen_order_ids: "@ + ia, "seen_order_ids: "@ + ib);
    reading::after_the_same("seen_order_ids: "@, ia, ib);
    identifiers_from_items(a.seen, pretty);
    identifiers_from_items(b.seen, pretty);
    groups_end("{"@, id_items(a.seen), id_items(b.seen), id_writer(), "}"@, pretty, 1, end, end);
    sets_from_ids(a.seen, b.seen);
    assert forall|i: int, j: int|
        0 <= i < a.bids.len() && 0 <= j < b.bids.len() && (#[trigger] a.bids[i]).id == (
        #[trigger] b.bids[j]).id implies a.bids[i] == b.bids[j] by {
        same_orders(a, b, Side::Buy, i, j);
    }
    assert forall|i: int, j: int|
        0 <= i < a.asks.len() && 0 <= j < b.asks.len() && (#[trigger] a.asks[i]).id == (
        #[trigger] b.asks[j]).id implies a.asks[i] == b.asks[j] by {
        same_orders(a, b, Side::Sell, i, j);
    }
    queues_from_levels(Side::Buy, a.bids, b.bids);
    queues_from_levels(Side::Sell, a.asks, b.asks);
}

/// A list of one entry is that entry, and two lists one behind the other have a
/// comma and a space between them.
pub proof fn lists_are_put_together(entry: Seq<char>, a: Seq<Seq<char>>, b: Seq<Seq<char>>)
    requires
        a.len() > 0,
        b.len() > 0,
    ensures
        text::list(Seq::empty()) == Seq::<char>::empty(),
        text::list(seq![entry]) == entry,
        text::list(a + b) == text::list(a) + ", "@ + text::list(b),
    decreases b.len(),
{
    assert((a + b).drop_last() =~= a + b.drop_last());
    if b.len() == 1 {
        assert(a + b.drop_last() =~= a);
        assert((a + b).last() == b[0]);
    } else {
        lists_are_put_together(entry, a, b.drop_last());
        assert(text::list(a) + ", "@ + text::list(b.drop_last()) + ", "@ + b.last() =~= text::list(
            a,
        ) + ", "@ + (text::list(b.drop_last()) + ", "@ + b.last()));
    }
}

/// An entry's line is its indentation, the entry, a comma and a line break, and
/// lines follow each other.
pub proof fn lines_are_put_together(
    entry: Seq<char>,
    a: Seq<Seq<char>>,
    b: Seq<Seq<char>>,
    depth: nat,
)
    ensures
        debug::lines(Seq::empty(), depth) == Seq::<char>::empty(),
        debug::lines(seq![entry], depth) == debug::pad(depth) + entry + ",\n"@,
        debug::lines(a + b, depth) == debug::lines(a, depth) + debug::lines(b, depth),
    decreases b.len(),
{
    let none = Seq::<Seq<char>>::empty();
    assert(seq![entry].drop_last() =~= none);
    assert(debug::lines(none, depth) =~= Seq::<char>::empty());
    assert(debug::lines(none, depth) + debug::pad(depth) + entry + ",\n"@ =~= debug::pad(depth)
        + entry + ",\n"@);
    if b.len() == 0 {
        assert(a + b =~= a);
        assert(debug::lines(a, depth) + debug::lines(b, depth) =~= debug::lines(a, depth));
    } else {
        lines_are_put_together(entry, a, b.drop_last(), depth);
        assert((a + b).drop_last() =~= a + b.drop_last());
        assert(debug::lines(a, depth) + debug::lines(b.drop_last(), depth) + debug::pad(depth)
            + b.last() + ",\n"@ =~= debug::lines(a, depth) + (debug::lines(b.drop_last(), depth)
            + debug::pad(depth) + b.last() + ",\n"@));
    }
}

/// A group on one line is its entries as a list between its ends.  Over several
/// lines its entries are one level deeper than its ends, and without entries the
/// ends stand together.
pub proof fn groups_show_their_entries(
    open: Seq<char>,
    entries: Seq<Seq<char>>,
    close: Seq<char>,
    depth: nat,
)
    ensures
        debug::group(open, entries, close, false, depth) == open + text::list(entries) + close,
        debug::group(open, Seq::empty(), close, true, depth) == open + close,
        entries.len() > 0 ==> debug::group(open, entries, close, true, depth) == open + "\n"@
            + debug::lines(entries, depth + 1) + debug::pad(depth) + close,
{
    assert(open + text::list(Seq::empty()) + close =~= open + close);
}

/// A structure is its name and its fields in braces, on one line or over
/// several.
pub proof fn structures_show_their_fields(name: Seq<char>, fields: Seq<Seq<char>>, depth: nat)
    requires
        fields.len() > 0,
    ensures
        debug::structure(name, fields, false, depth) == name + " { "@ + text::list(fields) + " }"@,
        debug::structure(name, fields, true, depth) == name + " {"@ + "\n"@ + debug::lines(
            fields,
            depth + 1,
        ) + debug::pad(depth) + "}"@,
{
}

/// Whether somebody waits in `queue` at `price` ticks.
pub open spec fn somebody_at(queue: Seq<QueuedOrder>, price: int) -> bool {
    exists|i: int| 0 <= i < queue.len() && (#[trigger] queue[i]).price@ == price
}

/// Whether `prices` are those at which somebody waits in `queue`, each once and
/// the lowest first.
pub open spec fn lowest_first(queue: Seq<QueuedOrder>, prices: Seq<int>) -> bool {
    &&& forall|k: int, l: int| 0 <= k < l < prices.len() ==> prices[k] < prices[l]
    &&& forall|k: int| 0 <= k < prices.len() ==> somebody_at(queue, #[trigger] prices[k])
    &&& forall|i: int|
        0 <= i < queue.len() ==> prices.contains((#[trigger] queue[i]).price@ as int)
}

/// The ascending prices of a side are all at which somebody waits there.
proof fn ascending_ticks_are_all(queue: Seq<QueuedOrder>)
    ensures
        lowest_first(queue, debug::ascending_ticks(debug::ticks(queue))),
{
    let f = |t: i64| t as int;
    let prices = debug::ascending_ticks(debug::ticks(queue));
    ticks_are_finite(queue);
    ascending_ticks_order(debug::ticks(queue));
    debug::ticks(queue).lemma_map_finite(f);
    ascending_orders_the_set(debug::ticks(queue).map(f));
    assert forall|k: int| 0 <= k < prices.len() implies somebody_at(
        queue,
        #[trigger] prices[k],
    ) by {
        let t = prices[k] as i64;
        assert(debug::ticks(queue).contains(t));
        lemmas::at_ticks_nonempty(queue, t);
        let i = choose|i: int| 0 <= i < queue.len() && (#[trigger] queue[i]).price@ == t;
        assert(queue[i].price@ == prices[k]);
    }
    assert forall|i: int| 0 <= i < queue.len() implies prices.contains(
        (#[trigger] queue[i]).price@ as int,
    ) by {
        let t = queue[i].price@;
        lemmas::at_ticks_nonempty(queue, t);
        assert(debug::ticks(queue).contains(t));
        let k = choose|k: int| 0 <= k < prices.len() && #[trigger] prices[k] == t;
        assert(prices[k] == t as int);
    }
}

/// A side is shown price by price, each once and the lowest first.
pub proof fn level_texts_are_in_order(queue: Seq<QueuedOrder>, pretty: bool)
    ensures
        exists|prices: Seq<int>, texts: Seq<Seq<char>>|
            {
                &&& debug::levels(queue, pretty) == #[trigger] debug::group(
                    "{"@,
                    texts,
                    "}"@,
                    pretty,
                    1,
                )
                &&& texts.len() == prices.len()
                &&& #[trigger] lowest_first(queue, prices)
                &&& forall|k: int|
                    0 <= k < prices.len() ==> (#[trigger] texts[k]) == debug::level(
                        queue,
                        prices[k] as i64,
                        pretty,
                    )
            },
{
    ascending_ticks_are_all(queue);
    let prices = debug::ascending_ticks(debug::ticks(queue));
    let texts = prices.map_values(|t: int| debug::level(queue, t as i64, pretty));
    assert(debug::levels(queue, pretty) == debug::group("{"@, texts, "}"@, pretty, 1));
    assert(lowest_first(queue, prices));
}

/// A price is shown with the identifiers of those who wait at it, the first in
/// line first.
pub proof fn level_texts_show_the_level(queue: Seq<QueuedOrder>, ticks: i64, pretty: bool)
    ensures
        debug::level(queue, ticks, pretty) == text::signed(ticks as int) + ": "@ + debug::structure(
            "PriceLevel"@,
            seq![
                "queue: "@ + debug::group(
                    "["@,
                    queue.filter(|o: QueuedOrder| o.price@ == ticks).map_values(
                        |o: QueuedOrder| text::decimal(o.id as nat),
                    ),
                    "]"@,
                    pretty,
                    3,
                ),
            ],
            pretty,
            2,
        ),
{
    let there = queue.filter(|o: QueuedOrder| o.price@ == ticks);
    assert(there == model::at_ticks(queue, ticks));
    assert(debug::numbers(model::ids(there)) =~= there.map_values(
        |o: QueuedOrder| text::decimal(o.id as nat),
    ));
}

/// An order that waits is shown behind its identifier, with its side, its price
/// and what is left of it.
pub proof fn resting_order_texts_show_the_order(
    book: BookView,
    side: Side,
    line: Seq<QueuedOrder>,
    i: int,
    name: Seq<char>,
    pretty: bool,
)
    requires
        book.wf(),
        side is Buy ==> line == book.bids && name == "Buy"@,
        side is Sell ==> line == book.asks && name == "Sell"@,
        0 <= i < line.len(),
    ensures
        debug::resting_order(book, line[i].id, pretty) == text::decimal(line[i].id as nat) + ": "@
            + debug::structure(
            "RestingOrder"@,
            seq![
                "side: "@ + name,
                "price: "@ + text::signed(line[i].price@ as int),
                "remaining: "@ + text::decimal(line[i].remaining as nat),
            ],
            pretty,
            2,
        ),
{
    lemmas::position_is(book.queue(side), side, i);
    crate::meaning::orders_that_wait_can_be_cancelled(book, line[i].id);
    assert(book.side_of(line[i].id) == Some(side));
}

/// Whether `ids` are the members of `set`, each once and the lowest first.
pub open spec fn all_in_order(ids: Seq<int>, set: Set<OrderId>) -> bool {
    &&& forall|k: int, l: int| 0 <= k < l < ids.len() ==> ids[k] < ids[l]
    &&& forall|k: int|
        0 <= k < ids.len() ==> 0 <= (#[trigger] ids[k]) <= u64::MAX && set.contains(
            ids[k] as OrderId,
        )
    &&& forall|id: OrderId| #[trigger] set.contains(id) ==> ids.contains(id as int)
}

/// The ascending identifiers of a set are all of it, in order.
proof fn ascending_ids_are_all(set: Set<OrderId>)
    requires
        set.finite(),
    ensures
        all_in_order(debug::ascending_ids(set), set),
{
    ascending_ids_order(set);
    let f = |id: OrderId| id as int;
    set.lemma_map_finite(f);
    ascending_orders_the_set(set.map(f));
    let ids = debug::ascending_ids(set);
    assert forall|id: OrderId| #[trigger] set.contains(id) implies ids.contains(id as int) by {
        let k = choose|k: int| 0 <= k < ids.len() && #[trigger] ids[k] == id;
        assert(ids[k] == id as int);
    }
}

/// The orders that wait are shown by identifier, each once and the lowest first.
pub proof fn resting_order_texts_are_in_order(book: BookView, known: Set<OrderId>, pretty: bool)
    requires
        forall|id: OrderId| #[trigger] known.contains(id) <==> book.side_of(id) is Some,
    ensures
        exists|ids: Seq<int>, texts: Seq<Seq<char>>|
            {
                &&& debug::resting_orders(book, pretty) == #[trigger] debug::group(
                    "{"@,
                    texts,
                    "}"@,
                    pretty,
                    1,
                )
                &&& texts.len() == ids.len()
                &&& #[trigger] all_in_order(ids, known)
                &&& forall|k: int|
                    0 <= k < ids.len() ==> (#[trigger] texts[k]) == debug::resting_order(
                        book,
                        ids[k] as OrderId,
                        pretty,
                    )
            },
{
    waiting_is_finite(book);
    assert(known =~= waiting(book));
    ascending_ids_are_all(known);
    let ids = debug::ascending_ids(known);
    let texts = ids.map_values(|id: int| debug::resting_order(book, id as OrderId, pretty));
    assert(debug::resting_orders(book, pretty) == debug::group("{"@, texts, "}"@, pretty, 1));
    assert(all_in_order(ids, known));
}

/// The identifiers are shown each once and the lowest first.
pub proof fn identifier_texts_are_in_order(seen: Set<OrderId>, pretty: bool)
    requires
        seen.finite(),
    ensures
        exists|ids: Seq<int>|
            {
                &&& debug::identifiers(seen, pretty) == debug::group(
                    "{"@,
                    ids.map_values(|id: int| text::decimal(id as nat)),
                    "}"@,
                    pretty,
                    1,
                )
                &&& #[trigger] all_in_order(ids, seen)
            },
{
    ascending_ids_are_all(seen);
    assert(all_in_order(debug::ascending_ids(seen), seen));
}

/// A book is shown with its five fields by name: whether an observer is
/// attached, the bids, the asks, the orders that wait and the identifiers used.
pub proof fn book_texts_show_the_book(book: BookView, attached: bool, pretty: bool, shown: Seq<char>)
    requires
        attached ==> shown == "\"Attached Observer\""@,
        !attached ==> shown == "\"No Observer\""@,
    ensures
        debug::book(book, attached, pretty) == debug::structure(
            "OrderBook"@,
            seq![
                "observer: "@ + shown,
                "bids: "@ + debug::levels(book.bids, pretty),
                "asks: "@ + debug::levels(book.asks, pretty),
                "resting_orders: "@ + debug::resting_orders(book, pretty),
                "seen_order_ids: "@ + debug::identifiers(book.seen, pretty),
            ],
            pretty,
            0,
        ),
{
}

} // verus!
