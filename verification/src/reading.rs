//! What can be read back from the texts: the numbers, orders, trades and events
//! that they were written from.

use vstd::prelude::*;

use crate::observe::{Event, TimedEvent};
use crate::text;
use crate::types::{CancelledOrder, Level, LimitOrder, Price, Side, Trade};

verus! {

/// Whether `c` is a decimal digit.
pub open spec fn is_digit(c: char) -> bool {
    '0' as int <= c as int <= '9' as int
}

/// Whether `r` starts with something that is no digit.
pub open spec fn stops(r: Seq<char>) -> bool {
    r.len() > 0 && !is_digit(r[0])
}

/// The number that `digits` are read as, ten times what stands before the last
/// digit and that digit.
pub open spec fn number_in(digits: Seq<char>) -> int
    decreases digits.len(),
{
    if digits.len() == 0 {
        0
    } else {
        10 * number_in(digits.drop_last()) + (digits.last() as int - '0' as int)
    }
}

/// A digit is one character, and counts up from `0`.
proof fn digits_count_up(d: u8)
    requires
        d < 10,
    ensures
        text::digit(d).len() == 1,
        text::digit(d)[0] as int == '0' as int + d,
{
    reveal_strlit("0");
    reveal_strlit("1");
    reveal_strlit("2");
    reveal_strlit("3");
    reveal_strlit("4");
    reveal_strlit("5");
    reveal_strlit("6");
    reveal_strlit("7");
    reveal_strlit("8");
    reveal_strlit("9");
}

/// A number is written in digits that read as that number, without leading
/// zeros.
pub proof fn numbers_read_back(n: nat)
    ensures
        number_in(text::decimal(n)) == n,
        text::decimal(n).len() > 0,
        forall|i: int| 0 <= i < text::decimal(n).len() ==> is_digit(#[trigger] text::decimal(n)[i]),
        text::decimal(n)[0] == '0' ==> text::decimal(n).len() == 1,
    decreases n,
{
    if n < 10 {
        digits_count_up(n as u8);
        assert(text::decimal(n).drop_last() =~= Seq::<char>::empty());
        assert(number_in(text::decimal(n).drop_last()) == 0);
    } else {
        let before = text::decimal(n / 10);
        let last = text::digit((n % 10) as u8);
        numbers_read_back(n / 10);
        digits_count_up((n % 10) as u8);
        assert(text::decimal(n).drop_last() =~= before);
        assert(before[0] != '0') by {
            if before[0] == '0' {
                assert(before.len() == 1);
                assert(before.drop_last() =~= Seq::<char>::empty());
                assert(number_in(before.drop_last()) == 0);
                assert(before.last() == before[0]);
                assert(number_in(before) == 0);
            }
        }
    }
}

/// The number that `digits` are read as, negative if a minus sign stands first.
pub open spec fn signed_number_in(digits: Seq<char>) -> int {
    if digits.len() > 0 && digits[0] == '-' {
        -number_in(digits.skip(1))
    } else {
        number_in(digits)
    }
}

/// A signed number is written with a minus sign exactly if it is negative, and
/// reads as that number.
pub proof fn signed_numbers_read_back(n: int)
    ensures
        signed_number_in(text::signed(n)) == n,
        text::signed(n).len() > 0,
        text::signed(n)[0] == '-' <==> n < 0,
        forall|i: int|
            0 < i < text::signed(n).len() ==> is_digit(#[trigger] text::signed(n)[i]),
        n >= 0 ==> is_digit(text::signed(n)[0]),
{
    reveal_strlit("-");
    if n < 0 {
        numbers_read_back((-n) as nat);
        assert(text::signed(n).skip(1) =~= text::decimal((-n) as nat));
    } else {
        numbers_read_back(n as nat);
    }
}

/// Two texts that start alike and are the same go on the same.
pub proof fn after_the_same(p: Seq<char>, r: Seq<char>, s: Seq<char>)
    requires
        p + r == p + s,
    ensures
        r == s,
{
    assert(r =~= (p + r).skip(p.len() as int));
    assert(s =~= (p + s).skip(p.len() as int));
}

/// Digits end where the first other character stands.
proof fn digits_end(a: Seq<char>, r: Seq<char>, b: Seq<char>, s: Seq<char>)
    requires
        a + r == b + s,
        forall|i: int| 0 <= i < a.len() ==> is_digit(#[trigger] a[i]),
        forall|i: int| 0 <= i < b.len() ==> is_digit(#[trigger] b[i]),
        r.len() > 0 && !is_digit(r[0]),
        s.len() > 0 && !is_digit(s[0]),
    ensures
        a == b,
        r == s,
{
    if a.len() < b.len() {
        assert((a + r)[a.len() as int] == r[0]);
        assert((b + s)[a.len() as int] == b[a.len() as int]);
    }
    if b.len() < a.len() {
        assert((b + s)[b.len() as int] == s[0]);
        assert((a + r)[b.len() as int] == a[b.len() as int]);
    }
    assert(a =~= (a + r).take(a.len() as int));
    assert(b =~= (b + s).take(b.len() as int));
    after_the_same(a, r, s);
}

/// Numbers in front of something that is no digit are told apart.
pub proof fn numbers_end(a: nat, r: Seq<char>, b: nat, s: Seq<char>)
    requires
        text::decimal(a) + r == text::decimal(b) + s,
        r.len() > 0 && !is_digit(r[0]),
        s.len() > 0 && !is_digit(s[0]),
    ensures
        a == b,
        r == s,
{
    numbers_read_back(a);
    numbers_read_back(b);
    digits_end(text::decimal(a), r, text::decimal(b), s);
}

/// Signed numbers in front of something that is no digit are told apart.
pub proof fn signed_numbers_end(a: int, r: Seq<char>, b: int, s: Seq<char>)
    requires
        text::signed(a) + r == text::signed(b) + s,
        r.len() > 0 && !is_digit(r[0]),
        s.len() > 0 && !is_digit(s[0]),
    ensures
        a == b,
        r == s,
{
    signed_numbers_read_back(a);
    signed_numbers_read_back(b);
    assert((text::signed(a) + r)[0] == text::signed(a)[0]);
    assert((text::signed(b) + s)[0] == text::signed(b)[0]);
    if a < 0 {
        let x = text::decimal((-a) as nat);
        let y = text::decimal((-b) as nat);
        assert(text::signed(a) + r =~= "-"@ + (x + r));
        assert(text::signed(b) + s =~= "-"@ + (y + s));
        after_the_same("-"@, x + r, y + s);
        numbers_end((-a) as nat, r, (-b) as nat, s);
    } else {
        numbers_end(a as nat, r, b as nat, s);
    }
}

/// A side is written by its own name.
pub proof fn sides_read_back(side: Side)
    ensures
        side is Buy <==> text::side(side) == "Buy"@,
        side is Sell <==> text::side(side) == "Sell"@,
{
    reveal_strlit("Buy");
    reveal_strlit("Sell");
    assert("Buy"@.len() != "Sell"@.len());
}

/// Sides are told apart by what they start with.
pub proof fn sides_end(a: Side, r: Seq<char>, b: Side, s: Seq<char>)
    requires
        text::side(a) + r == text::side(b) + s,
    ensures
        a == b,
        r == s,
{
    reveal_strlit("Buy");
    reveal_strlit("Sell");
    assert((text::side(a) + r)[0] == text::side(a)[0]);
    assert((text::side(b) + s)[0] == text::side(b)[0]);
    assert(a == b);
    after_the_same(text::side(a), r, s);
}

/// The literals that stand behind numbers do not start with a digit.
proof fn separators()
    ensures
        ", side: "@.len() > 0 && !is_digit(", side: "@[0]),
        ", quantity: "@.len() > 0 && !is_digit(", quantity: "@[0]),
        ", taker_id: "@.len() > 0 && !is_digit(", taker_id: "@[0]),
        ", price: "@.len() > 0 && !is_digit(", price: "@[0]),
        ", order_count: "@.len() > 0 && !is_digit(", order_count: "@[0]),
        ", new_price: "@.len() > 0 && !is_digit(", new_price: "@[0]),
        " }"@.len() > 0 && !is_digit(" }"@[0]),
        ")"@.len() > 0 && !is_digit(")"@[0]),
        " "@.len() > 0 && !is_digit(" "@[0]),
{
    reveal_strlit(", side: ");
    reveal_strlit(", quantity: ");
    reveal_strlit(", taker_id: ");
    reveal_strlit(", price: ");
    reveal_strlit(", order_count: ");
    reveal_strlit(", new_price: ");
    reveal_strlit(" }");
    reveal_strlit(")");
    reveal_strlit(" ");
}

/// What is written of an order's side, price and quantity behind its identifier.
spec fn order_tail(side: Side, price: Price, quantity: u64, r: Seq<char>) -> Seq<char> {
    ", side: "@ + (text::side(side) + (", price: "@ + (text::signed(price@ as int) + (
    ", quantity: "@ + (text::decimal(quantity as nat) + (" }"@ + r))))))
}

/// What stands behind an identifier tells side, price and quantity.
proof fn order_tails_end(
    side_a: Side,
    price_a: Price,
    quantity_a: u64,
    r: Seq<char>,
    side_b: Side,
    price_b: Price,
    quantity_b: u64,
    s: Seq<char>,
)
    requires
        order_tail(side_a, price_a, quantity_a, r) == order_tail(side_b, price_b, quantity_b, s),
    ensures
        side_a == side_b,
        price_a == price_b,
        quantity_a == quantity_b,
        r == s,
{
    broadcast use crate::types::price_is_its_ticks;

    separators();
    let qa = text::decimal(quantity_a as nat) + (" }"@ + r);
    let qb = text::decimal(quantity_b as nat) + (" }"@ + s);
    let pa = text::signed(price_a@ as int) + (", quantity: "@ + qa);
    let pb = text::signed(price_b@ as int) + (", quantity: "@ + qb);
    after_the_same(
        ", side: "@,
        text::side(side_a) + (", price: "@ + pa),
        text::side(side_b) + (", price: "@ + pb),
    );
    sides_end(side_a, ", price: "@ + pa, side_b, ", price: "@ + pb);
    after_the_same(", price: "@, pa, pb);
    signed_numbers_end(
        price_a@ as int,
        ", quantity: "@ + qa,
        price_b@ as int,
        ", quantity: "@ + qb,
    );
    after_the_same(", quantity: "@, qa, qb);
    numbers_end(quantity_a as nat, " }"@ + r, quantity_b as nat, " }"@ + s);
    after_the_same(" }"@, r, s);
}

/// A limit order's text, piece by piece.
proof fn limit_order_pieces(order: LimitOrder, r: Seq<char>)
    ensures
        text::limit_order(order) + r == "LimitOrder { id: "@ + (text::decimal(order.id as nat)
            + order_tail(order.side, order.price, order.quantity, r)),
{
    let a = "LimitOrder { id: "@;
    let b = text::decimal(order.id as nat);
    let c = ", side: "@;
    let d = text::side(order.side);
    let e = ", price: "@;
    let f = text::signed(order.price@ as int);
    let g = ", quantity: "@;
    let h = text::decimal(order.quantity as nat);
    let i = " }"@;
    assert(text::limit_order(order) + r =~= a + (b + (c + (d + (e + (f + (g + (h + (i + r)))))))));
}

/// A limit order can be read from its text, also where more text follows.
pub proof fn limit_orders_end(a: LimitOrder, r: Seq<char>, b: LimitOrder, s: Seq<char>)
    requires
        text::limit_order(a) + r == text::limit_order(b) + s,
    ensures
        a == b,
        r == s,
{
    separators();
    limit_order_pieces(a, r);
    limit_order_pieces(b, s);
    let x = order_tail(a.side, a.price, a.quantity, r);
    let y = order_tail(b.side, b.price, b.quantity, s);
    after_the_same(
        "LimitOrder { id: "@,
        text::decimal(a.id as nat) + x,
        text::decimal(b.id as nat) + y,
    );
    numbers_end(a.id as nat, x, b.id as nat, y);
    order_tails_end(a.side, a.price, a.quantity, r, b.side, b.price, b.quantity, s);
}

/// Two limit orders with the same text are the same order.
pub proof fn limit_order_texts_tell_orders_apart(a: LimitOrder, b: LimitOrder)
    requires
        text::limit_order(a) == text::limit_order(b),
    ensures
        a == b,
{
    limit_orders_end(a, Seq::empty(), b, Seq::empty());
}

/// A limit order's text names its fields, each in front of what reads as that
/// field: `Buy` for a buy order and `Sell` for a sell order.
pub proof fn limit_order_texts_show_the_order(order: LimitOrder, side: Seq<char>)
    requires
        order.side is Buy ==> side == "Buy"@,
        order.side is Sell ==> side == "Sell"@,
    ensures
        exists|id: Seq<char>, price: Seq<char>, quantity: Seq<char>|
            {
                &&& text::limit_order(order) == #[trigger] ("LimitOrder { id: "@ + id + ", side: "@ + side
                    + ", price: "@ + price + ", quantity: "@ + quantity + " }"@)
                &&& number_in(id) == order.id
                &&& signed_number_in(price) == order.price@
                &&& number_in(quantity) == order.quantity
            },
{
    numbers_read_back(order.id as nat);
    signed_numbers_read_back(order.price@ as int);
    numbers_read_back(order.quantity as nat);
    let id = text::decimal(order.id as nat);
    let price = text::signed(order.price@ as int);
    let quantity = text::decimal(order.quantity as nat);
    assert(text::limit_order(order) == "LimitOrder { id: "@ + id + ", side: "@ + side + ", price: "@
        + price + ", quantity: "@ + quantity + " }"@);
}

/// A cancelled order's text names its fields, each in front of what reads as that
/// field: `Buy` for a buy order and `Sell` for a sell order.
pub proof fn cancelled_order_texts_show_the_order(order: CancelledOrder, side: Seq<char>)
    requires
        order.side is Buy ==> side == "Buy"@,
        order.side is Sell ==> side == "Sell"@,
    ensures
        exists|id: Seq<char>, price: Seq<char>, quantity: Seq<char>|
            {
                &&& text::cancelled_order(order) == #[trigger] ("CancelledOrder { id: "@ + id + ", side: "@ + side
                    + ", price: "@ + price + ", quantity: "@ + quantity + " }"@)
                &&& number_in(id) == order.id
                &&& signed_number_in(price) == order.price@
                &&& number_in(quantity) == order.quantity
            },
{
    numbers_read_back(order.id as nat);
    signed_numbers_read_back(order.price@ as int);
    numbers_read_back(order.quantity as nat);
    let id = text::decimal(order.id as nat);
    let price = text::signed(order.price@ as int);
    let quantity = text::decimal(order.quantity as nat);
    assert(text::cancelled_order(order) == "CancelledOrder { id: "@ + id + ", side: "@ + side + ", price: "@
        + price + ", quantity: "@ + quantity + " }"@);
}

/// A cancelled order can be read from its text.
pub proof fn cancelled_order_texts_tell_orders_apart(a: CancelledOrder, b: CancelledOrder)
    requires
        text::cancelled_order(a) == text::cancelled_order(b),
    ensures
        a == b,
{
    separators();
    cancelled_order_pieces(a);
    cancelled_order_pieces(b);
    let x = order_tail(a.side, a.price, a.quantity, Seq::empty());
    let y = order_tail(b.side, b.price, b.quantity, Seq::empty());
    after_the_same(
        "CancelledOrder { id: "@,
        text::decimal(a.id as nat) + x,
        text::decimal(b.id as nat) + y,
    );
    numbers_end(a.id as nat, x, b.id as nat, y);
    order_tails_end(
        a.side,
        a.price,
        a.quantity,
        Seq::empty(),
        b.side,
        b.price,
        b.quantity,
        Seq::empty(),
    );
}

/// A cancelled order's text, piece by piece.
proof fn cancelled_order_pieces(order: CancelledOrder)
    ensures
        text::cancelled_order(order) == "CancelledOrder { id: "@ + (text::decimal(order.id as nat)
            + order_tail(order.side, order.price, order.quantity, Seq::empty())),
{
    let a = "CancelledOrder { id: "@;
    let b = text::decimal(order.id as nat);
    let c = ", side: "@;
    let d = text::side(order.side);
    let e = ", price: "@;
    let f = text::signed(order.price@ as int);
    let g = ", quantity: "@;
    let h = text::decimal(order.quantity as nat);
    let i = " }"@ + Seq::<char>::empty();
    assert(text::cancelled_order(order) =~= a + (b + (c + (d + (e + (f + (g + (h + i))))))));
}

/// A trade's text, piece by piece.
proof fn trade_pieces(trade: Trade, r: Seq<char>)
    ensures
        text::trade(trade) + r == "Trade { maker_id: "@ + (text::decimal(trade.maker_id as nat) + (
        ", taker_id: "@ + (text::decimal(trade.taker_id as nat) + (", price: "@ + (text::signed(
            trade.price@ as int,
        ) + (", quantity: "@ + (text::decimal(trade.quantity as nat) + (" }"@ + r)))))))),
{
    let a = "Trade { maker_id: "@;
    let b = text::decimal(trade.maker_id as nat);
    let c = ", taker_id: "@;
    let d = text::decimal(trade.taker_id as nat);
    let e = ", price: "@;
    let f = text::signed(trade.price@ as int);
    let g = ", quantity: "@;
    let h = text::decimal(trade.quantity as nat);
    let i = " }"@;
    assert(text::trade(trade) + r =~= a + (b + (c + (d + (e + (f + (g + (h + (i + r)))))))));
}

/// A trade can be read from its text, also where more text follows.
pub proof fn trades_end(a: Trade, r: Seq<char>, b: Trade, s: Seq<char>)
    requires
        text::trade(a) + r == text::trade(b) + s,
    ensures
        a == b,
        r == s,
{
    broadcast use crate::types::price_is_its_ticks;

    separators();
    trade_pieces(a, r);
    trade_pieces(b, s);
    let qa = text::decimal(a.quantity as nat) + (" }"@ + r);
    let qb = text::decimal(b.quantity as nat) + (" }"@ + s);
    let pa = text::signed(a.price@ as int) + (", quantity: "@ + qa);
    let pb = text::signed(b.price@ as int) + (", quantity: "@ + qb);
    let ta = text::decimal(a.taker_id as nat) + (", price: "@ + pa);
    let tb = text::decimal(b.taker_id as nat) + (", price: "@ + pb);
    after_the_same(
        "Trade { maker_id: "@,
        text::decimal(a.maker_id as nat) + (", taker_id: "@ + ta),
        text::decimal(b.maker_id as nat) + (", taker_id: "@ + tb),
    );
    numbers_end(a.maker_id as nat, ", taker_id: "@ + ta, b.maker_id as nat, ", taker_id: "@ + tb);
    after_the_same(", taker_id: "@, ta, tb);
    numbers_end(a.taker_id as nat, ", price: "@ + pa, b.taker_id as nat, ", price: "@ + pb);
    after_the_same(", price: "@, pa, pb);
    signed_numbers_end(
        a.price@ as int,
        ", quantity: "@ + qa,
        b.price@ as int,
        ", quantity: "@ + qb,
    );
    after_the_same(", quantity: "@, qa, qb);
    numbers_end(a.quantity as nat, " }"@ + r, b.quantity as nat, " }"@ + s);
    after_the_same(" }"@, r, s);
}

/// Two trades with the same text are the same trade.
pub proof fn trade_texts_tell_trades_apart(a: Trade, b: Trade)
    requires
        text::trade(a) == text::trade(b),
    ensures
        a == b,
{
    trades_end(a, Seq::empty(), b, Seq::empty());
}

/// A trade's text names its fields, each in front of what reads as that field.
pub proof fn trade_texts_show_the_trade(trade: Trade)
    ensures
        exists|maker: Seq<char>, taker: Seq<char>, price: Seq<char>, quantity: Seq<char>|
            {
                &&& text::trade(trade) == #[trigger] ("Trade { maker_id: "@ + maker
                    + ", taker_id: "@ + taker + ", price: "@ + price + ", quantity: "@ + quantity
                    + " }"@)
                &&& number_in(maker) == trade.maker_id
                &&& number_in(taker) == trade.taker_id
                &&& signed_number_in(price) == trade.price@
                &&& number_in(quantity) == trade.quantity
            },
{
    numbers_read_back(trade.maker_id as nat);
    numbers_read_back(trade.taker_id as nat);
    signed_numbers_read_back(trade.price@ as int);
    numbers_read_back(trade.quantity as nat);
    let maker = text::decimal(trade.maker_id as nat);
    let taker = text::decimal(trade.taker_id as nat);
    let price = text::signed(trade.price@ as int);
    let quantity = text::decimal(trade.quantity as nat);
    assert(text::trade(trade) == "Trade { maker_id: "@ + maker + ", taker_id: "@ + taker
        + ", price: "@ + price + ", quantity: "@ + quantity + " }"@);
}

/// Two levels with the same text are the same level.
pub proof fn level_texts_tell_levels_apart(a: Level, b: Level)
    requires
        text::level(a) == text::level(b),
    ensures
        a == b,
{
    broadcast use crate::types::price_is_its_ticks;

    separators();
    level_pieces(a);
    level_pieces(b);
    let ca = text::decimal(a.order_count as nat) + " }"@;
    let cb = text::decimal(b.order_count as nat) + " }"@;
    let qa = text::decimal(a.quantity as nat) + (", order_count: "@ + ca);
    let qb = text::decimal(b.quantity as nat) + (", order_count: "@ + cb);
    after_the_same(
        "Level { price: "@,
        text::signed(a.price@ as int) + (", quantity: "@ + qa),
        text::signed(b.price@ as int) + (", quantity: "@ + qb),
    );
    signed_numbers_end(
        a.price@ as int,
        ", quantity: "@ + qa,
        b.price@ as int,
        ", quantity: "@ + qb,
    );
    after_the_same(", quantity: "@, qa, qb);
    numbers_end(
        a.quantity as nat,
        ", order_count: "@ + ca,
        b.quantity as nat,
        ", order_count: "@ + cb,
    );
    after_the_same(", order_count: "@, ca, cb);
    numbers_end(a.order_count as nat, " }"@, b.order_count as nat, " }"@);
}

/// A level's text names its fields, each in front of what reads as that field.
pub proof fn level_texts_show_the_level(level: Level)
    ensures
        exists|price: Seq<char>, quantity: Seq<char>, count: Seq<char>|
            {
                &&& text::level(level) == #[trigger] ("Level { price: "@ + price + ", quantity: "@
                    + quantity + ", order_count: "@ + count + " }"@)
                &&& signed_number_in(price) == level.price@
                &&& number_in(quantity) == level.quantity
                &&& number_in(count) == level.order_count
            },
{
    signed_numbers_read_back(level.price@ as int);
    numbers_read_back(level.quantity as nat);
    numbers_read_back(level.order_count as nat);
    let price = text::signed(level.price@ as int);
    let quantity = text::decimal(level.quantity as nat);
    let count = text::decimal(level.order_count as nat);
    assert(text::level(level) == "Level { price: "@ + price + ", quantity: "@ + quantity
        + ", order_count: "@ + count + " }"@);
}

/// A level's text, piece by piece.
proof fn level_pieces(level: Level)
    ensures
        text::level(level) == "Level { price: "@ + (text::signed(level.price@ as int) + (
        ", quantity: "@ + (text::decimal(level.quantity as nat) + (", order_count: "@ + (
        text::decimal(level.order_count as nat) + " }"@))))),
{
    let a = "Level { price: "@;
    let b = text::signed(level.price@ as int);
    let c = ", quantity: "@;
    let d = text::decimal(level.quantity as nat);
    let e = ", order_count: "@;
    let f = text::decimal(level.order_count as nat);
    assert(text::level(level) =~= a + (b + (c + (d + (e + (f + " }"@))))));
}

/// Prices that may be missing are told apart.
proof fn optional_prices_end(
    a: Option<Price>,
    r: Seq<char>,
    b: Option<Price>,
    s: Seq<char>,
)
    requires
        text::optional_price(a) + r == text::optional_price(b) + s,
    ensures
        a == b,
        r == s,
{
    broadcast use crate::types::price_is_its_ticks;

    separators();
    reveal_strlit("Some(");
    reveal_strlit("None");
    assert((text::optional_price(a) + r)[0] == text::optional_price(a)[0]);
    assert((text::optional_price(b) + s)[0] == text::optional_price(b)[0]);
    match (a, b) {
        (Some(p), Some(q)) => {
            let x = text::signed(p@ as int);
            let y = text::signed(q@ as int);
            assert(text::optional_price(a) + r =~= "Some("@ + (x + (")"@ + r)));
            assert(text::optional_price(b) + s =~= "Some("@ + (y + (")"@ + s)));
            after_the_same("Some("@, x + (")"@ + r), y + (")"@ + s));
            signed_numbers_end(p@ as int, ")"@ + r, q@ as int, ")"@ + s);
            after_the_same(")"@, r, s);
        },
        _ => {
            assert(a is None && b is None);
            after_the_same("None"@, r, s);
        },
    }
}

/// Quantities that may be missing are told apart.
proof fn optional_quantities_end(a: Option<u64>, r: Seq<char>, b: Option<u64>, s: Seq<char>)
    requires
        text::optional_quantity(a) + r == text::optional_quantity(b) + s,
    ensures
        a == b,
        r == s,
{
    separators();
    reveal_strlit("Some(");
    reveal_strlit("None");
    assert((text::optional_quantity(a) + r)[0] == text::optional_quantity(a)[0]);
    assert((text::optional_quantity(b) + s)[0] == text::optional_quantity(b)[0]);
    match (a, b) {
        (Some(p), Some(q)) => {
            let x = text::decimal(p as nat);
            let y = text::decimal(q as nat);
            assert(text::optional_quantity(a) + r =~= "Some("@ + (x + (")"@ + r)));
            assert(text::optional_quantity(b) + s =~= "Some("@ + (y + (")"@ + s)));
            after_the_same("Some("@, x + (")"@ + r), y + (")"@ + s));
            numbers_end(p as nat, ")"@ + r, q as nat, ")"@ + s);
            after_the_same(")"@, r, s);
        },
        _ => {
            assert(a is None && b is None);
            after_the_same("None"@, r, s);
        },
    }
}

/// An event's text starts with the event's name.
pub proof fn event_texts_start_with_their_name(event: Event)
    ensures
        event is New <==> "New("@.is_prefix_of(text::event(event)),
        event is Trade <==> "Trade("@.is_prefix_of(text::event(event)),
        event is Cancel <==> "Cancel { order_id: "@.is_prefix_of(text::event(event)),
        event is Amend <==> "Amend { order_id: "@.is_prefix_of(text::event(event)),
{
    reveal_strlit("New(");
    reveal_strlit("Trade(");
    reveal_strlit("Cancel { order_id: ");
    reveal_strlit("Amend { order_id: ");
    let t = text::event(event);
    let name = match event {
        Event::New(_) => "New("@,
        Event::Trade(_) => "Trade("@,
        Event::Cancel { .. } => "Cancel { order_id: "@,
        Event::Amend { .. } => "Amend { order_id: "@,
    };
    assert(name =~= t.take(name.len() as int));
    assert(name.is_prefix_of(t));
    assert(t[0] == name[0]);
    assert("New("@.is_prefix_of(t) ==> t[0] == "New("@[0]);
    assert("Trade("@.is_prefix_of(t) ==> t[0] == "Trade("@[0]);
    assert("Cancel { order_id: "@.is_prefix_of(t) ==> t[0] == "Cancel { order_id: "@[0]);
    assert("Amend { order_id: "@.is_prefix_of(t) ==> t[0] == "Amend { order_id: "@[0]);
}

/// New orders and trades are written in brackets behind the event's name, and a
/// cancellation names what reads as its order's identifier.
pub proof fn event_texts_show_the_event(order: LimitOrder, trade: Trade, order_id: u64)
    ensures
        text::event(Event::New(order)) == "New("@ + text::limit_order(order) + ")"@,
        text::event(Event::Trade(trade)) == "Trade("@ + text::trade(trade) + ")"@,
        exists|id: Seq<char>|
            {
                &&& text::event(Event::Cancel { order_id }) == #[trigger] ("Cancel { order_id: "@
                    + id + " }"@)
                &&& number_in(id) == order_id
            },
{
    let id = text::decimal(order_id as nat);
    numbers_read_back(order_id as nat);
    assert(text::event(Event::Cancel { order_id }) == "Cancel { order_id: "@ + id + " }"@);
}

/// An amendment names what reads as its order's identifier, then the new price
/// and the new quantity.
pub proof fn amend_texts_show_the_amendment(
    order_id: u64,
    new_price: Option<Price>,
    new_quantity: Option<u64>,
)
    ensures
        exists|id: Seq<char>|
            {
                &&& number_in(id) == order_id
                &&& text::event(Event::Amend { order_id, new_price, new_quantity }) == #[trigger] (
                "Amend { order_id: "@ + id + ", new_price: "@ + text::optional_price(new_price)
                    + ", new_quantity: "@ + text::optional_quantity(new_quantity) + " }"@)
            },
{
    let id = text::decimal(order_id as nat);
    numbers_read_back(order_id as nat);
    assert(text::event(Event::Amend { order_id, new_price, new_quantity }) == "Amend { order_id: "@
        + id + ", new_price: "@ + text::optional_price(new_price) + ", new_quantity: "@
        + text::optional_quantity(new_quantity) + " }"@);
}

/// What may be missing is written in `Some(..)`, or as `None` if it is.
pub proof fn optional_texts_show_the_value(price: Price, quantity: u64)
    ensures
        exists|p: Seq<char>|
            signed_number_in(p) == price@ && text::optional_price(Some(price)) == #[trigger] (
            "Some("@ + p + ")"@),
        exists|q: Seq<char>|
            number_in(q) == quantity && text::optional_quantity(Some(quantity)) == #[trigger] (
            "Some("@ + q + ")"@),
        text::optional_price(None) == "None"@,
        text::optional_quantity(None) == "None"@,
{
    let p = text::signed(price@ as int);
    let q = text::decimal(quantity as nat);
    signed_numbers_read_back(price@ as int);
    numbers_read_back(quantity as nat);
    assert(text::optional_price(Some(price)) == "Some("@ + p + ")"@);
    assert(text::optional_quantity(Some(quantity)) == "Some("@ + q + ")"@);
}

/// An amendment's text, piece by piece.
proof fn amend_pieces(order_id: u64, new_price: Option<Price>, new_quantity: Option<u64>)
    ensures
        text::event(Event::Amend { order_id, new_price, new_quantity }) == "Amend { order_id: "@ + (
        text::decimal(order_id as nat) + (", new_price: "@ + (text::optional_price(new_price) + (
        ", new_quantity: "@ + (text::optional_quantity(new_quantity) + " }"@))))),
{
    let a = "Amend { order_id: "@;
    let b = text::decimal(order_id as nat);
    let c = ", new_price: "@;
    let d = text::optional_price(new_price);
    let e = ", new_quantity: "@;
    let f = text::optional_quantity(new_quantity);
    assert(text::event(Event::Amend { order_id, new_price, new_quantity }) =~= a + (b + (c + (d + (e
        + (f + " }"@))))));
}

/// Two events with the same text are the same event.
pub proof fn event_texts_tell_events_apart(a: Event, b: Event)
    requires
        text::event(a) == text::event(b),
    ensures
        a == b,
{
    separators();
    event_texts_start_with_their_name(a);
    event_texts_start_with_their_name(b);
    match (a, b) {
        (Event::New(x), Event::New(y)) => {
            assert(text::event(a) =~= "New("@ + (text::limit_order(x) + ")"@));
            assert(text::event(b) =~= "New("@ + (text::limit_order(y) + ")"@));
            after_the_same("New("@, text::limit_order(x) + ")"@, text::limit_order(y) + ")"@);
            limit_orders_end(x, ")"@, y, ")"@);
        },
        (Event::Trade(x), Event::Trade(y)) => {
            assert(text::event(a) =~= "Trade("@ + (text::trade(x) + ")"@));
            assert(text::event(b) =~= "Trade("@ + (text::trade(y) + ")"@));
            after_the_same("Trade("@, text::trade(x) + ")"@, text::trade(y) + ")"@);
            trades_end(x, ")"@, y, ")"@);
        },
        (Event::Cancel { order_id: x }, Event::Cancel { order_id: y }) => {
            let p = "Cancel { order_id: "@;
            assert(text::event(a) =~= p + (text::decimal(x as nat) + " }"@));
            assert(text::event(b) =~= p + (text::decimal(y as nat) + " }"@));
            after_the_same(p, text::decimal(x as nat) + " }"@, text::decimal(y as nat) + " }"@);
            numbers_end(x as nat, " }"@, y as nat, " }"@);
        },
        (
            Event::Amend { order_id: x, new_price: p, new_quantity: q },
            Event::Amend { order_id: y, new_price: o, new_quantity: m },
        ) => {
            amend_pieces(x, p, q);
            amend_pieces(y, o, m);
            let qa = text::optional_quantity(q) + " }"@;
            let qb = text::optional_quantity(m) + " }"@;
            let pa = text::optional_price(p) + (", new_quantity: "@ + qa);
            let pb = text::optional_price(o) + (", new_quantity: "@ + qb);
            after_the_same(
                "Amend { order_id: "@,
                text::decimal(x as nat) + (", new_price: "@ + pa),
                text::decimal(y as nat) + (", new_price: "@ + pb),
            );
            numbers_end(x as nat, ", new_price: "@ + pa, y as nat, ", new_price: "@ + pb);
            after_the_same(", new_price: "@, pa, pb);
            optional_prices_end(p, ", new_quantity: "@ + qa, o, ", new_quantity: "@ + qb);
            after_the_same(", new_quantity: "@, qa, qb);
            optional_quantities_end(q, " }"@, m, " }"@);
        },
        _ => {},
    }
}

/// Two timed events with the same text happened at the same time and are the
/// same event.
pub proof fn timed_event_texts_tell_events_apart(a: TimedEvent, b: TimedEvent)
    requires
        a.shown() == b.shown(),
    ensures
        a.spec_time() == b.spec_time(),
        a.spec_event() == b.spec_event(),
{
    separators();
    let x = text::event(a.spec_event());
    let y = text::event(b.spec_event());
    assert(a.shown() =~= text::decimal(a.spec_time() as nat) + (" "@ + x));
    assert(b.shown() =~= text::decimal(b.spec_time() as nat) + (" "@ + y));
    numbers_end(a.spec_time() as nat, " "@ + x, b.spec_time() as nat, " "@ + y);
    after_the_same(" "@, x, y);
    event_texts_tell_events_apart(a.spec_event(), b.spec_event());
}

/// A timed event's text is its time, a space and its event.
pub proof fn timed_event_texts_start_with_the_time(timed: TimedEvent)
    ensures
        exists|time: Seq<char>|
            {
                &&& timed.shown() == #[trigger] (time + " "@) + text::event(timed.spec_event())
                &&& number_in(time) == timed.spec_time()
                &&& forall|i: int| 0 <= i < time.len() ==> is_digit(#[trigger] time[i])
            },
{
    let time = text::decimal(timed.spec_time() as nat);
    numbers_read_back(timed.spec_time() as nat);
    assert(timed.shown() == (time + " "@) + text::event(timed.spec_event()));
}

} // verus!
