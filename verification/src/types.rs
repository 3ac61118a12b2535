//! The values that go into and come out of the order book.

use vstd::prelude::*;

verus! {

pub type OrderId = u64;

pub type Quantity = u64;

/// What a value is formatted into, with the options that it is formatted by.
#[verifier::external_type_specification]
#[verifier::external_body]
pub struct ExFormatter<'a>(core::fmt::Formatter<'a>);

/// Why a value could not be formatted.
#[verifier::external_type_specification]
#[verifier::external_body]
pub struct ExFormatError(core::fmt::Error);

/// Formats `ticks` through the `Debug` of `i64`.  Nothing is claimed of what
/// the formatter holds afterwards, which is not to be seen from here, nor of
/// the result, which is up to what the formatter writes to.
#[verifier::external_body]
fn format_ticks(ticks: i64, formatter: &mut core::fmt::Formatter<'_>) -> Result<
    (),
    core::fmt::Error,
> {
    core::fmt::Debug::fmt(&ticks, formatter)
}

/// A price in integer ticks, for example cents when one tick is one cent.  It
/// is never zero.
#[derive(Clone, Copy, PartialEq, Eq, PartialOrd, Ord, Hash, Structural)]
pub struct Price {
    ticks: i64,
}

impl Price {
    #[verifier::type_invariant]
    closed spec fn nonzero(self) -> bool {
        self.ticks != 0
    }

    /// The number of ticks.
    pub closed spec fn view(&self) -> i64 {
        self.ticks
    }

    /// The price of `ticks` ticks, or `None` for zero.
    pub fn new(ticks: i64) -> (price: Option<Price>)
        ensures
            price is Some <==> ticks != 0,
            price matches Some(p) ==> p@ == ticks,
    {
        if ticks == 0 {
            None
        } else {
            Some(Price { ticks })
        }
    }

    /// The number of ticks.
    pub fn get(self) -> (ticks: i64)
        ensures
            ticks == self@,
            ticks != 0,
    {
        proof {
            use_type_invariant(&self);
        }
        self.ticks
    }
}

impl core::fmt::Debug for Price {
    /// Formats the number of ticks, and nothing else.
    fn fmt(&self, formatter: &mut core::fmt::Formatter<'_>) -> Result<(), core::fmt::Error> {
        format_ticks(self.ticks, formatter)
    }
}

/// Prices with the same number of ticks are the same price.
pub broadcast proof fn price_is_its_ticks(a: Price, b: Price)
    ensures
        #![trigger a@, b@]
        a@ == b@ <==> a == b,
{
}

/// The side of an order.  A buy order matches the best ask; a sell order
/// matches the best bid.
#[derive(Clone, Copy, Debug, PartialEq, Eq, Structural)]
pub enum Side {
    Buy,
    Sell,
}

/// A client instruction to enter one limit order.
#[derive(Clone, Copy, Debug, PartialEq, Eq, Structural)]
pub struct LimitOrder {
    pub id: OrderId,
    pub side: Side,
    pub price: Price,
    pub quantity: Quantity,
}

/// A fill created by the matching engine.  The trade takes place at the
/// resting (maker) order's price.
#[derive(Clone, Copy, Debug, PartialEq, Eq, Structural)]
pub struct Trade {
    pub maker_id: OrderId,
    pub taker_id: OrderId,
    pub price: Price,
    pub quantity: Quantity,
}

/// The public view of a price level.
#[derive(Clone, Copy, Debug, PartialEq, Eq, Structural)]
pub struct Level {
    pub price: Price,
    pub quantity: Quantity,
    pub order_count: usize,
}

/// Information returned when an order is cancelled.
#[derive(Clone, Copy, Debug, PartialEq, Eq, Structural)]
pub struct CancelledOrder {
    pub id: OrderId,
    pub side: Side,
    pub price: Price,
    pub quantity: Quantity,
}

/// Why a request was refused.
#[derive(Clone, Debug, PartialEq, Eq, Structural)]
pub enum BookError {
    NonPositivePrice,
    ZeroQuantity,
    DuplicateOrderId(OrderId),
    UnknownOrderId(OrderId),
}

} // verus!
