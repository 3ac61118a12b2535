# replay

A deterministic, price-time-priority limit order book, verified with Verus.

Prices are integer ticks and quantities are integer lots.  Accepted orders and
cancellations are reported to an observer, and the log that it keeps replays to
the book.

* `src/` is the verified library.  `model.rs` holds the mathematical book that
  the contracts speak of, `book.rs` the order book, and `laws.rs` what holds of
  it as a whole: price-time priority, every lot of an order accounted for,
  identifiers that are never reused, a book that is never crossed, buyers and
  sellers treated alike.
* `app/` is a small program around it, with observers that log to the console,
  to a buffered file and to a memory-mapped file.
* `tests/` runs the library on concrete sessions.

The library relies on four functions of the standard library that it does not
prove: `BTreeMap::first_key_value`, `BTreeMap::last_key_value`, the `Debug` of
`i64`, by which a price is formatted, and the system clock.  Nothing is claimed
of the clock's reading; an event that is recorded while the clock is set to
before 1970 carries the Unix epoch as its time.
