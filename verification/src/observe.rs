//! Events, and the observers that they are reported to.

use vstd::prelude::*;

use crate::model::{BookView, Request};
use crate::text;
use crate::types::{LimitOrder, OrderId, Price, Trade};

verus! {

/// Something that happened to the book.
#[derive(Clone, Copy, Debug)]
pub enum Event {
    New(LimitOrder),
    Trade(Trade),
    Cancel { order_id: u64 },
    Amend { order_id: u64, new_price: Option<Price>, new_quantity: Option<u64> },
}

/// An event together with the time at which it was recorded, in nanoseconds
/// since the Unix epoch.
#[derive(Clone, Copy)]
pub struct TimedEvent {
    event: Event,
    time: u128,
}

/// The current time in nanoseconds since the Unix epoch, through
/// `SystemTime::elapsed` on the epoch, or `None` where that is an error, as it
/// is for a clock set to before the epoch.  Nothing is claimed of the reading,
/// which is the machine's.
#[verifier::external_body]
fn nanoseconds_since_epoch() -> Option<u128> {
    std::time::UNIX_EPOCH.elapsed().ok().map(|since| since.as_nanos())
}

impl TimedEvent {
    /// The event itself.
    pub closed spec fn spec_event(self) -> Event {
        self.event
    }

    /// When the event was recorded.
    pub closed spec fn spec_time(self) -> u128 {
        self.time
    }

    /// `event`, recorded at `time` nanoseconds since the Unix epoch.
    pub fn at(event: Event, time: u128) -> (timed: TimedEvent)
        ensures
            timed.spec_event() == event,
            timed.spec_time() == time,
    {
        TimedEvent { event, time }
    }

    /// `event`, recorded at a clock's reading in nanoseconds since the Unix
    /// epoch.  A clock set to before the epoch has no such reading, and the
    /// event is recorded at the epoch then.
    pub fn at_reading(event: Event, reading: Option<u128>) -> (timed: TimedEvent)
        ensures
            timed.spec_event() == event,
            timed.spec_time() == match reading {
                Some(time) => time,
                None => 0,
            },
    {
        match reading {
            Some(time) => TimedEvent::at(event, time),
            None => TimedEvent::at(event, 0),
        }
    }

    /// The event itself.
    pub fn event(&self) -> (event: Event)
        ensures
            event == self.spec_event(),
    {
        self.event
    }

    /// The time and the event: `1700000000 Cancel { order_id: 7 }`.
    pub fn to_string(&self) -> (string: String)
        ensures
            string@ == self.shown(),
    {
        let mut string = text::decimal_text(self.time);
        string.append(" ");
        string.append(text::event_text(self.event).as_str());
        string
    }

    /// The time and the event, behind the name of who logs them:
    /// `[Logger] 1700000000 Cancel { order_id: 7 }`.
    pub fn labelled(&self, label: &str) -> (line: String)
        ensures
            line@ == "["@ + label@ + "] "@ + self.shown(),
    {
        let mut line = "[".to_owned();
        line.append(label);
        line.append("] ");
        line.append(self.to_string().as_str());
        line
    }

    /// The time and the event.
    pub open spec fn shown(self) -> Seq<char> {
        text::decimal(self.spec_time() as nat) + " "@ + text::event(self.spec_event())
    }
}

impl From<Event> for TimedEvent {
    /// `event`, recorded now, or at the Unix epoch if the clock is set to
    /// before it.
    fn from(event: Event) -> (timed: TimedEvent)
        ensures
            timed.spec_event() == event,
    {
        TimedEvent::at_reading(event, nanoseconds_since_epoch())
    }
}

/// The time of a conversion is whatever the clock reads, so the converted
/// value is not a function of the event alone.
impl vstd::std_specs::convert::FromSpecImpl<Event> for TimedEvent {
    open spec fn obeys_from_spec() -> bool {
        false
    }

    open spec fn from_spec(event: Event) -> TimedEvent {
        arbitrary()
    }
}

/// Why an observer could not take an event.
#[derive(Debug)]
pub struct ObserverError {
    pub message: String,
}

/// An event that was reported to an observer, and the error that came back, if
/// one did.
pub struct Report {
    pub event: TimedEvent,
    pub error: Option<ObserverError>,
}

/// Something that events are reported to.
///
/// A verified observer keeps its history in a ghost field, since the history is
/// a function of the observer's value.
pub trait Observer {
    /// What was reported to this observer so far, oldest first.  An observer
    /// that is not verified need not spell it out.
    closed spec fn history(&self) -> Seq<Report> {
        arbitrary::<spec_fn(&Self) -> Seq<Report>>()(self)
    }

    /// Whether this observer takes every event that is reported to it.  An
    /// observer that is not verified need not spell it out.
    closed spec fn reliable(&self) -> bool {
        arbitrary::<spec_fn(&Self) -> bool>()(self)
    }

    /// Reports `event`.
    fn log(&mut self, event: &TimedEvent) -> (result: Result<(), ObserverError>)
        ensures
            final(self).history() == old(self).history().push(
                Report { event: *event, error: result.err() },
            ),
            old(self).reliable() ==> result is Ok && final(self).reliable(),
    ;
}

/// Whether `after` is `before` with one more report, of `event`, from which
/// `error` came back.  No history stands for no observer, to which nothing is
/// reported and from which no error comes.
pub open spec fn reported(
    before: Option<Seq<Report>>,
    after: Option<Seq<Report>>,
    event: Event,
    error: Option<ObserverError>,
) -> bool {
    match (before, after) {
        (Some(earlier), Some(history)) => {
            &&& history.len() == earlier.len() + 1
            &&& history.drop_last() == earlier
            &&& history.last().event.spec_event() == event
            &&& history.last().error == error
        },
        (None, None) => error is None,
        _ => false,
    }
}

/// The book that an event log tells of: the orders and cancellations in it,
/// asked of an empty book, the oldest first.
pub open spec fn retold(history: Seq<Report>) -> BookView
    decreases history.len(),
{
    if history.len() == 0 {
        BookView::empty()
    } else {
        let earlier = retold(history.drop_last());
        match history.last().event.spec_event() {
            Event::New(order) => earlier.after(Request::Submit(order)),
            Event::Cancel { order_id } => earlier.after(Request::Cancel(order_id)),
            _ => earlier,
        }
    }
}

/// Whether `log` is `earlier` with what `book` reports of `request`: an accepted
/// order, a cancellation, or nothing.
pub open spec fn tells(
    book: BookView,
    request: Request,
    earlier: Seq<Report>,
    log: Seq<Report>,
) -> bool {
    match request {
        Request::Submit(order) => if book.refusal(order) is None {
            reported(Some(earlier), Some(log), Event::New(order), None)
        } else {
            log == earlier
        },
        Request::Cancel(id) => if book.side_of(id) is Some {
            reported(Some(earlier), Some(log), Event::Cancel { order_id: id }, None)
        } else {
            log == earlier
        },
    }
}

/// Whether `log` is an event log that an empty book leaves behind when all of
/// `requests` are asked of it, the first one first.
pub open spec fn logged(requests: Seq<Request>, log: Seq<Report>) -> bool
    decreases requests.len(),
{
    if requests.len() == 0 {
        log.len() == 0
    } else {
        exists|earlier: Seq<Report>|
            {
                &&& logged(requests.drop_last(), earlier)
                &&& #[trigger] tells(
                    BookView::empty().replay(requests.drop_last()),
                    requests.last(),
                    earlier,
                    log,
                )
            }
    }
}

/// Whether every new order in an event log has an identifier of its own, and
/// one among `seen`.
pub open spec fn unambiguous(history: Seq<Report>, seen: Set<OrderId>) -> bool {
    &&& forall|i: int|
        0 <= i < history.len() ==> ((#[trigger] history[i]).event.spec_event() matches Event::New(
            order,
        ) ==> seen.contains(order.id))
    &&& forall|i: int, j: int|
        0 <= i < j < history.len() ==> ((
        #[trigger] history[i]).event.spec_event() matches Event::New(a) ==> ((
        #[trigger] history[j]).event.spec_event() matches Event::New(b) ==> a.id != b.id))
}

/// An observer that keeps its events in a file.
pub trait FileObserver: Observer {

}

/// Reports each event to several observers, in turn.
pub struct MultiObserver<const NUM_OBSERVERS: usize> {
    observers: [Box<dyn Observer>; NUM_OBSERVERS],
    history: Ghost<Seq<Report>>,
}

/// Whether `after` is `before` with `event` reported to the first `told`
/// observers, who all took it, and to no other.
pub open spec fn taken_by_first(
    before: Seq<Box<dyn Observer>>,
    after: Seq<Box<dyn Observer>>,
    event: TimedEvent,
    told: int,
) -> bool {
    &&& after.len() == before.len()
    &&& forall|i: int|
        0 <= i < told ==> (#[trigger] after[i]).history() == before[i].history().push(
            Report { event, error: None },
        )
    &&& forall|i: int| told <= i < after.len() ==> (#[trigger] after[i]) == before[i]
}

/// Whether `after` is `before` with `event` reported up to the observer at
/// `told`, who answered with `error` after all before it took the event.
pub open spec fn refused_by(
    before: Seq<Box<dyn Observer>>,
    after: Seq<Box<dyn Observer>>,
    event: TimedEvent,
    told: int,
    error: ObserverError,
) -> bool {
    &&& after.len() == before.len()
    &&& forall|i: int|
        0 <= i < told ==> (#[trigger] after[i]).history() == before[i].history().push(
            Report { event, error: None },
        )
    &&& after[told].history() == before[told].history().push(
        Report { event, error: Some(error) },
    )
    &&& forall|i: int| told < i < after.len() ==> (#[trigger] after[i]) == before[i]
}

impl<const NUM: usize> MultiObserver<NUM> {
    /// The observers that events are passed on to.
    pub closed spec fn observers(&self) -> Seq<Box<dyn Observer>> {
        self.observers@
    }

    /// Reports to `observers`, the first one first.
    pub fn new(observers: [Box<dyn Observer>; NUM]) -> (multi: Self)
        ensures
            multi.observers() == observers@,
            multi.history() == Seq::<Report>::empty(),
            multi.reliable() <==> forall|i: int|
                0 <= i < NUM ==> (#[trigger] observers@[i]).reliable(),
    {
        MultiObserver { observers, history: Ghost(Seq::empty()) }
    }
}

impl<const NUM: usize> Observer for MultiObserver<NUM> {
    closed spec fn history(&self) -> Seq<Report> {
        self.history@
    }

    closed spec fn reliable(&self) -> bool {
        forall|i: int| 0 <= i < NUM ==> (#[trigger] self.observers@[i]).reliable()
    }

    /// Reports `event` to each observer in turn, up to the first that cannot
    /// take it, whose error is passed on.
    fn log(&mut self, event: &TimedEvent) -> (result: Result<(), ObserverError>)
        ensures
            match result {
                Ok(()) => taken_by_first(
                    old(self).observers(),
                    final(self).observers(),
                    *event,
                    NUM as int,
                ),
                Err(error) => exists|told: int|
                    0 <= told < NUM && #[trigger] refused_by(
                        old(self).observers(),
                        final(self).observers(),
                        *event,
                        told,
                        error,
                    ),
            },
    {
        let mut i: usize = 0;
        while i < NUM
            invariant
                0 <= i <= NUM,
                self.history@ == old(self).history@,
                taken_by_first(old(self).observers(), self.observers(), *event, i as int),
                old(self).reliable() ==> self.reliable(),
            decreases NUM - i,
        {
            match self.observers[i].log(event) {
                Ok(()) => {},
                Err(error) => {
                    self.history = Ghost(
                        self.history@.push(Report { event: *event, error: Some(error) }),
                    );
                    assert(refused_by(
                        old(self).observers(),
                        self.observers(),
                        *event,
                        i as int,
                        error,
                    ));
                    return Err(error);
                },
            }
            assert(taken_by_first(old(self).observers(), self.observers(), *event, i + 1));
            i = i + 1;
        }
        self.history = Ghost(self.history@.push(Report { event: *event, error: None }));
        Ok(())
    }
}

} // verus!
