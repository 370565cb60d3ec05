//! The event channel: a FIFO stream from many producers to one consumer.
//!
//! Actors push status events, the coordinator pushes one termination
//! sentinel after all actors have finished, and the consumer drains messages
//! in exactly the order they entered the channel. Delivery is a total order
//! at the sink: the queue view records every message in arrival order, so a
//! single producer's messages are received in its own send order.

use crate::actor::Phase;
use crate::actor::phase_text;
use crate::actor::phase_text_spec;
use vstd::prelude::*;

verus! {

/// One status message: actor `who`, under its display `name`, has entered
/// lifecycle phase `phase`.
#[derive(Clone, Debug)]
pub struct Event {
    pub who: usize,
    pub name: String,
    pub phase: Phase,
}

impl Event {
    /// Renders the event as a report line, `"<name> is <phase text>."`.
    pub fn line(&self) -> (r: String)
        ensures
            r@ == self.name@ + phase_text_spec(self.phase),
    {
        let mut r = String::from_str(self.name.as_str());
        r.append(phase_text(self.phase));
        r
    }
}

/// A channel message: either a real status event or the termination
/// sentinel that marks the end of the stream.
#[derive(Clone, Debug)]
pub enum Message {
    Event(Event),
    Sentinel,
}

/// The status events of `q`, in order, with any sentinels left out.
pub open spec fn events_seq(q: Seq<Message>) -> Seq<Event>
    decreases q.len(),
{
    if q.len() == 0 {
        Seq::empty()
    } else {
        let r = events_seq(q.drop_last());
        match q.last() {
            Message::Event(e) => r.push(e),
            Message::Sentinel => r,
        }
    }
}

/// Whether `q` holds no sentinel, as is the case while actors are running:
/// the sentinel is sent exactly once, after every actor has finished.
pub open spec fn no_sentinel(q: Seq<Message>) -> bool {
    forall|k: int| 0 <= k < q.len() ==> q[k] is Event
}

/// Whether some message of `q` is the sentinel.
pub open spec fn has_sentinel(q: Seq<Message>) -> bool {
    exists|k: int| 0 <= k < q.len() && q[k] is Sentinel
}

/// The events that precede the first sentinel of `q`: exactly what a drain
/// of the channel delivers.
pub open spec fn report_of(q: Seq<Message>) -> Seq<Event>
    decreases q.len(),
{
    if q.len() == 0 {
        Seq::empty()
    } else {
        match q.first() {
            Message::Sentinel => Seq::empty(),
            Message::Event(e) => seq![e] + report_of(q.drop_first()),
        }
    }
}

/// What remains of `q` after the first sentinel: exactly what a drain of
/// the channel leaves behind, unprocessed.
pub open spec fn rest_of(q: Seq<Message>) -> Seq<Message>
    decreases q.len(),
{
    if q.len() == 0 {
        Seq::empty()
    } else {
        match q.first() {
            Message::Sentinel => q.drop_first(),
            Message::Event(e) => rest_of(q.drop_first()),
        }
    }
}

/// Appending a status event appends it to the event projection.
pub proof fn lemma_events_seq_push_event(q: Seq<Message>, e: Event)
    ensures
        events_seq(q.push(Message::Event(e))) == events_seq(q).push(e),
{
    assert(q.push(Message::Event(e)).drop_last() =~= q);
}

/// For a stream of events closed by a single sentinel, the drained report is
/// all of the events and nothing remains after the sentinel.
pub proof fn lemma_report_of_closed_stream(q: Seq<Message>)
    requires
        no_sentinel(q),
    ensures
        report_of(q.push(Message::Sentinel)) == events_seq(q),
        rest_of(q.push(Message::Sentinel)) =~= Seq::<Message>::empty(),
    decreases q.len(),
{
    let qs = q.push(Message::Sentinel);
    if q.len() == 0 {
        assert(qs.first() is Sentinel);
        assert(qs.drop_first() =~= Seq::<Message>::empty());
    } else {
        let q1 = q.drop_first();
        lemma_report_of_closed_stream(q1);
        assert(qs.drop_first() =~= q1.push(Message::Sentinel));
        lemma_events_seq_first(q);
        assert(report_of(qs) == seq![q.first()->Event_0] + events_seq(q1));
    }
}

/// The event projection can also be unrolled from the front.
pub proof fn lemma_events_seq_first(q: Seq<Message>)
    requires
        q.len() > 0,
        q.first() is Event,
    ensures
        events_seq(q) == seq![q.first()->Event_0] + events_seq(q.drop_first()),
    decreases q.len(),
{
    if q.len() == 1 {
        assert(q.drop_last() =~= Seq::<Message>::empty());
        assert(q.drop_first() =~= Seq::<Message>::empty());
        assert(events_seq(q) =~= seq![q.first()->Event_0] + events_seq(q.drop_first()));
    } else {
        let ql = q.drop_last();
        lemma_events_seq_first(ql);
        assert(q.drop_first().drop_last() =~= ql.drop_first());
        match q.last() {
            Message::Event(e) => {
                assert(events_seq(q) == events_seq(ql).push(e));
                assert(events_seq(q.drop_first()) == events_seq(ql.drop_first()).push(e));
                assert(events_seq(q) =~= seq![q.first()->Event_0] + events_seq(q.drop_first()));
            },
            Message::Sentinel => {
                assert(events_seq(q) == events_seq(ql));
                assert(events_seq(q.drop_first()) == events_seq(ql.drop_first()));
                assert(events_seq(q) =~= seq![q.first()->Event_0] + events_seq(q.drop_first()));
            },
        }
    }
}

/// A property of every event of a stream carries over to its event
/// projection.
pub proof fn lemma_events_seq_all(q: Seq<Message>, p: spec_fn(Event) -> bool)
    requires
        forall|k: int| 0 <= k < q.len() ==> ((#[trigger] q[k]) matches Message::Event(e) ==> p(e)),
    ensures
        forall|k: int| 0 <= k < events_seq(q).len() ==> p(#[trigger] events_seq(q)[k]),
    decreases q.len(),
{
    if q.len() > 0 {
        let ql = q.drop_last();
        assert forall|k: int|
            0 <= k < ql.len() implies ((#[trigger] ql[k]) matches Message::Event(e) ==> p(
                e,
            )) by {
            assert(ql[k] == q[k]);
        }
        lemma_events_seq_all(ql, p);
        assert forall|k: int| 0 <= k < events_seq(q).len() implies p(
            #[trigger] events_seq(q)[k],
        ) by {
            match q.last() {
                Message::Event(e) => {
                    assert(events_seq(q) == events_seq(ql).push(e));
                    if k < events_seq(ql).len() {
                        assert(events_seq(q)[k] == events_seq(ql)[k]);
                    } else {
                        assert(q[q.len() - 1] == q.last());
                        assert(p(e));
                    }
                },
                Message::Sentinel => {
                    assert(events_seq(q) == events_seq(ql));
                },
            }
        }
    }
}

/// The channel itself. The view is the queue of messages that have been
/// sent and not yet received, first to be received first.
pub struct EventChannel {
    queue: Vec<Message>,
}

impl View for EventChannel {
    type V = Seq<Message>;

    closed spec fn view(&self) -> Seq<Message> {
        self.queue@
    }
}

impl EventChannel {
    /// Builds an empty channel.
    pub fn new() -> (c: EventChannel)
        ensures
            c@ =~= Seq::<Message>::empty(),
    {
        EventChannel { queue: Vec::new() }
    }

    /// The number of messages waiting in the channel.
    pub fn len(&self) -> (n: usize)
        ensures
            n == self@.len(),
    {
        self.queue.len()
    }

    /// Sends a status event: it joins the back of the queue. Sending never
    /// blocks and never fails; the queue simply grows.
    pub fn send_event(&mut self, e: Event)
        ensures
            final(self)@ == old(self)@.push(Message::Event(e)),
    {
        self.queue.push(Message::Event(e));
    }

    /// Sends the termination sentinel: it joins the back of the queue, after
    /// every message sent before it.
    pub fn send_sentinel(&mut self)
        ensures
            final(self)@ == old(self)@.push(Message::Sentinel),
    {
        self.queue.push(Message::Sentinel);
    }

    /// The consumer's drain loop: receives message after message, in
    /// arrival order, into the report, and stops at the first sentinel.
    /// The report is exactly the events that preceded that sentinel;
    /// whatever was sent after it stays in the channel, unprocessed.
    pub fn drain(&mut self) -> (report: Vec<Event>)
        requires
            has_sentinel(old(self)@),
        ensures
            report@ == report_of(old(self)@),
            final(self)@ == rest_of(old(self)@),
    {
        let ghost q0 = self@;
        let mut report: Vec<Event> = Vec::new();
        loop
            invariant_except_break
                has_sentinel(self@),
                report@ + report_of(self@) == report_of(q0),
                rest_of(self@) == rest_of(q0),
            ensures
                report@ == report_of(q0),
                self@ == rest_of(q0),
            decreases self@.len(),
        {
            proof {
                let w = choose|k: int| 0 <= k < self@.len() && self@[k] is Sentinel;
                assert(self@.len() > 0);
            }
            let ghost qcur = self@;
            let m = self.recv();
            match m {
                Message::Sentinel => {
                    break ;
                },
                Message::Event(e) => {
                    report.push(e);
                    proof {
                        let w = choose|k: int| 0 <= k < qcur.len() && qcur[k] is Sentinel;
                        assert(0 <= w - 1 < self@.len() && self@[w - 1] is Sentinel);
                        assert(report@ + report_of(self@) =~= report_of(q0));
                    }
                },
            }
        }
        report
    }

    /// Receives the oldest waiting message: delivery is first-in, first-out
    /// across all producers.
    pub fn recv(&mut self) -> (m: Message)
        requires
            old(self)@.len() > 0,
        ensures
            m == old(self)@.first(),
            final(self)@ == old(self)@.drop_first(),
    {
        let m = self.queue.remove(0);
        proof {
            assert(self@ =~= old(self)@.drop_first());
        }
        m
    }
}

} // verus!
