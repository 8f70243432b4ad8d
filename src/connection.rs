use vstd::prelude::*;

use crate::bytes::copy_range;
use crate::client_id::ClientID;
use crate::handshake::{accept_of, handshake, head, response_bytes, Handshake, Head};
use crate::message::{decode, Decoded, FrameRead, Message};

verus! {

/// What the application is told of each connection, one call at a time.
pub trait Events {
    fn on_connect(&mut self, client_id: ClientID);

    fn on_message(&mut self, client_id: ClientID, message: Message);

    fn on_disconnect(&mut self, client_id: ClientID);
}

/// Why a connection ended.
#[derive(Debug, Copy, Clone, PartialEq, Eq, Structural)]
pub enum EndReason {
    /// The peer sent a final close frame.
    PeerClosed,
    /// The peer sent a message with no payload.
    EmptyMessage,
    /// The request head ended without a key line.
    MissingKey,
    /// A frame header named no opcode.
    BadOpcode,
    /// A frame declared a length beyond what this machine can buffer.
    TooLong,
    /// The stream ended before the next message was whole.
    InputEnded,
    /// Reading from the stream failed.
    ReadFailed,
}

impl EndReason {
    pub open spec fn spec_is_error(self) -> bool {
        !(self is PeerClosed || self is EmptyMessage)
    }

    /// Whether the connection ended on an error rather than by the peer's
    /// choice.
    pub fn is_error(&self) -> (r: bool)
        ensures
            r == self.spec_is_error(),
    {
        match self {
            EndReason::PeerClosed => false,
            EndReason::EmptyMessage => false,
            _ => true,
        }
    }
}

/// Where a connection stands.
#[derive(Debug, Copy, Clone, PartialEq, Eq, Structural)]
pub enum Phase {
    /// Waiting for the end of the upgrade request.
    Handshaking,
    /// Upgraded: reading messages.
    Open,
    /// Ended; nothing more happens.
    Closed,
}

/// What the connection asks of its driver next.
pub enum Step {
    /// Read more bytes from the peer and `push` them.
    NeedBytes,
    /// Send these bytes (the upgrade response), start the outbound side, and
    /// report the connection.
    Reply(Vec<u8>),
    /// Hand this message to the application.
    Deliver(Message),
    /// Take the peer out of the registry and report its departure.
    Disconnect(EndReason),
    /// The connection has ended already.
    Finished,
}

/// A `Step` with its bytes as sequences.
pub enum StepView {
    NeedBytes,
    Reply(Seq<u8>),
    Deliver(Seq<u8>),
    Disconnect(EndReason),
    Finished,
}

impl View for Step {
    type V = StepView;

    open spec fn view(&self) -> StepView {
        match self {
            Step::NeedBytes => StepView::NeedBytes,
            Step::Reply(b) => StepView::Reply(b@),
            Step::Deliver(m) => StepView::Deliver(m.data@),
            Step::Disconnect(e) => StepView::Disconnect(*e),
            Step::Finished => StepView::Finished,
        }
    }
}

/// The next step from a phase and the bytes not yet consumed, with the phase
/// and bytes that follow it.
pub open spec fn poll_spec(phase: Phase, buf: Seq<u8>) -> (Phase, Seq<u8>, StepView) {
    match phase {
        Phase::Handshaking => match head(buf) {
            Head::Incomplete => (Phase::Handshaking, buf, StepView::NeedBytes),
            Head::Complete(None, _) => (
                Phase::Closed,
                Seq::empty(),
                StepView::Disconnect(EndReason::MissingKey),
            ),
            Head::Complete(Some(k), c) => (
                Phase::Open,
                buf.subrange(c as int, buf.len() as int),
                StepView::Reply(response_bytes(accept_of(k))),
            ),
        },
        Phase::Open => match decode(buf) {
            Decoded::Need(n) => if n <= usize::MAX {
                (Phase::Open, buf, StepView::NeedBytes)
            } else {
                (Phase::Closed, Seq::empty(), StepView::Disconnect(EndReason::TooLong))
            },
            Decoded::Complete(m, e) => if m.len() == 0 {
                (Phase::Closed, Seq::empty(), StepView::Disconnect(EndReason::EmptyMessage))
            } else {
                (Phase::Open, buf.subrange(e as int, buf.len() as int), StepView::Deliver(m))
            },
            Decoded::Closed(_) => (
                Phase::Closed,
                Seq::empty(),
                StepView::Disconnect(EndReason::PeerClosed),
            ),
            Decoded::BadOpcode => (
                Phase::Closed,
                Seq::empty(),
                StepView::Disconnect(EndReason::BadOpcode),
            ),
        },
        Phase::Closed => (Phase::Closed, buf, StepView::Finished),
    }
}

/// What drives a connection: a poll for its next step, bytes read from the
/// peer, or the end of the read side (`true` where a read failed).
pub enum Event {
    Poll,
    Push(Seq<u8>),
    End(bool),
}

/// One event applied to a phase and its pending bytes: the new phase and
/// bytes, and the step it yields, if any.
pub open spec fn on_event(phase: Phase, buf: Seq<u8>, e: Event) -> (Phase, Seq<u8>, Option<StepView>) {
    match e {
        Event::Poll => {
            let (p, b, v) = poll_spec(phase, buf);
            (p, b, Some(v))
        },
        Event::Push(bytes) => if phase == Phase::Closed {
            (phase, buf, None)
        } else {
            (phase, buf + bytes, None)
        },
        Event::End(failed) => if phase == Phase::Closed {
            (phase, buf, Some(StepView::Finished))
        } else {
            (
                Phase::Closed,
                Seq::empty(),
                Some(
                    StepView::Disconnect(
                        if failed {
                            EndReason::ReadFailed
                        } else {
                            EndReason::InputEnded
                        },
                    ),
                ),
            )
        },
    }
}

/// How many `Disconnect` steps a run of events yields.
pub open spec fn disconnects(phase: Phase, buf: Seq<u8>, events: Seq<Event>) -> nat
    decreases events.len(),
{
    if events.len() == 0 {
        0
    } else {
        let (p, b, out) = on_event(phase, buf, events[0]);
        (if out matches Some(StepView::Disconnect(_)) {
            1nat
        } else {
            0nat
        }) + disconnects(p, b, events.drop_first())
    }
}

proof fn lemma_step_closes(phase: Phase, buf: Seq<u8>, e: Event)
    ensures
        ({
            let (p, b, out) = on_event(phase, buf, e);
            &&& out matches Some(StepView::Disconnect(_)) ==> phase != Phase::Closed && p
                == Phase::Closed
            &&& phase == Phase::Closed ==> p == Phase::Closed
        }),
{
}

/// An ended connection stays ended and reports no further departure.
pub proof fn lemma_closed_stays_silent(buf: Seq<u8>, events: Seq<Event>)
    ensures
        disconnects(Phase::Closed, buf, events) == 0,
    decreases events.len(),
{
    if events.len() > 0 {
        let (p, b, out) = on_event(Phase::Closed, buf, events[0]);
        lemma_step_closes(Phase::Closed, buf, events[0]);
        lemma_closed_stays_silent(b, events.drop_first());
    }
}

/// Whatever happens, a connection reports its departure at most once.
pub proof fn lemma_disconnect_at_most_once(phase: Phase, buf: Seq<u8>, events: Seq<Event>)
    ensures
        disconnects(phase, buf, events) <= 1,
    decreases events.len(),
{
    if events.len() > 0 {
        let (p, b, out) = on_event(phase, buf, events[0]);
        lemma_step_closes(phase, buf, events[0]);
        if out matches Some(StepView::Disconnect(_)) {
            lemma_closed_stays_silent(b, events.drop_first());
        } else {
            lemma_disconnect_at_most_once(p, b, events.drop_first());
        }
    }
}

/// A live connection whose read side ends, at any point of a run of events,
/// reports its departure exactly once in that run.
pub proof fn lemma_disconnect_exactly_once(phase: Phase, buf: Seq<u8>, events: Seq<Event>)
    requires
        phase != Phase::Closed,
        exists|i: int| 0 <= i < events.len() && events[i] is End,
    ensures
        disconnects(phase, buf, events) == 1,
    decreases events.len(),
{
    let (p, b, out) = on_event(phase, buf, events[0]);
    lemma_step_closes(phase, buf, events[0]);
    if out matches Some(StepView::Disconnect(_)) {
        lemma_closed_stays_silent(b, events.drop_first());
    } else {
        let i = choose|i: int| 0 <= i < events.len() && events[i] is End;
        assert(i > 0);
        assert(events.drop_first()[i - 1] is End);
        lemma_disconnect_exactly_once(p, b, events.drop_first());
    }
}

/// An open connection that holds part of a frame when its stream ends: the
/// poll asks for more bytes, the end yields a departure on an error, and the
/// run reports exactly one departure whatever follows.
pub proof fn lemma_truncation_ends_once(buf: Seq<u8>, rest: Seq<Event>)
    requires
        decode(buf) matches Decoded::Need(n) && n <= usize::MAX,
    ensures
        ({
            let (p1, b1, out1) = on_event(Phase::Open, buf, Event::Poll);
            let (p2, b2, out2) = on_event(p1, b1, Event::End(false));
            &&& out1 == Some(StepView::NeedBytes)
            &&& out2 == Some(StepView::Disconnect(EndReason::InputEnded))
            &&& EndReason::InputEnded.spec_is_error()
            &&& p2 == Phase::Closed
        }),
        disconnects(Phase::Open, buf, seq![Event::Poll, Event::End(false)] + rest) == 1,
{
    let events = seq![Event::Poll, Event::End(false)] + rest;
    assert(events[1] is End);
    lemma_disconnect_exactly_once(Phase::Open, buf, events);
}

/// One connection's protocol state: its identifier, its phase and the bytes
/// received and not yet consumed.
pub struct Connection {
    id: ClientID,
    phase: Phase,
    buf: Vec<u8>,
}

impl Connection {
    pub closed spec fn client(&self) -> ClientID {
        self.id
    }

    pub closed spec fn spec_phase(&self) -> Phase {
        self.phase
    }

    /// The bytes received and not yet consumed.
    pub closed spec fn pending(&self) -> Seq<u8> {
        self.buf@
    }

    /// A connection just accepted: waiting for its upgrade request.
    pub fn new(id: ClientID) -> (r: Self)
        ensures
            r.client() == id,
            r.spec_phase() == Phase::Handshaking,
            r.pending() == Seq::<u8>::empty(),
    {
        Connection { id, phase: Phase::Handshaking, buf: Vec::new() }
    }

    pub fn id(&self) -> (r: ClientID)
        ensures
            r == self.client(),
    {
        self.id
    }

    pub fn phase(&self) -> (r: Phase)
        ensures
            r == self.spec_phase(),
    {
        self.phase
    }

    /// Takes bytes read from the peer; an ended connection ignores them.
    pub fn push(&mut self, bytes: &[u8])
        ensures
            final(self).client() == old(self).client(),
            (final(self).spec_phase(), final(self).pending(), None::<StepView>) == on_event(
                old(self).spec_phase(),
                old(self).pending(),
                Event::Push(bytes@),
            ),
    {
        if self.phase != Phase::Closed {
            crate::bytes::append(&mut self.buf, bytes);
        }
    }

    /// The read side ended, by end of stream or (where `failed`) by a read
    /// error: a live connection ends and reports its departure.
    pub fn end_input(&mut self, failed: bool) -> (r: Step)
        ensures
            final(self).client() == old(self).client(),
            (final(self).spec_phase(), final(self).pending(), Some(r@)) == on_event(
                old(self).spec_phase(),
                old(self).pending(),
                Event::End(failed),
            ),
    {
        if self.phase == Phase::Closed {
            return Step::Finished;
        }
        self.phase = Phase::Closed;
        self.buf = Vec::new();
        if failed {
            Step::Disconnect(EndReason::ReadFailed)
        } else {
            Step::Disconnect(EndReason::InputEnded)
        }
    }

    fn close(&mut self, reason: EndReason) -> (r: Step)
        ensures
            final(self).client() == old(self).client(),
            final(self).spec_phase() == Phase::Closed,
            final(self).pending() == Seq::<u8>::empty(),
            r@ == StepView::Disconnect(reason),
    {
        self.phase = Phase::Closed;
        self.buf = Vec::new();
        Step::Disconnect(reason)
    }

    /// Decides the next step from the bytes received so far: the upgrade
    /// response once the request head is whole, then one message at a time,
    /// and the departure when the peer closes or breaks the protocol.
    pub fn poll(&mut self) -> (r: Step)
        ensures
            final(self).client() == old(self).client(),
            (final(self).spec_phase(), final(self).pending(), r@) == poll_spec(
                old(self).spec_phase(),
                old(self).pending(),
            ),
    {
        match self.phase {
            Phase::Handshaking => match handshake(self.buf.as_slice()) {
                Handshake::Incomplete => Step::NeedBytes,
                Handshake::MissingKey(_) => self.close(EndReason::MissingKey),
                Handshake::Accepted(resp, c) => {
                    self.buf = copy_range(self.buf.as_slice(), c, self.buf.len());
                    self.phase = Phase::Open;
                    Step::Reply(resp)
                },
            },
            Phase::Open => match Message::read(self.buf.as_slice()) {
                FrameRead::Need(_) => Step::NeedBytes,
                FrameRead::TooLong => self.close(EndReason::TooLong),
                FrameRead::Complete(m, e) => {
                    if m.data.len() == 0 {
                        self.close(EndReason::EmptyMessage)
                    } else {
                        self.buf = copy_range(self.buf.as_slice(), e, self.buf.len());
                        Step::Deliver(m)
                    }
                },
                FrameRead::Closed(_) => self.close(EndReason::PeerClosed),
                FrameRead::BadOpcode => self.close(EndReason::BadOpcode),
            },
            Phase::Closed => Step::Finished,
        }
    }
}

} // verus!
