//! One bridged TCP connection: what to do next with the bytes between a stack socket
//! and the task at its other end.
use crate::bytes::copy_range;
use vstd::prelude::*;

verus! {

/// Per-connection state. `pending` holds at most one chunk of bytes for the stack
/// socket that did not fit in its send buffer yet, so no more is pulled from the
/// other end than the stack can accept (backpressure).
#[derive(Debug)]
pub struct Bridge {
    pending: Vec<u8>,
    done: bool,
}

/// What pulling from the other end gave.
#[derive(Debug)]
pub enum Pulled {
    Chunk(Vec<u8>),
    Empty,
    Disconnected,
}

/// What has happened.
#[derive(Debug)]
pub enum BridgeEvent {
    /// A pass over the connection begins.
    Begin,
    /// Whether the other end has room for a chunk.
    Reserved(bool),
    /// The bytes that the stack socket had; empty where it had none.
    Received(Vec<u8>),
    /// The chunk has been handed to the other end.
    Forwarded,
    Pulled(Pulled),
    /// The stack socket has taken this many bytes.
    Flushed(usize),
    /// The stack socket has been closed for sending, if it was open.
    Closed,
    /// Whether the stack socket is open.
    Open(bool),
}

/// What to do next.
#[derive(Debug)]
pub enum BridgeAction {
    /// Ask whether the other end has room for a chunk.
    Reserve,
    /// Take bytes from the stack socket.
    Receive,
    /// Hand this chunk to the other end.
    Forward(Vec<u8>),
    /// Pull a chunk from the other end.
    Pull,
    /// Offer these bytes to the stack socket.
    Flush(Vec<u8>),
    /// Send FIN on the stack socket, if it is open.
    Close,
    /// Ask whether the stack socket is open.
    AskOpen,
    /// Drop the bridge and free the socket.
    Reap,
    /// The pass is over.
    Rest,
}

// ---------------------------------------------------------------------------
// Specifications
// ---------------------------------------------------------------------------
/// The content of a [`Bridge`].
pub struct BridgeView {
    pub pending: Seq<u8>,
    pub done: bool,
}

/// The content of a [`Pulled`].
pub enum PulledView {
    Chunk(Seq<u8>),
    Empty,
    Disconnected,
}

/// The content of a [`BridgeEvent`].
pub enum EventView {
    Begin,
    Reserved(bool),
    Received(Seq<u8>),
    Forwarded,
    Pulled(PulledView),
    Flushed(nat),
    Closed,
    Open(bool),
}

/// The content of a [`BridgeAction`].
pub enum ActionView {
    Reserve,
    Receive,
    Forward(Seq<u8>),
    Pull,
    Flush(Seq<u8>),
    Close,
    AskOpen,
    Reap,
    Rest,
}

impl View for Bridge {
    type V = BridgeView;

    closed spec fn view(&self) -> BridgeView {
        BridgeView { pending: self.pending@, done: self.done }
    }
}

impl View for Pulled {
    type V = PulledView;

    open spec fn view(&self) -> PulledView {
        match self {
            Pulled::Chunk(d) => PulledView::Chunk(d@),
            Pulled::Empty => PulledView::Empty,
            Pulled::Disconnected => PulledView::Disconnected,
        }
    }
}

impl View for BridgeEvent {
    type V = EventView;

    open spec fn view(&self) -> EventView {
        match self {
            BridgeEvent::Begin => EventView::Begin,
            BridgeEvent::Reserved(ok) => EventView::Reserved(*ok),
            BridgeEvent::Received(c) => EventView::Received(c@),
            BridgeEvent::Forwarded => EventView::Forwarded,
            BridgeEvent::Pulled(p) => EventView::Pulled(p@),
            BridgeEvent::Flushed(n) => EventView::Flushed(*n as nat),
            BridgeEvent::Closed => EventView::Closed,
            BridgeEvent::Open(open) => EventView::Open(*open),
        }
    }
}

impl View for BridgeAction {
    type V = ActionView;

    open spec fn view(&self) -> ActionView {
        match self {
            BridgeAction::Reserve => ActionView::Reserve,
            BridgeAction::Receive => ActionView::Receive,
            BridgeAction::Forward(c) => ActionView::Forward(c@),
            BridgeAction::Pull => ActionView::Pull,
            BridgeAction::Flush(b) => ActionView::Flush(b@),
            BridgeAction::Close => ActionView::Close,
            BridgeAction::AskOpen => ActionView::AskOpen,
            BridgeAction::Reap => ActionView::Reap,
            BridgeAction::Rest => ActionView::Rest,
        }
    }
}

/// Once nothing is left to flush: FIN when the other end has finished, then see
/// whether the socket is still open.
pub open spec fn wind_up(b: BridgeView) -> ActionView {
    if b.done && b.pending.len() == 0 {
        ActionView::Close
    } else {
        ActionView::AskOpen
    }
}

/// After pulling: flush what is pending.
pub open spec fn flush(b: BridgeView) -> ActionView {
    if b.pending.len() > 0 {
        ActionView::Flush(b.pending)
    } else {
        wind_up(b)
    }
}

/// After the inbound direction: pull only when the previous chunk is fully flushed.
pub open spec fn outbound(b: BridgeView) -> ActionView {
    if b.pending.len() == 0 {
        ActionView::Pull
    } else {
        ActionView::Flush(b.pending)
    }
}

/// What a pulled chunk or its absence makes of the bridge.
pub open spec fn pulled(b: BridgeView, p: PulledView) -> BridgeView {
    match p {
        PulledView::Chunk(d) => BridgeView { pending: d, ..b },
        PulledView::Empty => b,
        PulledView::Disconnected => BridgeView { done: true, ..b },
    }
}

/// The event can happen: a chunk is pulled only while none is pending, and no more is
/// flushed than is pending.
pub open spec fn possible(b: BridgeView, ev: EventView) -> bool {
    match ev {
        EventView::Pulled(_) => b.pending.len() == 0,
        EventView::Flushed(n) => n <= b.pending.len(),
        _ => true,
    }
}

/// What an event does: the bridge after it, and what to do next.
pub open spec fn stepped(b: BridgeView, ev: EventView) -> (BridgeView, ActionView) {
    match ev {
        EventView::Begin => (b, ActionView::Reserve),
        EventView::Reserved(ok) => if ok {
            (b, ActionView::Receive)
        } else {
            (b, outbound(b))
        },
        EventView::Received(c) => if c.len() > 0 {
            (b, ActionView::Forward(c))
        } else {
            (b, outbound(b))
        },
        EventView::Forwarded => (b, ActionView::Reserve),
        EventView::Pulled(p) => (pulled(b, p), flush(pulled(b, p))),
        EventView::Flushed(n) => {
            let after = BridgeView { pending: b.pending.skip(n as int), ..b };
            (after, wind_up(after))
        },
        EventView::Closed => (b, ActionView::AskOpen),
        EventView::Open(open) => if open {
            (b, ActionView::Rest)
        } else {
            (b, ActionView::Reap)
        },
    }
}

// ---------------------------------------------------------------------------
// Executable functions
// ---------------------------------------------------------------------------
impl Bridge {
    pub fn new() -> (r: Self)
        ensures
            r@ == (BridgeView { pending: Seq::empty(), done: false }),
    {
        Bridge { pending: Vec::new(), done: false }
    }

    fn pending_bytes(&self) -> (r: Vec<u8>)
        ensures
            r@ == self@.pending,
    {
        let n: usize = self.pending.len();
        let r = copy_range(self.pending.as_slice(), 0, n);
        assert(r@ =~= self@.pending);
        r
    }

    fn wind_up(&self) -> (r: BridgeAction)
        ensures
            r@ == wind_up(self@),
    {
        if self.done && self.pending.len() == 0 {
            BridgeAction::Close
        } else {
            BridgeAction::AskOpen
        }
    }

    fn flush(&self) -> (r: BridgeAction)
        ensures
            r@ == flush(self@),
    {
        if self.pending.len() > 0 {
            BridgeAction::Flush(self.pending_bytes())
        } else {
            self.wind_up()
        }
    }

    fn outbound(&self) -> (r: BridgeAction)
        ensures
            r@ == outbound(self@),
    {
        if self.pending.len() == 0 {
            BridgeAction::Pull
        } else {
            BridgeAction::Flush(self.pending_bytes())
        }
    }

    /// Takes an event in; returns what to do next.
    pub fn step(&mut self, ev: BridgeEvent) -> (r: BridgeAction)
        requires
            possible(old(self)@, ev@),
        ensures
            (final(self)@, r@) == stepped(old(self)@, ev@),
    {
        match ev {
            BridgeEvent::Begin => BridgeAction::Reserve,
            BridgeEvent::Reserved(ok) => if ok {
                BridgeAction::Receive
            } else {
                self.outbound()
            },
            BridgeEvent::Received(c) => if c.len() > 0 {
                BridgeAction::Forward(c)
            } else {
                self.outbound()
            },
            BridgeEvent::Forwarded => BridgeAction::Reserve,
            BridgeEvent::Pulled(p) => {
                match p {
                    Pulled::Chunk(d) => {
                        self.pending = d;
                    },
                    Pulled::Empty => {},
                    Pulled::Disconnected => {
                        self.done = true;
                    },
                }
                self.flush()
            },
            BridgeEvent::Flushed(n) => {
                let len: usize = self.pending.len();
                let rest = copy_range(self.pending.as_slice(), n, len);
                assert(rest@ =~= self@.pending.skip(n as int));
                self.pending = rest;
                self.wind_up()
            },
            BridgeEvent::Closed => BridgeAction::AskOpen,
            BridgeEvent::Open(open) => if open {
                BridgeAction::Rest
            } else {
                BridgeAction::Reap
            },
        }
    }
}

// ---------------------------------------------------------------------------
// Laws
// ---------------------------------------------------------------------------
/// The bridge after some events.
pub open spec fn after(b: BridgeView, evs: Seq<EventView>) -> BridgeView
    decreases evs.len(),
{
    if evs.len() == 0 {
        b
    } else {
        stepped(after(b, evs.drop_last()), evs.last()).0
    }
}

/// Each of some events can happen after those before it.
pub open spec fn all_possible(b: BridgeView, evs: Seq<EventView>) -> bool
    decreases evs.len(),
{
    evs.len() > 0 ==> all_possible(b, evs.drop_last()) && possible(
        after(b, evs.drop_last()),
        evs.last(),
    )
}

/// The bytes that some events pulled from the other end, in order.
pub open spec fn bytes_pulled(evs: Seq<EventView>) -> Seq<u8>
    decreases evs.len(),
{
    if evs.len() == 0 {
        seq![]
    } else {
        let before = bytes_pulled(evs.drop_last());
        match evs.last() {
            EventView::Pulled(PulledView::Chunk(d)) => before + d,
            _ => before,
        }
    }
}

/// The bytes that the stack socket took during some events, in order.
pub open spec fn bytes_flushed(b: BridgeView, evs: Seq<EventView>) -> Seq<u8>
    decreases evs.len(),
{
    if evs.len() == 0 {
        seq![]
    } else {
        let before = bytes_flushed(b, evs.drop_last());
        match evs.last() {
            EventView::Flushed(n) => before + after(b, evs.drop_last()).pending.take(n as int),
            _ => before,
        }
    }
}

/// No byte from the other end is lost, repeated or reordered: what the stack socket
/// took, followed by what is pending, is what was pending at first followed by what
/// was pulled.
pub proof fn law_bytes_are_conserved(b: BridgeView, evs: Seq<EventView>)
    requires
        all_possible(b, evs),
    ensures
        bytes_flushed(b, evs) + after(b, evs).pending == b.pending + bytes_pulled(evs),
    decreases evs.len(),
{
    if evs.len() > 0 {
        let most = evs.drop_last();
        law_bytes_are_conserved(b, most);
        let mid = after(b, most);
        match evs.last() {
            EventView::Flushed(n) => {
                assert(mid.pending.take(n as int) + mid.pending.skip(n as int) =~= mid.pending);
                assert(bytes_flushed(b, evs) + after(b, evs).pending =~= bytes_flushed(b, most)
                    + mid.pending);
            },
            EventView::Pulled(PulledView::Chunk(d)) => {
                assert(bytes_flushed(b, most) + mid.pending =~= bytes_flushed(b, most));
                assert(b.pending + bytes_pulled(evs) =~= (b.pending + bytes_pulled(most)) + d);
            },
            _ => {},
        }
    } else {
        assert(bytes_flushed(b, evs) + b.pending =~= b.pending + bytes_pulled(evs));
    }
}

/// What the stack socket had goes to the other end unchanged, and nothing else does.
pub proof fn law_received_is_forwarded(b: BridgeView, ev: EventView)
    ensures
        stepped(b, ev).1 matches ActionView::Forward(c) ==> ev == EventView::Received(c),
        ev matches EventView::Received(c) ==> c.len() > 0 ==> stepped(b, ev).1
            == ActionView::Forward(c),
{
}

/// FIN is sent only when the other end has finished and all its bytes are flushed; a
/// chunk is pulled only when none is pending.
pub proof fn law_close_and_pull_wait_for_flush(b: BridgeView, ev: EventView)
    ensures
        stepped(b, ev).1 is Close ==> stepped(b, ev).0.done && stepped(b, ev).0.pending.len() == 0,
        stepped(b, ev).1 is Pull ==> stepped(b, ev).0.pending.len() == 0,
{
}

/// The other end stays finished once it has finished.
pub proof fn law_finished_stays(b: BridgeView, ev: EventView)
    requires
        b.done,
    ensures
        stepped(b, ev).0.done,
{
}

/// A bridge whose socket is open is kept; one whose socket has closed is dropped.
pub proof fn law_reaped_when_closed(b: BridgeView, ev: EventView)
    ensures
        stepped(b, ev).1 is Reap <==> ev == EventView::Open(false),
{
}

/// What is offered to the stack socket is all that is pending, from its first byte, and
/// never nothing.
pub proof fn law_offered_is_what_is_pending(b: BridgeView, ev: EventView)
    ensures
        stepped(b, ev).1 matches ActionView::Flush(x) ==> x == stepped(b, ev).0.pending && x.len()
            > 0,
{
}

/// The event answers what was asked: a chunk is pulled, bytes are taken or received only
/// where this was asked for, and no more is taken than was offered.
pub open spec fn answers(asked: ActionView, ev: EventView) -> bool {
    match ev {
        EventView::Begin => true,
        EventView::Reserved(_) => asked is Reserve,
        EventView::Received(_) => asked is Receive,
        EventView::Forwarded => asked is Forward,
        EventView::Pulled(_) => asked is Pull,
        EventView::Flushed(n) => asked matches ActionView::Flush(x) && n <= x.len(),
        EventView::Closed => asked is Close,
        EventView::Open(_) => asked is AskOpen,
    }
}

/// What the last of some events asks for; nothing before the first.
pub open spec fn asked_after(b: BridgeView, evs: Seq<EventView>) -> ActionView {
    if evs.len() == 0 {
        ActionView::Rest
    } else {
        stepped(after(b, evs.drop_last()), evs.last()).1
    }
}

/// Each of some events answers what the one before it asked for.
pub open spec fn all_answer(b: BridgeView, evs: Seq<EventView>) -> bool
    decreases evs.len(),
{
    evs.len() > 0 ==> all_answer(b, evs.drop_last()) && answers(
        asked_after(b, evs.drop_last()),
        evs.last(),
    )
}

/// The bytes that the stack socket got: the first of those that were offered, as many as
/// it took each time.
pub open spec fn bytes_sent(b: BridgeView, evs: Seq<EventView>) -> Seq<u8>
    decreases evs.len(),
{
    if evs.len() == 0 {
        seq![]
    } else {
        let before = bytes_sent(b, evs.drop_last());
        match (asked_after(b, evs.drop_last()), evs.last()) {
            (ActionView::Flush(x), EventView::Flushed(n)) => before + x.take(n as int),
            _ => before,
        }
    }
}

/// The bytes that the other end got, in order.
pub open spec fn bytes_forwarded(b: BridgeView, evs: Seq<EventView>) -> Seq<u8>
    decreases evs.len(),
{
    if evs.len() == 0 {
        seq![]
    } else {
        let before = bytes_forwarded(b, evs.drop_last());
        match stepped(after(b, evs.drop_last()), evs.last()).1 {
            ActionView::Forward(c) => before + c,
            _ => before,
        }
    }
}

/// The bytes that came from the stack socket, in order.
pub open spec fn bytes_received(evs: Seq<EventView>) -> Seq<u8>
    decreases evs.len(),
{
    if evs.len() == 0 {
        seq![]
    } else {
        let before = bytes_received(evs.drop_last());
        match evs.last() {
            EventView::Received(c) => before + c,
            _ => before,
        }
    }
}

/// Whoever does what is asked carries the bytes over: what the stack socket got, then
/// what is pending, is what was pending at first and what was pulled; and the other end
/// got what came from the stack socket.
pub proof fn law_bytes_are_carried_over(b: BridgeView, evs: Seq<EventView>)
    requires
        all_answer(b, evs),
    ensures
        bytes_sent(b, evs) + after(b, evs).pending == b.pending + bytes_pulled(evs),
        bytes_forwarded(b, evs) == bytes_received(evs),
    decreases evs.len(),
{
    if evs.len() > 0 {
        let most = evs.drop_last();
        law_bytes_are_carried_over(b, most);
        let mid = after(b, most);
        if most.len() > 0 {
            law_offered_is_what_is_pending(after(b, most.drop_last()), most.last());
            law_close_and_pull_wait_for_flush(after(b, most.drop_last()), most.last());
        }
        match evs.last() {
            EventView::Flushed(n) => {
                let x = asked_after(b, most)->Flush_0;
                assert(x == mid.pending);
                assert(bytes_sent(b, evs) + after(b, evs).pending =~= bytes_sent(b, most)
                    + mid.pending);
            },
            EventView::Pulled(PulledView::Chunk(d)) => {
                assert(bytes_sent(b, most) + mid.pending =~= bytes_sent(b, most));
                assert(b.pending + bytes_pulled(evs) =~= (b.pending + bytes_pulled(most)) + d);
            },
            EventView::Received(c) => {
                assert(bytes_received(most) + Seq::<u8>::empty() =~= bytes_received(most));
                assert(c.len() == 0 ==> c =~= Seq::<u8>::empty());
            },
            _ => {},
        }
    } else {
        assert(bytes_sent(b, evs) + b.pending =~= b.pending + bytes_pulled(evs));
    }
}

/// A pass takes all that the stack socket has while the other end has room, offers what
/// is pending or pulls where nothing is, and ends by asking whether the socket is open.
pub proof fn law_pass_goes_through_both_directions(b: BridgeView, c: Seq<u8>, p: PulledView, n: nat)
    ensures
        stepped(b, EventView::Begin) == (b, ActionView::Reserve),
        stepped(b, EventView::Reserved(true)) == (b, ActionView::Receive),
        stepped(b, EventView::Forwarded) == (b, ActionView::Reserve),
        stepped(b, EventView::Reserved(false)).0 == b,
        stepped(b, EventView::Received(c)).0 == b,
        b.pending.len() > 0 ==> stepped(b, EventView::Reserved(false)).1 is Flush,
        b.pending.len() > 0 ==> stepped(b, EventView::Received(seq![])).1 is Flush,
        b.pending.len() == 0 ==> stepped(b, EventView::Reserved(false)).1 is Pull,
        b.pending.len() == 0 ==> stepped(b, EventView::Received(seq![])).1 is Pull,
        c.len() > 0 ==> stepped(b, EventView::Pulled(PulledView::Chunk(c))) == (
            BridgeView { pending: c, done: b.done },
            ActionView::Flush(c),
        ),
        b.pending.len() == 0 && !b.done ==> stepped(b, EventView::Pulled(PulledView::Empty)) == (
            b,
            ActionView::AskOpen,
        ),
        n < b.pending.len() ==> stepped(b, EventView::Flushed(n)).1 is AskOpen,
        stepped(b, EventView::Flushed(n)).0.done == b.done,
        stepped(b, EventView::Closed) == (b, ActionView::AskOpen),
        stepped(b, EventView::Open(true)) == (b, ActionView::Rest),
        stepped(b, EventView::Open(false)) == (b, ActionView::Reap),
{
}

/// FIN is sent as soon as the other end has finished and all its bytes are flushed; only
/// the end of the other end finishes it.
pub proof fn law_finished_end_is_closed(b: BridgeView, ev: EventView)
    ensures
        b.pending.len() == 0 ==> stepped(b, EventView::Pulled(PulledView::Disconnected)) == (
            BridgeView { pending: b.pending, done: true },
            ActionView::Close,
        ),
        b.done && b.pending.len() == 0 ==> stepped(b, EventView::Pulled(PulledView::Empty)).1
            is Close,
        b.done ==> stepped(b, EventView::Flushed(b.pending.len())).1 is Close,
        stepped(b, ev).0.done ==> b.done || ev == EventView::Pulled(PulledView::Disconnected),
{
    assert(b.pending.skip(b.pending.len() as int).len() == 0);
}

} // verus!
