//! The hello state machine of one live neighbor, apart from the pump that
//! carries its bytes.
//!
//! ```text
//! connect:  START → hello(12) → wait hello → Established
//! accept:   wait hello → START → hello(12) → Established
//! ```
//!
//! The handshake runs with a window limit of 1 (stop-and-wait). Once the
//! hellos have crossed, the limit becomes the agreed `max_window` when both
//! sides announced [`Capabilities::window`], and stays 1 otherwise. The
//! caller owns the pump: it asks [`LinkState::next_offer`] what to offer,
//! applies [`LinkState::window_limit`], polls, and hands each pump event to
//! [`LinkState::on_pump_event`].

use vstd::prelude::*;
use crate::error::Error;
use super::session::{HandshakeError, PeerSession, SessionConfig, SessionState, SessionView, HELLO_LEN, hello_of, spec_on_hello};
use super::table::{PeerTable, TableError, TableView, first_free, fresh_session, hello_remote, spec_find, spec_find_except};

verus! {

/// Outcome of handing one pump event to a link.
#[derive(Debug, Clone, Copy, PartialEq, Eq, Structural)]
pub enum LinkEvent {
    /// Quiet.
    Idle,
    /// START, hello byte, ACK, or other work; not established yet.
    Progress,
    /// Hellos crossed. DATA may follow.
    Established,
    /// A payload byte after the handshake.
    Received(u8),
    /// Transport FINISH completed.
    Closed,
    /// Transport ABORT cancelled the link.
    Aborted,
}

/// Errors from a live link.
#[derive(Debug, Clone, Copy, PartialEq, Eq)]
pub enum LinkError<E> {
    /// The underlying pump / transport failed.
    Transport(Error<E>),
    /// The hello was invalid.
    Handshake(HandshakeError),
    /// The peer table rejected the slot.
    Table(TableError),
}

/// What one poll of the pump reported.
#[derive(Debug, Clone, Copy, PartialEq, Eq, Structural)]
pub enum PumpEvent {
    /// Nothing happened.
    Idle,
    /// Work was done (a frame byte, an ACK) and nothing else to report.
    Progress,
    /// An offered frame was acknowledged.
    Sent,
    /// A payload byte arrived in order.
    Received(u8),
    /// The transfer finished.
    Completed,
    /// The session was aborted.
    Aborted,
}

/// What a link asks its pump to offer next.
#[derive(Debug, Clone, Copy, PartialEq, Eq, Structural)]
pub enum LinkOffer {
    /// A session START.
    Start,
    /// The next hello byte.
    Byte(u8),
}

/// The content of a [`LinkState`].
pub struct LinkView {
    /// The session bookkeeping, as last taken from the table.
    pub session: SessionView,
    /// Table slot, once allocated.
    pub slot: Option<usize>,
    /// The hello to send.
    pub outgoing: Seq<u8>,
    /// How many bytes of it were offered.
    pub out_at: nat,
    /// How many bytes it has (0 while there is none to send).
    pub out_len: nat,
    /// The peer's hello bytes received so far.
    pub incoming: Seq<u8>,
    /// A START must be offered before the hello.
    pub need_start: bool,
    /// This side connected (rather than accepted).
    pub initiator: bool,
    /// The hellos crossed.
    pub established: bool,
    /// `Established` was reported.
    pub announced: bool,
    /// The window limit the pump's sender must run with.
    pub window: usize,
}

/// The window limit an agreed config gives: its `max_window` when it has
/// the window feature, else 1 (stop-and-wait).
pub open spec fn window_for(cfg: SessionConfig) -> usize {
    if cfg.features.spec_bits() & 1 == 1 {
        cfg.max_window as usize
    } else {
        1
    }
}

/// Why the table refuses to complete an outgoing connect in `slot` with the
/// hello `h`, if it does.
pub open spec fn finish_refusal(t: TableView, slot: usize, h: Seq<u8>) -> Option<TableError> {
    if slot >= t.slots.len() || t.slots[slot as int] is None {
        Some(TableError::Empty)
    } else if hello_remote(h) matches Some(id) && spec_find_except(t.slots, id, slot as int) is Some {
        Some(TableError::Duplicate)
    } else {
        match spec_on_hello(t.slots[slot as int]->0, h).1 {
            Err(e) => Some(TableError::Handshake(e)),
            Ok(_) => None,
        }
    }
}

/// Why the table refuses an incoming hello `h`, if it does.
pub open spec fn accept_refusal(t: TableView, h: Seq<u8>) -> Option<TableError> {
    if hello_remote(h) matches Some(id) && spec_find(t.slots, id) is Some {
        Some(TableError::Duplicate)
    } else if first_free(t.slots) is None {
        Some(TableError::Full)
    } else {
        match spec_on_hello(fresh_session(t), h).1 {
            Err(e) => Some(TableError::Handshake(e)),
            Ok(_) => None,
        }
    }
}

/// The link once its session is `s`: established exactly when `s` is, and
/// then running with the agreed window.
pub open spec fn link_settled(l: LinkView, s: SessionView) -> LinkView {
    let est = s.state is Established;
    LinkView {
        session: s,
        established: est,
        window: if est && s.negotiated is Some {
            window_for(s.negotiated->0)
        } else {
            l.window
        },
        ..l
    }
}

/// What one received hello byte does to link `l` and table `t`: the link,
/// the table, and the result.
pub open spec fn spec_hello_byte(l: LinkView, t: TableView, byte: u8) -> (
    LinkView,
    TableView,
    Result<LinkEvent, TableError>,
) {
    if l.incoming.len() >= HELLO_LEN {
        (l, t, Ok(LinkEvent::Progress))
    } else {
        let h = l.incoming.push(byte);
        let l1 = LinkView { incoming: h, ..l };
        if h.len() < HELLO_LEN {
            (l1, t, Ok(LinkEvent::Progress))
        } else if l.initiator {
            match l.slot {
                None => (l1, t, Err(TableError::Empty)),
                Some(s) => match finish_refusal(t, s, h) {
                    Some(e) => (l1, t, Err(e)),
                    None => {
                        let sv = spec_on_hello(t.slots[s as int]->0, h).0;
                        let l2 = link_settled(l1, sv);
                        let t2 = TableView { slots: t.slots.update(s as int, Some(sv)), ..t };
                        if l2.established && !l.announced {
                            (LinkView { announced: true, ..l2 }, t2, Ok(LinkEvent::Established))
                        } else {
                            (l2, t2, Ok(LinkEvent::Progress))
                        }
                    },
                },
            }
        } else {
            match accept_refusal(t, h) {
                Some(e) => (l1, t, Err(e)),
                None => {
                    let s = first_free(t.slots)->0;
                    let sv = spec_on_hello(fresh_session(t), h).0;
                    let l2 = link_settled(
                        LinkView {
                            slot: Some(s as usize),
                            outgoing: hello_of(t.local, t.config),
                            out_len: HELLO_LEN as nat,
                            out_at: 0,
                            need_start: true,
                            ..l1
                        },
                        sv,
                    );
                    (l2, TableView { slots: t.slots.update(s, Some(sv)), ..t }, Ok(LinkEvent::Progress))
                },
            }
        }
    }
}

/// The table after the link writes its session `s` back to its slot.
pub open spec fn synced(t: TableView, slot: Option<usize>, s: SessionView) -> TableView {
    match slot {
        Some(i) => if i < t.slots.len() {
            TableView { slots: t.slots.update(i as int, Some(s)), ..t }
        } else {
            t
        },
        None => t,
    }
}

/// The offer a link wants next, given whether the pump's sender is idle
/// with nothing outstanding: START first when one is due, then the hello
/// bytes in order, one at a time (the handshake is stop-and-wait).
pub open spec fn spec_next_offer(l: LinkView, sender_ready: bool) -> Option<LinkOffer> {
    if !sender_ready {
        None
    } else if l.need_start {
        Some(LinkOffer::Start)
    } else if l.out_at < l.out_len {
        Some(LinkOffer::Byte(l.outgoing[l.out_at as int]))
    } else {
        None
    }
}

/// What one pump event does to link `l` and table `t`, given whether the
/// pump's sender is idle with nothing outstanding after the poll.
pub open spec fn spec_on_pump_event(l: LinkView, t: TableView, ev: PumpEvent, sender_ready: bool) -> (
    LinkView,
    TableView,
    Result<LinkEvent, TableError>,
) {
    match ev {
        PumpEvent::Aborted => {
            let s = SessionView { state: SessionState::Aborted, ..l.session };
            (LinkView { session: s, ..l }, synced(t, l.slot, s), Ok(LinkEvent::Aborted))
        },
        PumpEvent::Completed => {
            let s = SessionView { state: SessionState::Disconnected, ..l.session };
            (LinkView { session: s, ..l }, synced(t, l.slot, s), Ok(LinkEvent::Closed))
        },
        PumpEvent::Received(b) => if l.established {
            (l, t, Ok(LinkEvent::Received(b)))
        } else {
            spec_hello_byte(l, t, b)
        },
        PumpEvent::Idle => (l, t, Ok(LinkEvent::Idle)),
        PumpEvent::Progress | PumpEvent::Sent => if !l.initiator && l.established && !l.announced
            && l.out_at >= l.out_len && !l.need_start && sender_ready {
            (LinkView { announced: true, ..l }, t, Ok(LinkEvent::Established))
        } else {
            (l, t, Ok(LinkEvent::Progress))
        },
    }
}

/// A link's result with the table's error wrapped.
pub open spec fn link_result<E>(r: Result<LinkEvent, TableError>) -> Result<LinkEvent, LinkError<E>> {
    match r {
        Ok(ev) => Ok(ev),
        Err(e) => Err(LinkError::Table(e)),
    }
}

/// The first free slot, when there is one, is a slot.
proof fn lemma_first_free_in(s: Seq<Option<SessionView>>)
    ensures
        first_free(s) matches Some(i) ==> 0 <= i < s.len() && s[i] is None,
{
    if exists|i: int| 0 <= i < s.len() && #[trigger] s[i] is None {
        let k = choose|i: int| 0 <= i < s.len() && #[trigger] s[i] is None;
        lemma_lowest_free(s, k);
    }
}

/// Below a free slot `k` there is a lowest free slot.
proof fn lemma_lowest_free(s: Seq<Option<SessionView>>, k: int)
    requires
        0 <= k < s.len(),
        s[k] is None,
    ensures
        exists|i: int| 0 <= i < s.len() && s[i] is None && forall|j: int| 0 <= j < i ==> #[trigger] s[j] is Some,
    decreases k,
{
    if exists|j: int| 0 <= j < k && #[trigger] s[j] is None {
        let j = choose|j: int| 0 <= j < k && #[trigger] s[j] is None;
        lemma_lowest_free(s, j);
    } else {
        assert(forall|j: int| 0 <= j < k ==> #[trigger] s[j] is Some);
    }
}

/// An established link runs with the window its agreed config allows: the
/// agreed `max_window` when the agreed features hold the window bit, else
/// 1; and that agreed window is no larger than what this side offered.
pub open spec fn link_window_agreed(l: LinkView) -> bool {
    l.established ==> (l.session.negotiated matches Some(c) && l.window == (if c.features.spec_bits()
        & 1 == 1 {
        c.max_window as usize
    } else {
        1usize
    }) && c.max_window <= l.session.config.max_window)
}

/// A link starts, and stays, running with the agreed window: whatever
/// hello byte or pump event it takes, once established its window is the
/// agreed `max_window` (or 1 without the window feature), never its own
/// offer when the peer offered less.
pub proof fn lemma_link_window(l: LinkView, t: TableView, byte: u8, ev: PumpEvent, ready: bool)
    requires
        link_window_agreed(l),
    ensures
        link_window_agreed(spec_hello_byte(l, t, byte).0),
        link_window_agreed(spec_on_pump_event(l, t, ev, ready).0),
{
    lemma_hello_window(l, t, byte);
    if let PumpEvent::Received(b) = ev {
        lemma_hello_window(l, t, b);
    }
}

/// [`lemma_link_window`] for one hello byte.
proof fn lemma_hello_window(l: LinkView, t: TableView, byte: u8)
    requires
        link_window_agreed(l),
    ensures
        link_window_agreed(spec_hello_byte(l, t, byte).0),
{
    let h = l.incoming.push(byte);
    if l.incoming.len() < HELLO_LEN && h.len() == HELLO_LEN {
        let sv = if l.initiator {
            spec_on_hello(t.slots[l.slot->0 as int]->0, h).0
        } else {
            spec_on_hello(fresh_session(t), h).0
        };
        let v0 = if l.initiator {
            t.slots[l.slot->0 as int]->0
        } else {
            fresh_session(t)
        };
        if spec_on_hello(v0, h).1 is Ok {
            let c = sv.negotiated->0;
            assert(c.max_window <= v0.config.max_window);
        }
    }
}

/// Connector or listener state of one neighbor.
pub struct LinkState {
    session: PeerSession,
    slot: Option<usize>,
    outgoing: [u8; HELLO_LEN],
    out_at: usize,
    out_len: usize,
    incoming: [u8; HELLO_LEN],
    in_len: usize,
    need_start: bool,
    initiator: bool,
    established: bool,
    announced: bool,
    window: usize,
}

impl View for LinkState {
    type V = LinkView;

    closed spec fn view(&self) -> LinkView {
        LinkView {
            session: self.session@,
            slot: self.slot,
            outgoing: self.outgoing@,
            out_at: self.out_at as nat,
            out_len: self.out_len as nat,
            incoming: self.incoming@.take(self.in_len as int),
            need_start: self.need_start,
            initiator: self.initiator,
            established: self.established,
            announced: self.announced,
            window: self.window,
        }
    }
}

impl LinkState {
    /// The counters stay within the hello's length.
    pub closed spec fn wf(&self) -> bool {
        &&& self.in_len <= HELLO_LEN
        &&& self.out_at <= self.out_len <= HELLO_LEN
    }

    /// Allocates a table slot and starts an outgoing connect (START, then
    /// our hello).
    #[verifier::rlimit(40)]
    pub fn connect<const N: usize>(table: &mut PeerTable<N>) -> (r: Result<LinkState, TableError>)
        ensures
            match first_free(old(table)@.slots) {
                None => r == Err::<LinkState, TableError>(TableError::Full) && final(table)@ == old(
                    table,
                )@,
                Some(i) => r matches Ok(l) && l.wf() && l@ == (LinkView {
                    session: final(table)@.slots[i]->0,
                    slot: Some(i as usize),
                    outgoing: hello_of(old(table)@.local, old(table)@.config),
                    out_at: 0,
                    out_len: HELLO_LEN as nat,
                    incoming: Seq::empty(),
                    need_start: true,
                    initiator: true,
                    established: false,
                    announced: false,
                    window: 1,
                }) && final(table)@.slots[i] is Some && final(table)@.slots[i]->0.state
                    is Connecting,
            },
            r is Err ==> final(table)@ == old(table)@,
    {
        proof {
            PeerTable::<N>::lemma_shape(table);
        }
        let ghost t0 = table@;
        let (slot, hello) = match table.connect() {
            Ok(x) => x,
            Err(e) => return Err(e),
        };
        proof {
            PeerTable::<N>::lemma_shape(table);
            lemma_first_free_in(t0.slots);
            assert(table@.slots[slot as int] is Some);
        }
        let session = match table.get(slot) {
            Some(entry) => *entry.session(),
            None => return Err(TableError::Empty),
        };
        let l = LinkState {
            session,
            slot: Some(slot),
            outgoing: hello,
            out_at: 0,
            out_len: HELLO_LEN,
            incoming: [0; HELLO_LEN],
            in_len: 0,
            need_start: true,
            initiator: true,
            established: false,
            announced: false,
            window: 1,
        };
        assert(l@.incoming =~= Seq::<u8>::empty());
        Ok(l)
    }

    /// Listens; the table slot is taken when the peer's hello arrives.
    pub fn accept<const N: usize>(table: &PeerTable<N>) -> (l: LinkState)
        ensures
            l.wf(),
            l@.session == fresh_session(table@),
            l@.slot is None,
            l@.out_at == 0 && l@.out_len == 0,
            l@.incoming == Seq::<u8>::empty(),
            !l@.need_start && !l@.initiator && !l@.established && !l@.announced,
            l@.window == 1,
    {
        let l = LinkState {
            session: PeerSession::new(table.local(), table.config()),
            slot: None,
            outgoing: [0; HELLO_LEN],
            out_at: 0,
            out_len: 0,
            incoming: [0; HELLO_LEN],
            in_len: 0,
            need_start: false,
            initiator: false,
            established: false,
            announced: false,
            window: 1,
        };
        assert(l@.incoming =~= Seq::<u8>::empty());
        l
    }

    /// The session bookkeeping.
    pub fn session(&self) -> (s: &PeerSession)
        ensures
            s@ == self@.session,
    {
        &self.session
    }

    /// Table slot, once allocated.
    pub fn slot(&self) -> (s: Option<usize>)
        ensures
            s == self@.slot,
    {
        self.slot
    }

    /// The window limit the pump's sender must run with now.
    pub fn window_limit(&self) -> (w: usize)
        ensures
            w == self@.window,
    {
        self.window
    }

    /// What to offer the pump next; `sender_ready` says whether its sender
    /// is idle with nothing outstanding. Call [`LinkState::offered`] once
    /// the offer was accepted.
    pub fn next_offer(&self, sender_ready: bool) -> (o: Option<LinkOffer>)
        requires
            self.wf(),
        ensures
            o == spec_next_offer(self@, sender_ready),
    {
        if !sender_ready {
            None
        } else if self.need_start {
            Some(LinkOffer::Start)
        } else if self.out_at < self.out_len {
            Some(LinkOffer::Byte(self.outgoing[self.out_at]))
        } else {
            None
        }
    }

    /// The offer [`LinkState::next_offer`] gave was accepted: START is no
    /// longer due, or one more hello byte is out.
    pub fn offered(&mut self)
        requires
            old(self).wf(),
        ensures
            final(self).wf(),
            final(self)@ == (if old(self)@.need_start {
                LinkView { need_start: false, ..old(self)@ }
            } else if old(self)@.out_at < old(self)@.out_len {
                LinkView { out_at: old(self)@.out_at + 1, ..old(self)@ }
            } else {
                old(self)@
            }),
    {
        if self.need_start {
            self.need_start = false;
        } else if self.out_at < self.out_len {
            self.out_at = self.out_at + 1;
        }
    }

    /// Writes the session back to its slot.
    fn sync<const N: usize>(&self, table: &mut PeerTable<N>)
        ensures
            final(table)@ == synced(old(table)@, self@.slot, self@.session),
    {
        proof {
            PeerTable::<N>::lemma_shape(table);
        }
        if let Some(slot) = self.slot {
            let _ = table.store(slot, self.session);
        }
    }

    /// Takes the negotiated window once established.
    fn settle(&mut self)
        requires
            old(self).wf(),
        ensures
            final(self).wf(),
            final(self)@ == link_settled(old(self)@, old(self)@.session),
    {
        self.established = match self.session.state() {
            SessionState::Established => true,
            _ => false,
        };
        if self.established {
            if let Some(cfg) = self.session.negotiated() {
                self.window = if cfg.features.contains(super::session::Capabilities::window()) {
                    cfg.max_window as usize
                } else {
                    1
                };
            }
        }
    }

    /// One byte of the peer's hello. When the twelfth arrives, the table
    /// completes the connect (initiator) or takes the hello in a new slot
    /// and the reply hello becomes due after a START (listener).
    #[verifier::rlimit(40)]
    pub fn on_hello_byte<E, const N: usize>(&mut self, table: &mut PeerTable<N>, byte: u8) -> (r: Result<
        LinkEvent,
        LinkError<E>,
    >)
        requires
            old(self).wf(),
        ensures
            final(self).wf(),
            ({
                let (l2, t2, res) = spec_hello_byte(old(self)@, old(table)@, byte);
                &&& final(self)@ == l2
                &&& final(table)@ == t2
                &&& r == link_result::<E>(res)
            }),
    {
        proof {
            PeerTable::<N>::lemma_shape(table);
        }
        if self.in_len >= HELLO_LEN {
            return Ok(LinkEvent::Progress);
        }
        let ghost h = self@.incoming.push(byte);
        self.incoming[self.in_len] = byte;
        self.in_len = self.in_len + 1;
        assert(self@.incoming =~= h);
        if self.in_len < HELLO_LEN {
            return Ok(LinkEvent::Progress);
        }
        assert(self.incoming@ =~= h);
        if self.initiator {
            let slot = match self.slot {
                Some(s) => s,
                None => return Err(LinkError::Table(TableError::Empty)),
            };
            match table.finish_connect(slot, &self.incoming) {
                Ok(()) => {},
                Err(e) => return Err(LinkError::Table(e)),
            }
            if let Some(entry) = table.get(slot) {
                self.session = *entry.session();
            }
        } else {
            let ghost t0 = table@;
            let (slot, reply) = match table.accept(&self.incoming) {
                Ok(x) => x,
                Err(e) => return Err(LinkError::Table(e)),
            };
            proof {
                lemma_first_free_in(t0.slots);
            }
            self.slot = Some(slot);
            if let Some(entry) = table.get(slot) {
                self.session = *entry.session();
            }
            self.outgoing = reply;
            self.out_len = HELLO_LEN;
            self.out_at = 0;
            self.need_start = true;
        }
        proof {
            PeerTable::<N>::lemma_shape(table);
            assert(self@.slot matches Some(i) && i < N && table@.slots[i as int] == Some(self@.session));
        }
        self.settle();
        let ghost t1 = table@;
        self.sync(table);
        assert(table@.slots =~= t1.slots);
        if self.established && self.initiator && !self.announced {
            self.announced = true;
            Ok(LinkEvent::Established)
        } else {
            Ok(LinkEvent::Progress)
        }
    }

    /// One pump event. `sender_ready` says whether the pump's sender is
    /// idle with nothing outstanding after the poll; a listener reports
    /// `Established` once its own hello is entirely acknowledged.
    pub fn on_pump_event<E, const N: usize>(
        &mut self,
        table: &mut PeerTable<N>,
        ev: PumpEvent,
        sender_ready: bool,
    ) -> (r: Result<LinkEvent, LinkError<E>>)
        requires
            old(self).wf(),
        ensures
            final(self).wf(),
            ({
                let (l2, t2, res) = spec_on_pump_event(old(self)@, old(table)@, ev, sender_ready);
                &&& final(self)@ == l2
                &&& final(table)@ == t2
                &&& r == link_result::<E>(res)
            }),
    {
        match ev {
            PumpEvent::Aborted => {
                self.session.abort();
                self.sync(table);
                Ok(LinkEvent::Aborted)
            },
            PumpEvent::Completed => {
                self.session.closed();
                self.sync(table);
                Ok(LinkEvent::Closed)
            },
            PumpEvent::Received(byte) => {
                if self.established {
                    Ok(LinkEvent::Received(byte))
                } else {
                    self.on_hello_byte(table, byte)
                }
            },
            PumpEvent::Idle => Ok(LinkEvent::Idle),
            PumpEvent::Progress | PumpEvent::Sent => {
                if !self.initiator && self.established && !self.announced && self.out_at
                    >= self.out_len && !self.need_start && sender_ready {
                    self.announced = true;
                    Ok(LinkEvent::Established)
                } else {
                    Ok(LinkEvent::Progress)
                }
            },
        }
    }
}

} // verus!
