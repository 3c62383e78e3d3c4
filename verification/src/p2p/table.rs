//! Compile-time peer directory: one slot per neighbor, no heap.

use vstd::prelude::*;
use super::peer::{PeerId, PEER_ID_LEN};
use super::session::{
    hello_of, spec_on_hello, HandshakeError, PeerSession, SessionConfig, SessionState,
    SessionView, HELLO_LEN,
};

verus! {

/// Hard ceiling on the table size.
pub const MAX_PEERS: usize = 8;

/// One occupied slot: the session bookkeeping for a single neighbor.
#[derive(Debug, Clone, Copy, PartialEq, Eq)]
pub struct PeerEntry {
    session: PeerSession,
}

impl View for PeerEntry {
    type V = SessionView;

    closed spec fn view(&self) -> SessionView {
        self.session@
    }
}

impl PeerEntry {
    /// The session in this slot.
    pub fn session(&self) -> (s: &PeerSession)
        ensures
            s@ == self@,
    {
        &self.session
    }
}

/// Why a table operation failed.
#[derive(Debug, Clone, Copy, PartialEq, Eq, Structural)]
pub enum TableError {
    /// Every slot is taken.
    Full,
    /// The hello was rejected.
    Handshake(HandshakeError),
    /// That slot is empty.
    Empty,
    /// A session with this remote identity is already in the table.
    Duplicate,
}

/// The content of a [`PeerTable`].
pub struct TableView {
    /// Our identity.
    pub local: Seq<u8>,
    /// The config we announce.
    pub config: SessionConfig,
    /// One entry per slot.
    pub slots: Seq<Option<SessionView>>,
}

/// How many slots are occupied.
pub open spec fn count_some(s: Seq<Option<SessionView>>) -> nat
    decreases s.len(),
{
    if s.len() == 0 {
        0
    } else {
        count_some(s.drop_last()) + if s.last() is Some { 1nat } else { 0nat }
    }
}

/// How many slots hold an established session.
pub open spec fn count_established(s: Seq<Option<SessionView>>) -> nat
    decreases s.len(),
{
    if s.len() == 0 {
        0
    } else {
        count_established(s.drop_last()) + if s.last() matches Some(v) && v.state is Established {
            1nat
        } else {
            0nat
        }
    }
}

/// Slot `i` holds a session whose remote is `id`.
pub open spec fn holds_remote(s: Seq<Option<SessionView>>, i: int, id: Seq<u8>) -> bool {
    0 <= i < s.len() && (s[i] matches Some(v) && v.remote == Some(id))
}

/// The lowest slot other than `skip` whose remote is `id`.
pub open spec fn spec_find_except(s: Seq<Option<SessionView>>, id: Seq<u8>, skip: int) -> Option<
    int,
> {
    if exists|i: int| i != skip && #[trigger] holds_remote(s, i, id) {
        Some(choose|i: int| i != skip && holds_remote(s, i, id) && forall|j: int|
            0 <= j < i && j != skip ==> !#[trigger] holds_remote(s, j, id))
    } else {
        None
    }
}

/// The lowest slot whose remote is `id`.
pub open spec fn spec_find(s: Seq<Option<SessionView>>, id: Seq<u8>) -> Option<int> {
    spec_find_except(s, id, -1)
}

/// The lowest free slot.
pub open spec fn first_free(s: Seq<Option<SessionView>>) -> Option<int> {
    if exists|i: int| 0 <= i < s.len() && #[trigger] s[i] is None {
        Some(choose|i: int| 0 <= i < s.len() && s[i] is None && forall|j: int|
            0 <= j < i ==> #[trigger] s[j] is Some)
    } else {
        None
    }
}

/// No two slots name the same remote.
pub open spec fn remotes_unique(s: Seq<Option<SessionView>>) -> bool {
    forall|i: int, j: int, id: Seq<u8>|
        #![trigger holds_remote(s, i, id), holds_remote(s, j, id)]
        holds_remote(s, i, id) && holds_remote(s, j, id) ==> i == j
}

/// A fresh session of this table, before any hello.
pub open spec fn fresh_session(t: TableView) -> SessionView {
    SessionView {
        local: t.local,
        config: t.config,
        remote: None,
        negotiated: None,
        state: SessionState::Disconnected,
    }
}

/// The identity that a hello names, when it is long enough to name one.
pub open spec fn hello_remote(hello: Seq<u8>) -> Option<Seq<u8>> {
    if hello.len() >= 8 {
        Some(hello.subrange(0, 8))
    } else {
        None
    }
}

/// A slot's content, taken by its view.
pub open spec fn slot_view(o: Option<PeerEntry>) -> Option<SessionView> {
    match o {
        Some(e) => Some(e@),
        None => None,
    }
}

/// The slots' contents, each taken by its view.
pub open spec fn slots_view(a: Seq<Option<PeerEntry>>) -> Seq<Option<SessionView>> {
    Seq::new(a.len(), |i: int| slot_view(a[i]))
}

/// Writing one slot writes its view.
pub broadcast proof fn lemma_slots_view_update(a: Seq<Option<PeerEntry>>, i: int, x: Option<PeerEntry>)
    requires
        0 <= i < a.len(),
    ensures
        #[trigger] slots_view(a.update(i, x)) == slots_view(a).update(i, slot_view(x)),
{
    assert(slots_view(a.update(i, x)) =~= slots_view(a).update(i, slot_view(x)));
}

/// Changing one slot changes the count by what left and what came.
pub proof fn lemma_count_update(s: Seq<Option<SessionView>>, i: int, v: Option<SessionView>)
    requires
        0 <= i < s.len(),
    ensures
        count_some(s.update(i, v)) + (if s[i] is Some { 1int } else { 0int }) == count_some(s) + (
        if v is Some { 1int } else { 0int }),
    decreases s.len(),
{
    let t = s.update(i, v);
    if i == s.len() - 1 {
        assert(t.drop_last() =~= s.drop_last());
    } else {
        assert(t.drop_last() =~= s.drop_last().update(i, v));
        lemma_count_update(s.drop_last(), i, v);
    }
}

/// At most one per slot is occupied.
pub proof fn lemma_count_bound(s: Seq<Option<SessionView>>)
    ensures
        count_some(s) <= s.len(),
        count_established(s) <= count_some(s),
    decreases s.len(),
{
    if s.len() > 0 {
        lemma_count_bound(s.drop_last());
    }
}

/// A table has no free slot exactly when every slot is counted as
/// occupied: `connect` and `accept` report `Full` exactly when the length
/// has reached the capacity.
pub proof fn lemma_full_iff_count(s: Seq<Option<SessionView>>)
    ensures
        first_free(s) is None <==> count_some(s) == s.len(),
    decreases s.len(),
{
    lemma_count_bound(s);
    if s.len() > 0 {
        let p = s.drop_last();
        lemma_full_iff_count(p);
        lemma_count_bound(p);
        if first_free(s) is None {
            assert forall|i: int| 0 <= i < p.len() implies #[trigger] p[i] is Some by {
                assert(s[i] is Some);
            }
            assert(!(exists|i: int| 0 <= i < p.len() && #[trigger] p[i] is None));
            assert(s[s.len() - 1] is Some);
        } else {
            let i = choose|i: int| 0 <= i < s.len() && #[trigger] s[i] is None;
            if i < s.len() - 1 {
                assert(p[i] is None);
            }
        }
    }
}

/// The lowest matching slot is what `spec_find_except` names.
proof fn lemma_find_found(s: Seq<Option<SessionView>>, id: Seq<u8>, skip: int, i: int)
    requires
        holds_remote(s, i, id),
        i != skip,
        forall|j: int| 0 <= j < i && j != skip ==> !#[trigger] holds_remote(s, j, id),
    ensures
        spec_find_except(s, id, skip) == Some(i),
{
    assert(exists|k: int| k != skip && #[trigger] holds_remote(s, k, id));
    let c = choose|k: int| k != skip && holds_remote(s, k, id) && forall|j: int|
        0 <= j < k && j != skip ==> !#[trigger] holds_remote(s, j, id);
    assert(c != skip && holds_remote(s, c, id) && forall|j: int|
        0 <= j < c && j != skip ==> !#[trigger] holds_remote(s, j, id)) by {
        assert(i != skip && holds_remote(s, i, id) && forall|j: int|
            0 <= j < i && j != skip ==> !#[trigger] holds_remote(s, j, id));
    }
    if c < i {
        assert(!holds_remote(s, c, id));
    }
    if i < c {
        assert(!holds_remote(s, i, id));
    }
}

/// With no matching slot, `spec_find_except` names none.
proof fn lemma_find_none(s: Seq<Option<SessionView>>, id: Seq<u8>, skip: int)
    requires
        forall|j: int| 0 <= j < s.len() && j != skip ==> !#[trigger] holds_remote(s, j, id),
    ensures
        spec_find_except(s, id, skip) is None,
{
    if exists|k: int| k != skip && #[trigger] holds_remote(s, k, id) {
        let k = choose|k: int| k != skip && #[trigger] holds_remote(s, k, id);
        assert(0 <= k < s.len());
    }
}

/// A remote that no slot names is named by no slot but one.
proof fn lemma_find_none_except(s: Seq<Option<SessionView>>, id: Seq<u8>, skip: int)
    requires
        spec_find(s, id) is None,
    ensures
        spec_find_except(s, id, skip) is None,
{
    if exists|k: int| k != skip && #[trigger] holds_remote(s, k, id) {
        let k = choose|k: int| k != skip && #[trigger] holds_remote(s, k, id);
        assert(0 <= k && k != -1);
    }
}

/// The count of a prefix grows by one slot at a time.
proof fn lemma_count_prefix(s: Seq<Option<SessionView>>, i: int)
    requires
        0 <= i < s.len(),
    ensures
        count_some(s.subrange(0, i + 1)) == count_some(s.subrange(0, i)) + if s[i] is Some {
            1nat
        } else {
            0nat
        },
        count_established(s.subrange(0, i + 1)) == count_established(s.subrange(0, i)) + if s[i] matches Some(v)
            && v.state is Established {
            1nat
        } else {
            0nat
        },
{
    assert(s.subrange(0, i + 1).drop_last() =~= s.subrange(0, i));
}

/// A slot update that brings no new remote keeps remotes unique.
proof fn lemma_unique_update(s: Seq<Option<SessionView>>, i: int, v: Option<SessionView>)
    requires
        0 <= i < s.len(),
        remotes_unique(s),
        match v {
            Some(x) => match x.remote {
                Some(id) => spec_find_except(s, id, i) is None,
                None => true,
            },
            None => true,
        },
    ensures
        remotes_unique(s.update(i, v)),
{
    let t = s.update(i, v);
    assert forall|a: int, b: int, id: Seq<u8>|
        holds_remote(t, a, id) && holds_remote(t, b, id) implies a == b by {
        if a != b {
            if a == i {
                assert(holds_remote(s, b, id));
                assert(spec_find_except(s, id, i) is Some);
            } else if b == i {
                assert(holds_remote(s, a, id));
                assert(spec_find_except(s, id, i) is Some);
            } else {
                assert(holds_remote(s, a, id) && holds_remote(s, b, id));
            }
        }
    }
}

/// `[Option<PeerEntry>; N]` of neighbors, `1 <= N <= 8`.
///
/// The table does not own transports. It only remembers who we are
/// talking to.
pub struct PeerTable<const N: usize> {
    local: PeerId,
    config: SessionConfig,
    slots: [Option<PeerEntry>; N],
}

impl<const N: usize> View for PeerTable<N> {
    type V = TableView;

    closed spec fn view(&self) -> TableView {
        TableView {
            local: self.local@,
            config: self.config,
            slots: slots_view(self.slots@),
        }
    }
}

impl<const N: usize> PeerTable<N> {
    /// The table has exactly `N` slots and an eight-byte identity.
    pub proof fn lemma_shape(t: &PeerTable<N>)
        ensures
            t@.slots.len() == N,
            t@.local.len() == 8,
    {
        PeerId::lemma_len(t.local);
    }

    /// An empty table for `local`, offering [`SessionConfig::default_offer`].
    pub fn new(local: PeerId) -> (t: PeerTable<N>)
        requires
            1 <= N <= MAX_PEERS,
        ensures
            t@.local == local@,
            t@.config == SessionConfig::spec_default_offer(),
            t@.slots == Seq::new(N as nat, |i: int| None::<SessionView>),
    {
        Self::with(local, SessionConfig::default_offer())
    }

    /// An empty table for `local`, offering `config` on every connect.
    pub fn with(local: PeerId, config: SessionConfig) -> (t: PeerTable<N>)
        requires
            1 <= N <= MAX_PEERS,
        ensures
            t@.local == local@,
            t@.config == config,
            t@.slots == Seq::new(N as nat, |i: int| None::<SessionView>),
    {
        let t = PeerTable { local, config, slots: [None; N] };
        assert(t@.slots =~= Seq::new(N as nat, |i: int| None::<SessionView>));
        t
    }

    /// Our identity.
    pub fn local(&self) -> (id: PeerId)
        ensures
            id@ == self@.local,
    {
        self.local
    }

    /// The config we announce.
    pub fn config(&self) -> (c: SessionConfig)
        ensures
            c == self@.config,
    {
        self.config
    }

    /// Compile-time capacity.
    pub fn capacity(&self) -> (n: usize)
        ensures
            n == N,
            n == self@.slots.len(),
    {
        N
    }

    /// How many slots are occupied.
    pub fn len(&self) -> (n: usize)
        ensures
            n == count_some(self@.slots),
    {
        let ghost s = self@.slots;
        let mut n: usize = 0;
        let mut i: usize = 0;
        while i < N
            invariant
                i <= N,
                s == self@.slots,
                s.len() == N,
                n == count_some(s.subrange(0, i as int)),
                n <= i,
            decreases N - i,
        {
            proof {
                lemma_count_prefix(s, i as int);
            }
            if self.slots[i].is_some() {
                n = n + 1;
            }
            i = i + 1;
        }
        assert(s.subrange(0, N as int) =~= s);
        n
    }

    /// True when no slot is occupied.
    pub fn is_empty(&self) -> (b: bool)
        ensures
            b == (count_some(self@.slots) == 0),
    {
        self.len() == 0
    }

    /// True when every slot is taken.
    pub fn is_full(&self) -> (b: bool)
        ensures
            b == (count_some(self@.slots) == N),
    {
        self.len() == N
    }

    /// Slot `i`, if occupied.
    pub fn get(&self, i: usize) -> (r: Option<&PeerEntry>)
        ensures
            match r {
                Some(e) => i < N && self@.slots[i as int] == Some(e@),
                None => i >= N || self@.slots[i as int] is None,
            },
    {
        if i < N {
            match &self.slots[i] {
                Some(e) => Some(e),
                None => None,
            }
        } else {
            None
        }
    }

    /// Slot `i`, if occupied, mutably. What is written through it becomes
    /// slot `i`; nothing else changes.
    pub fn get_mut(&mut self, i: usize) -> (r: Option<&mut PeerEntry>)
        ensures
            match r {
                Some(e) => i < N && old(self)@.slots[i as int] == Some(e@),
                None => (i >= N || old(self)@.slots[i as int] is None) && final(self)@ == old(
                    self,
                )@,
            },
            r is Some ==> final(self)@ == (TableView {
                slots: old(self)@.slots.update(i as int, Some((*final(r.unwrap()))@)),
                ..old(self)@
            }),
    {
        if i < N {
            if self.slots[i].is_none() {
                return None;
            }
            proof {
                broadcast use lemma_slots_view_update;
            }
            self.slots[i].as_mut()
        } else {
            None
        }
    }

    /// Index of the lowest slot whose remote is `id`.
    pub fn find(&self, id: PeerId) -> (r: Option<usize>)
        ensures
            match r {
                Some(i) => spec_find(self@.slots, id@) == Some(i as int),
                None => spec_find(self@.slots, id@) is None,
            },
    {
        self.find_except(id, usize::MAX)
    }

    /// Index of the lowest slot other than `skip` whose remote is `id`.
    fn find_except(&self, id: PeerId, skip: usize) -> (r: Option<usize>)
        ensures
            ({
                let sk: int = if skip == usize::MAX { -1 } else { skip as int };
                match r {
                    Some(i) => spec_find_except(self@.slots, id@, sk) == Some(i as int),
                    None => spec_find_except(self@.slots, id@, sk) is None,
                }
            }),
    {
        let ghost s = self@.slots;
        let ghost sk: int = if skip == usize::MAX { -1 } else { skip as int };
        assert(skip == usize::MAX ==> skip >= N);
        let mut i: usize = 0;
        while i < N
            invariant
                i <= N,
                s == self@.slots,
                s.len() == N,
                skip == usize::MAX ==> sk == -1,
                skip != usize::MAX ==> sk == skip,
                skip == usize::MAX ==> skip >= N,
                forall|j: int| 0 <= j < i && j != sk ==> !#[trigger] holds_remote(s, j, id@),
            decreases N - i,
        {
            if i != skip {
                if let Some(entry) = &self.slots[i] {
                    match entry.session.remote() {
                        Some(r) => {
                            if r == id {
                                proof {
                                    assert(holds_remote(s, i as int, id@));
                                    lemma_find_found(s, id@, sk, i as int);
                                }
                                return Some(i);
                            }
                        },
                        None => {},
                    }
                }
            }
            i = i + 1;
        }
        proof {
            lemma_find_none(s, id@, sk);
        }
        None
    }

    /// The lowest free slot.
    fn free_slot(&self) -> (r: Option<usize>)
        ensures
            match r {
                Some(i) => i < N && first_free(self@.slots) == Some(i as int) && self@.slots[i as int] is None,
                None => first_free(self@.slots) is None,
            },
    {
        let ghost s = self@.slots;
        let mut i: usize = 0;
        while i < N
            invariant
                i <= N,
                s == self@.slots,
                s.len() == N,
                forall|j: int| 0 <= j < i ==> #[trigger] s[j] is Some,
            decreases N - i,
        {
            if self.slots[i].is_none() {
                assert(s[i as int] is None);
                return Some(i);
            }
            i = i + 1;
        }
        None
    }

    /// Writes `session` back into `slot`.
    pub fn store(&mut self, slot: usize, session: PeerSession) -> (r: Result<(), TableError>)
        ensures
            slot < N ==> r is Ok && final(self)@ == (TableView {
                slots: old(self)@.slots.update(slot as int, Some(session@)),
                ..old(self)@
            }),
            slot >= N ==> r == Err::<(), TableError>(TableError::Empty) && final(self)@ == old(
                self,
            )@,
    {
        if slot < N {
            self.slots[slot] = Some(PeerEntry { session });
            assert(self@.slots =~= old(self)@.slots.update(slot as int, Some(session@)));
            Ok(())
        } else {
            Err(TableError::Empty)
        }
    }

    /// Opens an outgoing session in the lowest free slot. Returns the slot
    /// and the hello to send after START; the remote is still unknown.
    #[verifier::rlimit(60)]
    pub fn connect(&mut self) -> (r: Result<(usize, [u8; HELLO_LEN]), TableError>)
        ensures
            match first_free(old(self)@.slots) {
                None => r == Err::<(usize, [u8; HELLO_LEN]), TableError>(TableError::Full)
                    && final(self)@ == old(self)@,
                Some(i) => r matches Ok((k, h)) && k == i && h@ == hello_of(
                    old(self)@.local,
                    old(self)@.config,
                ) && final(self)@ == (TableView {
                    slots: old(self)@.slots.update(
                        i,
                        Some(
                            SessionView {
                                state: SessionState::Connecting,
                                ..fresh_session(old(self)@)
                            },
                        ),
                    ),
                    ..old(self)@
                }),
            },
            count_some(final(self)@.slots) == count_some(old(self)@.slots) + if r is Ok {
                1int
            } else {
                0int
            },
            remotes_unique(old(self)@.slots) ==> remotes_unique(final(self)@.slots),
    {
        let i = match self.free_slot() {
            Some(i) => i,
            None => return Err(TableError::Full),
        };
        let mut session = PeerSession::new(self.local, self.config);
        let hello = session.connect();
        let ghost old_slots = self@.slots;
        self.slots[i] = Some(PeerEntry { session });
        proof {
            assert(self@.slots =~= old_slots.update(i as int, Some(session@)));
            lemma_count_update(old_slots, i as int, Some(session@));
            if remotes_unique(old_slots) {
                lemma_unique_update(old_slots, i as int, Some(session@));
            }
        }
        Ok((i, hello))
    }

    /// Installs an incoming hello in the lowest free slot.
    ///
    /// Returns the slot and the reply hello; a second hello from a remote
    /// already listed is refused.
    #[verifier::rlimit(60)]
    #[verifier::spinoff_prover]
    pub fn accept(&mut self, hello: &[u8]) -> (r: Result<(usize, [u8; HELLO_LEN]), TableError>)
        ensures
            ({
                let t = old(self)@;
                let stepped = spec_on_hello(fresh_session(t), hello@);
                if hello_remote(hello@) matches Some(id) && spec_find(t.slots, id) is Some {
                    r == Err::<(usize, [u8; HELLO_LEN]), TableError>(TableError::Duplicate)
                        && final(self)@ == t
                } else if first_free(t.slots) is None {
                    r == Err::<(usize, [u8; HELLO_LEN]), TableError>(TableError::Full)
                        && final(self)@ == t
                } else {
                    match stepped.1 {
                        Err(e) => r == Err::<(usize, [u8; HELLO_LEN]), TableError>(
                            TableError::Handshake(e),
                        ) && final(self)@ == t,
                        Ok(_) => r matches Ok((k, h)) && k == first_free(t.slots)->0 && h@
                            == hello_of(t.local, t.config) && final(self)@ == (TableView {
                            slots: t.slots.update(k as int, Some(stepped.0)),
                            ..t
                        }),
                    }
                }
            }),
            count_some(final(self)@.slots) == count_some(old(self)@.slots) + if r is Ok {
                1int
            } else {
                0int
            },
            remotes_unique(old(self)@.slots) ==> remotes_unique(final(self)@.slots),
    {
        if hello.len() >= PEER_ID_LEN {
            let raw = [hello[0], hello[1], hello[2], hello[3], hello[4], hello[5], hello[6], hello[7]];
            assert(raw@ =~= hello@.subrange(0, 8));
            if self.find(PeerId::new(raw)).is_some() {
                return Err(TableError::Duplicate);
            }
        }
        let i = match self.free_slot() {
            Some(i) => i,
            None => return Err(TableError::Full),
        };
        let mut session = PeerSession::new(self.local, self.config);
        let reply = match session.on_hello(hello) {
            Ok(reply) => reply,
            Err(e) => return Err(TableError::Handshake(e)),
        };
        let hello_out = match reply {
            Some(bytes) => bytes,
            None => session.hello_bytes(),
        };
        let ghost old_slots = self@.slots;
        self.slots[i] = Some(PeerEntry { session });
        proof {
            assert(self@.slots =~= old_slots.update(i as int, Some(session@)));
            lemma_count_update(old_slots, i as int, Some(session@));
            if remotes_unique(old_slots) {
                lemma_find_none_except(old_slots, hello@.subrange(0, 8), i as int);
                lemma_unique_update(old_slots, i as int, Some(session@));
            }
        }
        Ok((i, hello_out))
    }

    /// Completes an outgoing connect when the peer's hello arrives.
    pub fn finish_connect(&mut self, slot: usize, hello: &[u8]) -> (r: Result<(), TableError>)
        ensures
            ({
                let t = old(self)@;
                if slot >= N || t.slots[slot as int] is None {
                    r == Err::<(), TableError>(TableError::Empty) && final(self)@ == t
                } else if hello_remote(hello@) matches Some(id) && spec_find_except(
                    t.slots,
                    id,
                    slot as int,
                ) is Some {
                    r == Err::<(), TableError>(TableError::Duplicate) && final(self)@ == t
                } else {
                    let stepped = spec_on_hello(t.slots[slot as int]->0, hello@);
                    match stepped.1 {
                        Err(e) => r == Err::<(), TableError>(TableError::Handshake(e))
                            && final(self)@ == t,
                        Ok(_) => r is Ok && final(self)@ == (TableView {
                            slots: t.slots.update(slot as int, Some(stepped.0)),
                            ..t
                        }),
                    }
                }
            }),
            count_some(final(self)@.slots) == count_some(old(self)@.slots),
            remotes_unique(old(self)@.slots) ==> remotes_unique(final(self)@.slots),
    {
        if slot >= N {
            return Err(TableError::Empty);
        }
        let mut session = match &self.slots[slot] {
            Some(entry) => entry.session,
            None => return Err(TableError::Empty),
        };
        if let Some(id) = remote_from_hello(hello) {
            if self.find_except(id, slot).is_some() {
                return Err(TableError::Duplicate);
            }
        }
        match session.on_hello(hello) {
            Ok(_) => {},
            Err(e) => return Err(TableError::Handshake(e)),
        }
        let ghost old_slots = self@.slots;
        self.slots[slot] = Some(PeerEntry { session });
        proof {
            assert(self@.slots =~= old_slots.update(slot as int, Some(session@)));
            lemma_count_update(old_slots, slot as int, Some(session@));
            if remotes_unique(old_slots) {
                lemma_unique_update(old_slots, slot as int, Some(session@));
            }
        }
        Ok(())
    }

    /// Empties the slot and hands back what it held. The transport side
    /// must ABORT or FINISH on its own.
    pub fn remove(&mut self, slot: usize) -> (r: Result<PeerEntry, TableError>)
        ensures
            slot < N && old(self)@.slots[slot as int] is Some ==> (r matches Ok(e) && Some(e@)
                == old(self)@.slots[slot as int] && final(self)@ == (TableView {
                slots: old(self)@.slots.update(slot as int, None),
                ..old(self)@
            })),
            !(slot < N && old(self)@.slots[slot as int] is Some) ==> r == Err::<
                PeerEntry,
                TableError,
            >(TableError::Empty) && final(self)@ == old(self)@,
            count_some(final(self)@.slots) + if r is Ok {
                1int
            } else {
                0int
            } == count_some(old(self)@.slots),
            remotes_unique(old(self)@.slots) ==> remotes_unique(final(self)@.slots),
    {
        if slot >= N {
            return Err(TableError::Empty);
        }
        let entry = match &self.slots[slot] {
            Some(e) => *e,
            None => return Err(TableError::Empty),
        };
        let ghost old_slots = self@.slots;
        self.slots[slot] = None;
        proof {
            assert(self@.slots =~= old_slots.update(slot as int, None));
            lemma_count_update(old_slots, slot as int, None);
            if remotes_unique(old_slots) {
                lemma_unique_update(old_slots, slot as int, None);
            }
        }
        Ok(entry)
    }

    /// How many slots hold an established session.
    pub fn established(&self) -> (n: usize)
        ensures
            n == count_established(self@.slots),
    {
        let ghost s = self@.slots;
        let mut n: usize = 0;
        let mut i: usize = 0;
        while i < N
            invariant
                i <= N,
                s == self@.slots,
                s.len() == N,
                n == count_established(s.subrange(0, i as int)),
                n <= i,
            decreases N - i,
        {
            proof {
                lemma_count_prefix(s, i as int);
            }
            if let Some(entry) = &self.slots[i] {
                if entry.session.state() == SessionState::Established {
                    n = n + 1;
                }
            }
            i = i + 1;
        }
        assert(s.subrange(0, N as int) =~= s);
        n
    }
}

/// The identity named by the first eight bytes of a hello.
fn remote_from_hello(hello: &[u8]) -> (r: Option<PeerId>)
    ensures
        match r {
            Some(id) => hello_remote(hello@) == Some(id@),
            None => hello_remote(hello@) is None,
        },
{
    if hello.len() < PEER_ID_LEN {
        return None;
    }
    let raw = [hello[0], hello[1], hello[2], hello[3], hello[4], hello[5], hello[6], hello[7]];
    assert(raw@ =~= hello@.subrange(0, 8));
    Some(PeerId::new(raw))
}

} // verus!
