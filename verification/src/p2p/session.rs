//! Peer session: identity, capabilities, and the hello handshake.
//!
//! ```text
//! CONNECT -> ESTABLISHED -> DATA ... -> FINISH -> CLOSED
//!                 \-------- ABORT -> ABORTED
//! ```
//!
//! The hello is twelve payload bytes, not a frame type:
//! `PeerId (8) | version (1) | window (1) | features (2, big-endian)`.

use vstd::prelude::*;
use crate::window::MAX_WINDOW;
use super::peer::{PeerId, PEER_ID_LEN};

verus! {

/// Version this crate speaks. Carried in the hello, never in the frame.
pub const PROTOCOL_VERSION: u8 = 1;

/// Size of a serialized session config, in payload bytes.
pub const CONFIG_WIRE_LEN: usize = 4;

/// Hello size on the wire: identity plus config.
pub const HELLO_LEN: usize = 12;

/// Feature bits announced in the hello. Negotiation is intersection.
#[derive(Debug, Clone, Copy, Default, PartialEq, Eq, Structural)]
pub struct Capabilities {
    bits: u16,
}

impl Capabilities {
    /// The raw bit set.
    pub closed spec fn spec_bits(self) -> u16 {
        self.bits
    }

    /// Two capability sets with the same bits are the same set.
    pub proof fn lemma_bits_injective(a: Capabilities, b: Capabilities)
        requires
            a.spec_bits() == b.spec_bits(),
        ensures
            a == b,
    {
    }

    /// No optional features.
    pub fn none() -> (c: Capabilities)
        ensures
            c.spec_bits() == 0,
    {
        Capabilities { bits: 0 }
    }

    /// Selective-repeat window (`N <= 8`).
    pub fn window() -> (c: Capabilities)
        ensures
            c.spec_bits() == 1,
    {
        Capabilities { bits: 1 }
    }

    /// Byte streams over the session.
    pub fn stream() -> (c: Capabilities)
        ensures
            c.spec_bits() == 2,
    {
        Capabilities { bits: 2 }
    }

    /// Application messages.
    pub fn forum() -> (c: Capabilities)
        ensures
            c.spec_bits() == 4,
    {
        Capabilities { bits: 4 }
    }

    /// Reserved: advertisement only.
    pub fn compression() -> (c: Capabilities)
        ensures
            c.spec_bits() == 8,
    {
        Capabilities { bits: 8 }
    }

    /// Sealed application payloads.
    pub fn encryption() -> (c: Capabilities)
        ensures
            c.spec_bits() == 16,
    {
        Capabilities { bits: 16 }
    }

    /// Fragmented application messages.
    pub fn fragmentation() -> (c: Capabilities)
        ensures
            c.spec_bits() == 32,
    {
        Capabilities { bits: 32 }
    }

    /// The raw bit set (wire form: big-endian `u16` in the hello).
    pub fn bits(self) -> (b: u16)
        ensures
            b == self.spec_bits(),
    {
        self.bits
    }

    /// Rebuilds a set from raw bits; unknown bits are kept.
    pub fn from_bits(bits: u16) -> (c: Capabilities)
        ensures
            c.spec_bits() == bits,
    {
        Capabilities { bits }
    }

    /// Union: announce both.
    pub fn with(self, other: Capabilities) -> (c: Capabilities)
        ensures
            c.spec_bits() == self.spec_bits() | other.spec_bits(),
    {
        Capabilities { bits: self.bits | other.bits }
    }

    /// Intersection: what both peers support. This is the negotiation.
    pub fn common(self, other: Capabilities) -> (c: Capabilities)
        ensures
            c.spec_bits() == self.spec_bits() & other.spec_bits(),
    {
        Capabilities { bits: self.bits & other.bits }
    }

    /// Does this set include every bit of `other`?
    pub fn contains(self, other: Capabilities) -> (b: bool)
        ensures
            b == (self.spec_bits() & other.spec_bits() == other.spec_bits()),
    {
        self.bits & other.bits == other.bits
    }
}

impl core::ops::BitOr for Capabilities {
    type Output = Capabilities;

    fn bitor(self, rhs: Capabilities) -> (c: Capabilities)
        ensures
            c.spec_bits() == self.spec_bits() | rhs.spec_bits(),
    {
        self.with(rhs)
    }
}

impl vstd::std_specs::ops::BitOrSpecImpl for Capabilities {
    open spec fn obeys_bitor_spec() -> bool {
        true
    }

    open spec fn bitor_req(self, rhs: Capabilities) -> bool {
        true
    }

    closed spec fn bitor_spec(self, rhs: Capabilities) -> Capabilities {
        Capabilities { bits: self.bits | rhs.bits }
    }
}

impl core::ops::BitAnd for Capabilities {
    type Output = Capabilities;

    fn bitand(self, rhs: Capabilities) -> (c: Capabilities)
        ensures
            c.spec_bits() == self.spec_bits() & rhs.spec_bits(),
    {
        self.common(rhs)
    }
}

impl vstd::std_specs::ops::BitAndSpecImpl for Capabilities {
    open spec fn obeys_bitand_spec() -> bool {
        true
    }

    open spec fn bitand_req(self, rhs: Capabilities) -> bool {
        true
    }

    closed spec fn bitand_spec(self, rhs: Capabilities) -> Capabilities {
        Capabilities { bits: self.bits & rhs.bits }
    }
}

/// What a peer offers before DATA flows. Serialized as four payload bytes.
#[derive(Debug, Clone, Copy, PartialEq, Eq, Structural)]
pub struct SessionConfig {
    /// Protocol version.
    pub protocol_version: u8,
    /// Largest selective-repeat window this peer accepts (`1..=8`).
    pub max_window: u8,
    /// Announced features.
    pub features: Capabilities,
}

/// `w` clamped into `1..=MAX_WINDOW`.
pub open spec fn clamp_window(w: u8) -> u8 {
    if w == 0 {
        1
    } else if w > 8 {
        8
    } else {
        w
    }
}

/// The four wire bytes of a config: version, window, features high byte,
/// features low byte.
pub open spec fn config_bytes(c: SessionConfig) -> Seq<u8> {
    seq![
        c.protocol_version,
        c.max_window,
        (c.features.spec_bits() / 256) as u8,
        (c.features.spec_bits() % 256) as u8,
    ]
}

/// Why a hello was rejected.
#[derive(Debug, Clone, Copy, PartialEq, Eq, Structural)]
pub enum HandshakeError {
    /// The hello did not have exactly twelve bytes.
    Length,
    /// The config carried version 0.
    Version,
    /// The config carried a window outside `1..=8`.
    Window,
}

/// What parsing four config bytes yields.
pub open spec fn spec_config_from_bytes(b: Seq<u8>) -> Result<SessionConfig, HandshakeError> {
    if b[0] == 0 {
        Err(HandshakeError::Version)
    } else if b[1] == 0 || b[1] > 8 {
        Err(HandshakeError::Window)
    } else {
        Ok(
            SessionConfig {
                protocol_version: b[0],
                max_window: b[1],
                features: Capabilities::spec_from_bits((b[2] as nat * 256 + b[3] as nat) as u16),
            },
        )
    }
}

/// A config is valid: nonzero version, window in `1..=8`.
pub open spec fn config_valid(c: SessionConfig) -> bool {
    c.protocol_version != 0 && 1 <= c.max_window <= 8
}

/// Deterministic negotiation: minimum version, minimum window,
/// intersection of features.
pub open spec fn spec_negotiate(a: SessionConfig, b: SessionConfig) -> SessionConfig {
    SessionConfig {
        protocol_version: if a.protocol_version <= b.protocol_version {
            a.protocol_version
        } else {
            b.protocol_version
        },
        max_window: if a.max_window <= b.max_window { a.max_window } else { b.max_window },
        features: Capabilities::spec_from_bits(a.features.spec_bits() & b.features.spec_bits()),
    }
}

impl Capabilities {
    /// The set with exactly these bits.
    pub closed spec fn spec_from_bits(bits: u16) -> Capabilities {
        Capabilities { bits }
    }

    /// `spec_from_bits` gives back the bits it was given.
    pub proof fn lemma_from_bits(bits: u16)
        ensures
            Capabilities::spec_from_bits(bits).spec_bits() == bits,
    {
    }

    /// Rebuilding a set from its own bits gives the same set.
    pub proof fn lemma_from_own_bits(c: Capabilities)
        ensures
            Capabilities::spec_from_bits(c.spec_bits()) == c,
    {
    }
}

impl SessionConfig {
    /// Builds a config, clamping `max_window` into `1..=MAX_WINDOW`.
    pub fn new(protocol_version: u8, max_window: u8, features: Capabilities) -> (c: SessionConfig)
        ensures
            c == (SessionConfig { protocol_version, max_window: clamp_window(max_window), features }),
    {
        let clamped = if max_window == 0 {
            1
        } else if max_window > MAX_WINDOW as u8 {
            MAX_WINDOW as u8
        } else {
            max_window
        };
        SessionConfig { protocol_version, max_window: clamped, features }
    }

    /// This crate's version plus the given window and features.
    pub fn offer(max_window: u8, features: Capabilities) -> (c: SessionConfig)
        ensures
            c == (SessionConfig {
                protocol_version: PROTOCOL_VERSION,
                max_window: clamp_window(max_window),
                features,
            }),
    {
        Self::new(PROTOCOL_VERSION, max_window, features)
    }

    /// The usual offer: this crate's version, window 8, byte streams.
    pub fn default_offer() -> (c: SessionConfig)
        ensures
            c == SessionConfig::spec_default_offer(),
            c.protocol_version == PROTOCOL_VERSION,
            c.max_window == 8,
            c.features.spec_bits() == 2,
    {
        let c = Self::new(PROTOCOL_VERSION, MAX_WINDOW as u8, Capabilities::stream());
        proof {
            Capabilities::lemma_from_own_bits(c.features);
        }
        c
    }

    /// The usual offer: this crate's version, window 8, byte streams.
    pub open spec fn spec_default_offer() -> SessionConfig {
        SessionConfig {
            protocol_version: PROTOCOL_VERSION,
            max_window: 8,
            features: Capabilities::spec_from_bits(2),
        }
    }

    /// Window 8 plus stream, window, application-message and fragmentation
    /// bits.
    pub fn forum() -> (c: SessionConfig)
        ensures
            c.protocol_version == PROTOCOL_VERSION,
            c.max_window == 8,
            c.features.spec_bits() == 2u16 | 1u16 | 4u16 | 32u16,
    {
        Self::offer(
            MAX_WINDOW as u8,
            Capabilities::stream().with(Capabilities::window()).with(Capabilities::forum()).with(
                Capabilities::fragmentation(),
            ),
        )
    }

    /// [`SessionConfig::forum`] plus the encryption bit.
    pub fn secure() -> (c: SessionConfig)
        ensures
            c.protocol_version == PROTOCOL_VERSION,
            c.max_window == 8,
            c.features.spec_bits() == 2u16 | 1u16 | 4u16 | 32u16 | 16u16,
    {
        Self::offer(
            MAX_WINDOW as u8,
            Capabilities::stream().with(Capabilities::window()).with(Capabilities::forum()).with(
                Capabilities::fragmentation(),
            ).with(Capabilities::encryption()),
        )
    }

    /// Same version and features, different window.
    pub fn window(self, max_window: u8) -> (c: SessionConfig)
        ensures
            c == (SessionConfig { max_window: clamp_window(max_window), ..self }),
    {
        Self::new(self.protocol_version, max_window, self.features)
    }

    /// Same version and window, different features.
    pub fn with_features(self, features: Capabilities) -> (c: SessionConfig)
        ensures
            c == (SessionConfig { max_window: clamp_window(self.max_window), features, ..self }),
    {
        Self::new(self.protocol_version, self.max_window, features)
    }

    /// `version | window | features_hi | features_lo`.
    pub fn to_bytes(&self) -> (b: [u8; CONFIG_WIRE_LEN])
        ensures
            b@ == config_bytes(*self),
    {
        let f = self.features.bits();
        let hi = (f >> 8u16) as u8;
        let lo = (f & 0xffu16) as u8;
        assert(hi == (f / 256) as u8) by (bit_vector)
            requires
                hi == (f >> 8u16) as u8,
        ;
        assert(lo == (f % 256) as u8) by (bit_vector)
            requires
                lo == (f & 0xffu16) as u8,
        ;
        let b = [self.protocol_version, self.max_window, hi, lo];
        assert(b@ =~= config_bytes(*self));
        b
    }

    /// Parses and validates: version nonzero, window in `1..=8`.
    pub fn from_bytes(bytes: [u8; CONFIG_WIRE_LEN]) -> (r: Result<SessionConfig, HandshakeError>)
        ensures
            r == spec_config_from_bytes(bytes@),
    {
        if bytes[0] == 0 {
            return Err(HandshakeError::Version);
        }
        if bytes[1] == 0 || bytes[1] as usize > MAX_WINDOW {
            return Err(HandshakeError::Window);
        }
        let bits: u16 = (bytes[2] as u16) * 256 + (bytes[3] as u16);
        let c = SessionConfig {
            protocol_version: bytes[0],
            max_window: bytes[1],
            features: Capabilities::from_bits(bits),
        };
        proof {
            Capabilities::lemma_from_own_bits(c.features);
        }
        Ok(c)
    }

    /// Deterministic on both ends: minimum version, minimum window,
    /// intersection of features. No follow-up round is needed.
    pub fn negotiate(&self, remote: &SessionConfig) -> (c: SessionConfig)
        ensures
            c == spec_negotiate(*self, *remote),
    {
        let c = SessionConfig {
            protocol_version: if self.protocol_version <= remote.protocol_version {
                self.protocol_version
            } else {
                remote.protocol_version
            },
            max_window: if self.max_window <= remote.max_window {
                self.max_window
            } else {
                remote.max_window
            },
            features: self.features.common(remote.features),
        };
        proof {
            Capabilities::lemma_from_own_bits(c.features);
        }
        c
    }
}

impl Default for SessionConfig {
    /// [`SessionConfig::default_offer`].
    fn default() -> (c: SessionConfig)
        ensures
            c.protocol_version == PROTOCOL_VERSION,
            c.max_window == 8,
            c.features.spec_bits() == 2,
    {
        Self::default_offer()
    }
}

/// Where a session is in its life cycle.
#[derive(Debug, Clone, Copy, PartialEq, Eq, Structural)]
pub enum SessionState {
    /// No session: initially, and after a clean close.
    Disconnected,
    /// Our hello left; the peer's has not arrived yet.
    Connecting,
    /// Hellos crossed; DATA may flow under the negotiated config.
    Established,
    /// FINISH is in flight at the transport.
    Closing,
    /// The session was cancelled.
    Aborted,
}

/// The content of a [`PeerSession`], identities taken by their bytes.
pub struct SessionView {
    /// Our identity.
    pub local: Seq<u8>,
    /// What we offer.
    pub config: SessionConfig,
    /// The peer's identity, once its hello arrived.
    pub remote: Option<Seq<u8>>,
    /// The agreed config, once established.
    pub negotiated: Option<SessionConfig>,
    /// Life-cycle state.
    pub state: SessionState,
}

/// The hello a session sends: its identity, then its config.
pub open spec fn hello_of(local: Seq<u8>, config: SessionConfig) -> Seq<u8> {
    local + config_bytes(config)
}

/// What feeding a peer's hello does to a session, and what it returns.
pub open spec fn spec_on_hello(v: SessionView, bytes: Seq<u8>) -> (
    SessionView,
    Result<Option<Seq<u8>>, HandshakeError>,
) {
    if bytes.len() != HELLO_LEN {
        (v, Err(HandshakeError::Length))
    } else {
        match spec_config_from_bytes(bytes.subrange(8, 12)) {
            Err(e) => (v, Err(e)),
            Ok(remote_cfg) => (
                SessionView {
                    remote: Some(bytes.subrange(0, 8)),
                    negotiated: Some(spec_negotiate(v.config, remote_cfg)),
                    state: SessionState::Established,
                    ..v
                },
                Ok(
                    if v.state is Connecting {
                        None
                    } else {
                        Some(hello_of(v.local, v.config))
                    },
                ),
            ),
        }
    }
}

/// A hello result taken by its bytes.
pub open spec fn hello_result_view(r: Result<Option<[u8; HELLO_LEN]>, HandshakeError>) -> Result<
    Option<Seq<u8>>,
    HandshakeError,
> {
    match r {
        Ok(Some(b)) => Ok(Some(b@)),
        Ok(None) => Ok(None),
        Err(e) => Err(e),
    }
}

/// One logical link between two peers, above one transport session.
///
/// This type never touches a transport. It produces and consumes hello
/// bytes; the caller moves them over any byte channel.
#[derive(Debug, Clone, Copy, PartialEq, Eq)]
pub struct PeerSession {
    local: PeerId,
    config: SessionConfig,
    remote: Option<PeerId>,
    negotiated: Option<SessionConfig>,
    state: SessionState,
}

impl View for PeerSession {
    type V = SessionView;

    closed spec fn view(&self) -> SessionView {
        SessionView {
            local: self.local@,
            config: self.config,
            remote: match self.remote {
                Some(id) => Some(id@),
                None => None,
            },
            negotiated: self.negotiated,
            state: self.state,
        }
    }
}

impl PeerSession {
    /// Every session's identities are eight bytes long.
    pub proof fn lemma_ids_len(s: PeerSession)
        ensures
            s@.local.len() == 8,
            s@.remote matches Some(r) ==> r.len() == 8,
    {
        PeerId::lemma_len(s.local);
        if let Some(r) = s.remote {
            PeerId::lemma_len(r);
        }
    }

    /// A disconnected session for `local`, offering `config`.
    pub fn new(local: PeerId, config: SessionConfig) -> (s: PeerSession)
        ensures
            s@ == (SessionView {
                local: local@,
                config,
                remote: None,
                negotiated: None,
                state: SessionState::Disconnected,
            }),
    {
        PeerSession {
            local,
            config,
            remote: None,
            negotiated: None,
            state: SessionState::Disconnected,
        }
    }

    /// Our identity.
    pub fn local(&self) -> (id: PeerId)
        ensures
            id@ == self@.local,
    {
        self.local
    }

    /// What we offer.
    pub fn config(&self) -> (c: SessionConfig)
        ensures
            c == self@.config,
    {
        self.config
    }

    /// The peer's identity, once a hello arrived.
    pub fn remote(&self) -> (id: Option<PeerId>)
        ensures
            match id {
                Some(p) => self@.remote == Some(p@),
                None => self@.remote is None,
            },
    {
        self.remote
    }

    /// Current life-cycle state.
    pub fn state(&self) -> (st: SessionState)
        ensures
            st == self@.state,
    {
        self.state
    }

    /// The config both sides agreed on, once established.
    pub fn negotiated(&self) -> (c: Option<SessionConfig>)
        ensures
            c == self@.negotiated,
    {
        self.negotiated
    }

    /// Our hello: `PeerId (8) | SessionConfig (4)`.
    pub fn hello_bytes(&self) -> (h: [u8; HELLO_LEN])
        ensures
            h@ == hello_of(self@.local, self@.config),
    {
        let id = self.local.as_bytes();
        let cfg = self.config.to_bytes();
        proof {
            PeerId::lemma_len(self.local);
        }
        let h = [id[0], id[1], id[2], id[3], id[4], id[5], id[6], id[7], cfg[0], cfg[1], cfg[2], cfg[3]];
        assert(h@ =~= hello_of(self@.local, self@.config));
        h
    }

    /// Starts (or restarts) a connection: forgets the previous peer and
    /// returns the hello to transmit right after START.
    pub fn connect(&mut self) -> (h: [u8; HELLO_LEN])
        ensures
            final(self)@ == (SessionView {
                remote: None,
                negotiated: None,
                state: SessionState::Connecting,
                ..old(self)@
            }),
            h@ == hello_of(old(self)@.local, old(self)@.config),
    {
        self.remote = None;
        self.negotiated = None;
        self.state = SessionState::Connecting;
        self.hello_bytes()
    }

    /// Feeds the peer's hello.
    ///
    /// Returns `Ok(Some(reply))` when we had not sent our hello yet (the
    /// accepting side transmits the reply), `Ok(None)` when this completes
    /// a connect we initiated. Either way the session becomes
    /// `Established` with the deterministic negotiation. A rejected hello
    /// leaves the session as it was.
    pub fn on_hello(&mut self, bytes: &[u8]) -> (r: Result<Option<[u8; HELLO_LEN]>, HandshakeError>)
        ensures
            final(self)@ == spec_on_hello(old(self)@, bytes@).0,
            hello_result_view(r) == spec_on_hello(old(self)@, bytes@).1,
    {
        if bytes.len() != HELLO_LEN {
            return Err(HandshakeError::Length);
        }
        let id = [bytes[0], bytes[1], bytes[2], bytes[3], bytes[4], bytes[5], bytes[6], bytes[7]];
        let cfg = [bytes[8], bytes[9], bytes[10], bytes[11]];
        assert(id@ =~= bytes@.subrange(0, 8));
        assert(cfg@ =~= bytes@.subrange(8, 12));
        let remote_cfg = match SessionConfig::from_bytes(cfg) {
            Ok(c) => c,
            Err(e) => return Err(e),
        };
        let reply = if self.state == SessionState::Connecting {
            None
        } else {
            Some(self.hello_bytes())
        };
        self.remote = Some(PeerId::new(id));
        self.negotiated = Some(self.config.negotiate(&remote_cfg));
        self.state = SessionState::Established;
        Ok(reply)
    }

    /// FINISH left at the transport; delivery of new DATA should stop.
    pub fn close(&mut self)
        ensures
            final(self)@ == (SessionView { state: SessionState::Closing, ..old(self)@ }),
    {
        self.state = SessionState::Closing;
    }

    /// FINISH was acknowledged; the session is cleanly over.
    pub fn closed(&mut self)
        ensures
            final(self)@ == (SessionView { state: SessionState::Disconnected, ..old(self)@ }),
    {
        self.state = SessionState::Disconnected;
    }

    /// ABORT happened (sent or received). The endpoint stays reusable:
    /// `connect` opens a new session.
    pub fn abort(&mut self)
        ensures
            final(self)@ == (SessionView { state: SessionState::Aborted, ..old(self)@ }),
    {
        self.state = SessionState::Aborted;
    }
}

/// A valid config survives serialization: parsing its four bytes gives
/// it back.
pub proof fn lemma_config_roundtrip(c: SessionConfig)
    requires
        config_valid(c),
    ensures
        spec_config_from_bytes(config_bytes(c)) == Ok::<SessionConfig, HandshakeError>(c),
{
    let bits = c.features.spec_bits();
    let hi = (bits / 256) as u8;
    let lo = (bits % 256) as u8;
    assert(hi as nat * 256 + lo as nat == bits);
    Capabilities::lemma_from_own_bits(c.features);
}

/// Four bytes that parse serialize back to the same four bytes.
pub proof fn lemma_config_bytes_roundtrip(b: Seq<u8>)
    requires
        b.len() == 4,
        spec_config_from_bytes(b) is Ok,
    ensures
        config_bytes(spec_config_from_bytes(b)->Ok_0) == b,
{
    let c = spec_config_from_bytes(b)->Ok_0;
    let bits: u16 = (b[2] as nat * 256 + b[3] as nat) as u16;
    Capabilities::lemma_from_bits(bits);
    assert(bits / 256 == b[2]);
    assert(bits % 256 == b[3]);
    assert(config_bytes(c) =~= b);
}

/// Only valid configs parse.
pub proof fn lemma_parsed_config_valid(b: Seq<u8>)
    requires
        b.len() == 4,
        spec_config_from_bytes(b) is Ok,
    ensures
        config_valid(spec_config_from_bytes(b)->Ok_0),
{
}

/// Negotiation does not depend on which side runs it.
pub proof fn lemma_negotiate_symmetric(a: SessionConfig, b: SessionConfig)
    ensures
        spec_negotiate(a, b) == spec_negotiate(b, a),
{
    let x = a.features.spec_bits();
    let y = b.features.spec_bits();
    assert(x & y == y & x) by (bit_vector);
}

/// Bit `k` of a capability bit set.
pub open spec fn has_bit(bits: u16, k: u16) -> bool {
    (bits >> k) & 1 == 1
}

/// Negotiation keeps exactly what both sides offer: the agreed version is
/// one of the two offered and no greater than either, likewise the agreed
/// window, and a feature bit is agreed exactly when both sides announced
/// it (none announced by both is lost, none announced by one only is
/// added).
pub proof fn lemma_negotiate_exact(a: SessionConfig, b: SessionConfig, k: u16)
    requires
        k < 16,
    ensures
        spec_negotiate(a, b).protocol_version <= a.protocol_version,
        spec_negotiate(a, b).protocol_version <= b.protocol_version,
        spec_negotiate(a, b).protocol_version == a.protocol_version || spec_negotiate(a, b).protocol_version
            == b.protocol_version,
        spec_negotiate(a, b).max_window <= a.max_window,
        spec_negotiate(a, b).max_window <= b.max_window,
        spec_negotiate(a, b).max_window == a.max_window || spec_negotiate(a, b).max_window == b.max_window,
        has_bit(spec_negotiate(a, b).features.spec_bits(), k) <==> (has_bit(a.features.spec_bits(), k)
            && has_bit(b.features.spec_bits(), k)),
{
    let x = a.features.spec_bits();
    let y = b.features.spec_bits();
    Capabilities::lemma_from_bits(x & y);
    assert((((x & y) >> k) & 1 == 1) <==> (((x >> k) & 1 == 1) && ((y >> k) & 1 == 1))) by (bit_vector)
        requires
            k < 16,
    ;
}

/// Negotiating two valid configs gives a valid config that asks no more
/// of either side: its version and window are at most each side's, and
/// its features are announced by both.
pub proof fn lemma_negotiate_bounded(a: SessionConfig, b: SessionConfig)
    requires
        config_valid(a),
        config_valid(b),
    ensures
        config_valid(spec_negotiate(a, b)),
        spec_negotiate(a, b).protocol_version <= a.protocol_version,
        spec_negotiate(a, b).protocol_version <= b.protocol_version,
        spec_negotiate(a, b).max_window <= a.max_window,
        spec_negotiate(a, b).max_window <= b.max_window,
        spec_negotiate(a, b).features.spec_bits() & a.features.spec_bits()
            == spec_negotiate(a, b).features.spec_bits(),
        spec_negotiate(a, b).features.spec_bits() & b.features.spec_bits()
            == spec_negotiate(a, b).features.spec_bits(),
{
    let x = a.features.spec_bits();
    let y = b.features.spec_bits();
    Capabilities::lemma_from_bits(x & y);
    assert((x & y) & x == x & y) by (bit_vector);
    assert((x & y) & y == x & y) by (bit_vector);
}

/// The hello handshake. A session that connected (`Connecting`) and a
/// session that had not, both with valid offers, exchange hellos: the
/// accepting side answers with its own hello, the connecting side takes
/// that answer without replying, and both end `Established`, each knowing
/// the other's identity and both holding the same negotiated config.
pub proof fn lemma_handshake(a: SessionView, b: SessionView)
    requires
        a.local.len() == 8,
        b.local.len() == 8,
        config_valid(a.config),
        config_valid(b.config),
        a.state is Connecting,
        !(b.state is Connecting),
    ensures
        ({
            let (b2, reply) = spec_on_hello(b, hello_of(a.local, a.config));
            let (a2, done) = spec_on_hello(a, hello_of(b.local, b.config));
            &&& reply == Ok::<Option<Seq<u8>>, HandshakeError>(Some(hello_of(b.local, b.config)))
            &&& done == Ok::<Option<Seq<u8>>, HandshakeError>(None)
            &&& a2.state is Established
            &&& b2.state is Established
            &&& a2.remote == Some(b.local)
            &&& b2.remote == Some(a.local)
            &&& a2.negotiated == b2.negotiated
            &&& a2.negotiated == Some(spec_negotiate(a.config, b.config))
        }),
{
    let ha = hello_of(a.local, a.config);
    let hb = hello_of(b.local, b.config);
    assert(ha.subrange(0, 8) =~= a.local);
    assert(ha.subrange(8, 12) =~= config_bytes(a.config));
    assert(hb.subrange(0, 8) =~= b.local);
    assert(hb.subrange(8, 12) =~= config_bytes(b.config));
    lemma_config_roundtrip(a.config);
    lemma_config_roundtrip(b.config);
    lemma_negotiate_symmetric(a.config, b.config);
}

/// Every hello is twelve bytes: an identity and a config.
pub proof fn lemma_hello_len(local: Seq<u8>, config: SessionConfig)
    requires
        local.len() == 8,
    ensures
        hello_of(local, config).len() == HELLO_LEN,
{
}

} // verus!
