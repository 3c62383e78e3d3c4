use psicose::p2p::session::{PeerSession, SessionConfig, SessionState};
use psicose::p2p::stream::{Fragmenter, HeaderError, MessageHeader, MessageId, StreamId};
use psicose::p2p::table::{PeerTable, TableError};
use psicose::p2p::{Capabilities, HandshakeError, Node, PeerId, HELLO_LEN, PROTOCOL_VERSION};
use psicose::{ByteTransport, PollOutcome, Receiver, Sender, TxState};
use core::cell::RefCell;

fn cfg(window: u8, features: Capabilities) -> SessionConfig {
    SessionConfig::new(PROTOCOL_VERSION, window, features)
}

// ---- peer ----

#[test]
fn roundtrips_raw_bytes() {
    let id = PeerId::new([0x82, 0xA1, 0, 1, 2, 3, 4, 5]);
    assert_eq!(id.as_bytes(), [0x82, 0xA1, 0, 1, 2, 3, 4, 5]);
    assert_eq!(PeerId::new(id.as_bytes()), id);
    assert_eq!(PeerId::from(id.as_bytes()), id);
    assert_eq!(<[u8; 8]>::from(id), id.as_bytes());
}

#[test]
fn distinct_bytes_are_distinct_peers() {
    assert_ne!(PeerId::new([0; 8]), PeerId::new([1, 0, 0, 0, 0, 0, 0, 0]));
}

#[test]
fn label_is_padded_or_cut_to_eight_bytes() {
    assert_eq!(PeerId::from_label(b"bob").as_bytes(), [b'b', b'o', b'b', 0, 0, 0, 0, 0]);
    assert_eq!(PeerId::from_label(b"0123456789").as_bytes(), *b"01234567");
}

// ---- mod ----

#[test]
fn peer_session_stays_a_register_machine() {
    let size = core::mem::size_of::<PeerSession>();
    assert!(size <= 128, "PeerSession is {size} bytes; keep it tiny");
}

// ---- session ----

#[test]
fn config_roundtrips_through_bytes() {
    let config = cfg(4, Capabilities::window().with(Capabilities::stream()));
    assert_eq!(SessionConfig::from_bytes(config.to_bytes()), Ok(config));
}

#[test]
fn config_rejects_bad_version_and_window() {
    assert_eq!(SessionConfig::from_bytes([0, 4, 0, 0]), Err(HandshakeError::Version));
    assert_eq!(SessionConfig::from_bytes([1, 0, 0, 0]), Err(HandshakeError::Window));
    assert_eq!(SessionConfig::from_bytes([1, 9, 0, 0]), Err(HandshakeError::Window));
}

#[test]
fn new_clamps_window_into_transport_bounds() {
    assert_eq!(cfg(0, Capabilities::none()).max_window, 1);
    assert_eq!(cfg(200, Capabilities::none()).max_window, 8);
}

#[test]
fn negotiation_is_min_and_intersection() {
    let a = cfg(8, Capabilities::window().with(Capabilities::stream()));
    let b = cfg(4, Capabilities::stream());
    let n = a.negotiate(&b);
    assert_eq!(n.max_window, 4);
    assert_eq!(n.features, Capabilities::stream());
    assert_eq!(a.negotiate(&b), b.negotiate(&a));
}

#[test]
fn capabilities_or_is_union() {
    assert_eq!(
        Capabilities::stream() | Capabilities::window(),
        Capabilities::stream().with(Capabilities::window())
    );
    assert_eq!(
        (Capabilities::stream() | Capabilities::window() | Capabilities::forum()) & Capabilities::stream(),
        Capabilities::stream()
    );
    assert_eq!(SessionConfig::default_offer().max_window, 8);
    assert_eq!(SessionConfig::default_offer().features, Capabilities::stream());
}

#[test]
fn handshake_establishes_both_sides() {
    let mut a = PeerSession::new(
        PeerId::from_label(b"alice"),
        cfg(8, Capabilities::window().with(Capabilities::stream())),
    );
    let mut b = PeerSession::new(PeerId::from_label(b"bob"), cfg(4, Capabilities::stream()));

    let hello_a = a.connect();
    assert_eq!(a.state(), SessionState::Connecting);

    let reply = b.on_hello(&hello_a);
    assert_eq!(reply, Ok(Some(b.hello_bytes())));
    assert_eq!(b.state(), SessionState::Established);
    assert_eq!(b.remote(), Some(PeerId::from_label(b"alice")));

    let Ok(Some(hello_b)) = reply else {
        return;
    };
    assert_eq!(a.on_hello(&hello_b), Ok(None));
    assert_eq!(a.state(), SessionState::Established);
    assert_eq!(a.remote(), Some(PeerId::from_label(b"bob")));

    let expected = cfg(4, Capabilities::stream());
    assert_eq!(a.negotiated(), Some(expected));
    assert_eq!(b.negotiated(), Some(expected));
}

#[test]
fn hello_with_wrong_length_is_rejected() {
    let mut s = PeerSession::new(PeerId::from_label(b"solo"), cfg(1, Capabilities::none()));
    assert_eq!(s.on_hello(&[0u8; 5]), Err(HandshakeError::Length));
    assert_eq!(s.state(), SessionState::Disconnected);
}

#[test]
fn abort_leaves_the_session_reusable() {
    let mut a = PeerSession::new(PeerId::from_label(b"alice"), cfg(2, Capabilities::stream()));
    let mut b = PeerSession::new(PeerId::from_label(b"bob"), cfg(2, Capabilities::stream()));

    let hello = a.connect();
    assert!(matches!(b.on_hello(&hello), Ok(Some(_))));
    a.abort();
    assert_eq!(a.state(), SessionState::Aborted);

    let hello = a.connect();
    assert_eq!(a.state(), SessionState::Connecting);
    assert!(matches!(b.on_hello(&hello), Ok(Some(_))));
}

#[test]
fn close_then_closed_returns_to_disconnected() {
    let mut s = PeerSession::new(PeerId::from_label(b"solo"), cfg(1, Capabilities::none()));
    let _ = s.connect();
    s.close();
    assert_eq!(s.state(), SessionState::Closing);
    s.closed();
    assert_eq!(s.state(), SessionState::Disconnected);
}

#[test]
fn hello_layout_is_identity_then_config() {
    let s = PeerSession::new(PeerId::new([1, 2, 3, 4, 5, 6, 7, 8]), cfg(3, Capabilities::from_bits(0x0102)));
    assert_eq!(s.hello_bytes(), [1, 2, 3, 4, 5, 6, 7, 8, PROTOCOL_VERSION, 3, 0x01, 0x02]);
}

#[test]
fn preset_offers_announce_their_bits() {
    assert_eq!(SessionConfig::forum().features.bits(), 0b10_0111);
    assert_eq!(SessionConfig::secure().features.bits(), 0b11_0111);
    assert!(SessionConfig::secure().features.contains(Capabilities::encryption()));
    assert!(!SessionConfig::forum().features.contains(Capabilities::encryption()));
}

#[test]
fn hello_with_bad_config_leaves_session_unchanged() {
    let mut s = PeerSession::new(PeerId::from_label(b"solo"), cfg(2, Capabilities::none()));
    let _ = s.connect();
    let mut hello = [0u8; 12];
    hello[8] = 1;
    hello[9] = 0;
    assert_eq!(s.on_hello(&hello), Err(HandshakeError::Window));
    assert_eq!(s.state(), SessionState::Connecting);
    assert_eq!(s.remote(), None);
}

// ---- stream ----

#[test]
fn header_roundtrips_through_bytes() {
    let header = MessageHeader {
        stream: StreamId::new(1),
        message: MessageId::new(42),
        fragment: 3,
        last: true,
        len: 11,
    };
    assert_eq!(MessageHeader::from_bytes(header.to_bytes()), Ok(header));
}

#[test]
fn reserved_flag_bits_are_rejected() {
    let mut bytes = MessageHeader {
        stream: StreamId::control(),
        message: MessageId::new(0),
        fragment: 0,
        last: false,
        len: 0,
    }
    .to_bytes();
    bytes[5] = 0x02;
    assert_eq!(MessageHeader::from_bytes(bytes), Err(HeaderError::Flags));
}

#[test]
fn ola_mundo_fragments_into_three_pieces() {
    let post = [0x48, 0x6F, 0x6C, 0xC3, 0xA1, 0x20, 0x6D, 0x75, 0x6E, 0x64, 0x6F];
    let mut frag = Fragmenter::new(StreamId::new(1), MessageId::new(42), &post, 4);

    let mut rebuilt = [0u8; 16];
    let mut filled = 0usize;
    let mut count = 0u16;
    let mut saw_last = false;
    while let Some((header, chunk)) = frag.next_fragment() {
        assert_eq!(header.stream, StreamId::new(1));
        assert_eq!(header.message, MessageId::new(42));
        assert_eq!(header.fragment, count);
        assert_eq!(header.len as usize, chunk.len());
        rebuilt[filled..filled + chunk.len()].copy_from_slice(chunk);
        filled += chunk.len();
        count += 1;
        saw_last = header.last;
    }
    assert_eq!(count, 3);
    assert!(saw_last);
    assert_eq!(&rebuilt[..filled], &post);
}

#[test]
fn empty_message_yields_one_empty_last_fragment() {
    let mut frag = Fragmenter::new(StreamId::control(), MessageId::new(7), &[], 4);
    let first = frag.next_fragment();
    assert_eq!(
        first,
        Some((
            MessageHeader {
                stream: StreamId::control(),
                message: MessageId::new(7),
                fragment: 0,
                last: true,
                len: 0,
            },
            &[][..]
        ))
    );
    assert_eq!(frag.next_fragment(), None);
}

#[test]
fn zero_chunk_is_treated_as_one_byte() {
    let mut frag = Fragmenter::new(StreamId::new(2), MessageId::new(1), &[0xAB, 0xCD], 0);
    let mut count = 0;
    while let Some((header, chunk)) = frag.next_fragment() {
        assert_eq!(chunk.len(), 1);
        assert_eq!(header.len, 1);
        count += 1;
    }
    assert_eq!(count, 2);
}

#[test]
fn message_id_wraps_independently_of_seq() {
    assert_eq!(MessageId::new(65535).next(), MessageId::new(0));
}

#[test]
fn header_bytes_are_big_endian() {
    let header = MessageHeader {
        stream: StreamId::new(9),
        message: MessageId::new(0x1234),
        fragment: 0xABCD,
        last: false,
        len: 5,
    };
    assert_eq!(header.to_bytes(), [9, 0x12, 0x34, 0xAB, 0xCD, 0, 5]);
}

#[test]
fn remaining_counts_down_per_fragment() {
    let payload = [1u8, 2, 3, 4, 5];
    let mut frag = Fragmenter::new(StreamId::new(3), MessageId::new(1), &payload, 2);
    assert_eq!(frag.remaining(), 5);
    frag.next_fragment();
    assert_eq!(frag.remaining(), 3);
    frag.next_fragment();
    frag.next_fragment();
    assert_eq!(frag.remaining(), 0);
    assert_eq!(frag.next_fragment(), None);
}

// ---- table ----

fn tcfg() -> SessionConfig {
    SessionConfig::offer(2, Capabilities::stream())
}

#[test]
fn connect_fills_then_full() {
    let mut t = PeerTable::<2>::with(PeerId::from_label(b"alice"), tcfg());
    assert!(matches!(t.connect(), Ok((0, _))));
    assert!(matches!(t.connect(), Ok((1, _))));
    assert_eq!(t.connect(), Err(TableError::Full));
    assert_eq!(t.len(), 2);
}

#[test]
fn accept_then_find_remote() {
    let mut a = PeerSession::new(PeerId::from_label(b"alice"), tcfg());
    let hello = a.connect();
    let mut t = PeerTable::<4>::with(PeerId::from_label(b"bob"), tcfg());
    let (slot, _reply) = match t.accept(&hello) {
        Ok(v) => v,
        Err(_) => return,
    };
    assert_eq!(slot, 0);
    assert_eq!(t.find(PeerId::from_label(b"alice")), Some(0));
    assert_eq!(t.established(), 1);
    assert_eq!(t.accept(&hello), Err(TableError::Duplicate));
}

#[test]
fn finish_connect_binds_the_remote() {
    let mut t = PeerTable::<2>::with(PeerId::from_label(b"alice"), tcfg());
    let (slot, _) = match t.connect() {
        Ok(v) => v,
        Err(_) => return,
    };
    let b = PeerSession::new(PeerId::from_label(b"bob"), tcfg());
    let hello_b = b.hello_bytes();
    assert_eq!(t.finish_connect(slot, &hello_b), Ok(()));
    assert_eq!(t.find(PeerId::from_label(b"bob")), Some(slot));
    assert_eq!(t.established(), 1);
}

#[test]
fn table_of_eight_stays_small() {
    let size = core::mem::size_of::<PeerTable<8>>();
    assert!(size <= 640, "PeerTable<8> is {size} bytes; keep it a register file");
}

#[test]
fn remove_frees_the_slot_for_the_next_connect() {
    let mut t = PeerTable::<1>::with(PeerId::from_label(b"alice"), tcfg());
    assert!(matches!(t.connect(), Ok((0, _))));
    assert_eq!(t.connect(), Err(TableError::Full));
    assert!(t.remove(0).is_ok());
    assert!(t.is_empty());
    assert_eq!(t.remove(0).map(|_| ()), Err(TableError::Empty));
    assert!(matches!(t.connect(), Ok((0, _))));
    assert!(t.is_full());
}

#[test]
fn bad_hello_is_a_handshake_error_and_takes_no_slot() {
    let mut t = PeerTable::<2>::with(PeerId::from_label(b"bob"), tcfg());
    assert_eq!(t.accept(&[1, 2, 3]), Err(TableError::Handshake(HandshakeError::Length)));
    assert_eq!(t.len(), 0);
    assert_eq!(t.finish_connect(0, &[0u8; 12]), Err(TableError::Empty));
}

#[test]
fn node_reports_its_identity_and_table() {
    let mut node = Node::<4>::with(PeerId::from_label(b"alice"), SessionConfig::forum());
    assert_eq!(node.id(), PeerId::from_label(b"alice"));
    assert_eq!(node.config(), SessionConfig::forum());
    assert_eq!(node.established(), 0);
    let mut bob = PeerSession::new(PeerId::from_label(b"bob"), SessionConfig::forum());
    let hello = bob.connect();
    assert!(node.table_mut().accept(&hello).is_ok());
    assert_eq!(node.established(), 1);
    assert_eq!(node.table().find(PeerId::from_label(b"bob")), Some(0));
}

#[test]
fn table_get_mut_replaces_one_slot() {
    let mut a = PeerSession::new(PeerId::from_label(b"alice"), tcfg());
    let hello = a.connect();
    let mut t = PeerTable::<2>::with(PeerId::from_label(b"bob"), tcfg());
    assert!(t.accept(&hello).is_ok());
    assert!(matches!(t.connect(), Ok((1, _))));
    assert!(t.get_mut(2).is_none());
    assert_eq!(t.established(), 1);
    let pending = *t.get(1).unwrap();
    match t.get_mut(0) {
        Some(e) => *e = pending,
        None => panic!("slot 0 is occupied"),
    }
    assert_eq!(t.find(PeerId::from_label(b"alice")), None);
    assert_eq!(t.get(0).map(|e| e.session().state()), Some(SessionState::Connecting));
    assert_eq!(t.established(), 0);
    assert_eq!(t.len(), 2);
    assert!(t.remove(1).is_ok());
    assert!(t.get_mut(1).is_none());
}

#[test]
fn table_of_one_rejects_a_second_connect() {
    let mut table = PeerTable::<1>::new(PeerId::from_label(b"alice"));
    assert!(matches!(table.connect(), Ok((0, _))));
    assert_eq!(table.connect(), Err(TableError::Full));
}


// ---- hello over a live link ----

const RING: usize = 64;

struct Ring {
    buf: [u8; RING],
    head: usize,
    len: usize,
}

impl Ring {
    fn new() -> Self {
        Ring { buf: [0; RING], head: 0, len: 0 }
    }

    fn push(&mut self, byte: u8) -> bool {
        if self.len == RING {
            return false;
        }
        self.buf[(self.head + self.len) % RING] = byte;
        self.len += 1;
        true
    }

    fn pop(&mut self) -> Option<u8> {
        if self.len == 0 {
            return None;
        }
        let byte = self.buf[self.head];
        self.head = (self.head + 1) % RING;
        self.len -= 1;
        Some(byte)
    }
}

struct Wires {
    a_to_b: Ring,
    b_to_a: Ring,
}

struct End<'a> {
    wires: &'a RefCell<Wires>,
    is_a: bool,
}

#[derive(Debug)]
struct LinkFull;

impl ByteTransport for End<'_> {
    type Error = LinkFull;

    fn write_byte(&mut self, byte: u8) -> Result<(), LinkFull> {
        let mut w = self.wires.borrow_mut();
        let ok = if self.is_a { w.a_to_b.push(byte) } else { w.b_to_a.push(byte) };
        if ok {
            Ok(())
        } else {
            Err(LinkFull)
        }
    }

    fn read_byte(&mut self) -> Result<Option<u8>, LinkFull> {
        let mut w = self.wires.borrow_mut();
        Ok(if self.is_a { w.b_to_a.pop() } else { w.a_to_b.pop() })
    }
}

/// Ships `payload` across a stop-and-wait link, polling both ends in turn,
/// and collects what the receiving end delivers.
fn move_bytes(payload: &[u8], out: &mut [u8]) -> usize {
    let wires = RefCell::new(Wires { a_to_b: Ring::new(), b_to_a: Ring::new() });
    let mut tx = Sender::new(End { wires: &wires, is_a: true });
    let mut rx = Receiver::new(End { wires: &wires, is_a: false });

    let mut i = 0usize;
    let mut n = 0usize;
    let mut steps = 0usize;
    while steps < 1_000_000 {
        steps += 1;
        if tx.state() == TxState::Idle {
            if i < payload.len() {
                if tx.offer(payload[i]).is_ok() {
                    i += 1;
                }
            } else {
                let _ = tx.offer_finish();
            }
        }
        let _ = tx.poll();
        match rx.poll() {
            Ok(PollOutcome::Delivered(b)) => {
                if n < out.len() {
                    out[n] = b;
                    n += 1;
                }
            }
            Ok(PollOutcome::TransferFinished) => return n,
            Ok(_) => {}
            Err(_) => return n,
        }
    }
    n
}

#[test]
fn hello_handshake_crosses_the_wire() {
    let mut a = PeerSession::new(
        PeerId::from_label(b"alice"),
        SessionConfig::default_offer().with_features(Capabilities::window() | Capabilities::stream()),
    );
    let mut b = PeerSession::new(
        PeerId::from_label(b"bob"),
        SessionConfig::offer(4, Capabilities::stream()),
    );

    let hello_a = a.connect();
    let mut wire = [0u8; HELLO_LEN];
    assert_eq!(move_bytes(&hello_a, &mut wire), HELLO_LEN);

    let reply = b.on_hello(&wire);
    assert_eq!(reply, Ok(Some(b.hello_bytes())));
    assert_eq!(b.state(), SessionState::Established);

    let hello_b = b.hello_bytes();
    assert_eq!(move_bytes(&hello_b, &mut wire), HELLO_LEN);
    assert_eq!(a.on_hello(&wire), Ok(None));
    assert_eq!(a.state(), SessionState::Established);

    assert_eq!(a.remote(), Some(PeerId::from_label(b"bob")));
    assert_eq!(b.remote(), Some(PeerId::from_label(b"alice")));
    let expected = SessionConfig::offer(4, Capabilities::stream());
    assert_eq!(a.negotiated(), Some(expected));
    assert_eq!(b.negotiated(), Some(expected));
}
