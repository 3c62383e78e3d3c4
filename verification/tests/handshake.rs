use psicose::p2p::{LinkError, LinkEvent, LinkOffer, LinkState, PumpEvent};
use psicose::p2p::{PeerId, PeerTable, SessionConfig, SessionState, TableError};

/// Drains the offers of `from` into `to` as if each were delivered and
/// acknowledged at once; returns the events `to` reported.
fn carry(
    from: &mut LinkState,
    to: &mut LinkState,
    to_table: &mut PeerTable<4>,
) -> Vec<LinkEvent> {
    let mut events = Vec::new();
    while let Some(offer) = from.next_offer(true) {
        from.offered();
        if let LinkOffer::Byte(b) = offer {
            let ev = to.on_pump_event::<(), 4>(to_table, PumpEvent::Received(b), true).unwrap();
            events.push(ev);
        }
    }
    events
}

fn handshake(config: SessionConfig) -> (LinkState, LinkState, PeerTable<4>, PeerTable<4>, Vec<LinkEvent>, Vec<LinkEvent>) {
    let mut ta: PeerTable<4> = PeerTable::with(PeerId::new([1; 8]), config);
    let mut tb: PeerTable<4> = PeerTable::with(PeerId::new([2; 8]), config);
    let mut a = LinkState::connect(&mut ta).unwrap();
    let mut b = LinkState::accept(&tb);
    assert_eq!(a.next_offer(true), Some(LinkOffer::Start));
    assert_eq!(a.next_offer(false), None);
    let to_b = carry(&mut a, &mut b, &mut tb);
    let to_a = carry(&mut b, &mut a, &mut ta);
    (a, b, ta, tb, to_b, to_a)
}

#[test]
fn hellos_cross_and_the_connector_announces_first() {
    let (a, mut b, ta, mut tb, to_b, to_a) = handshake(SessionConfig::default_offer());
    assert_eq!(to_b.len(), 12);
    assert!(to_b.iter().all(|e| *e == LinkEvent::Progress));
    assert_eq!(to_a.len(), 12);
    assert_eq!(to_a[11], LinkEvent::Established);
    assert!(to_a[..11].iter().all(|e| *e == LinkEvent::Progress));
    assert_eq!(a.session().state(), SessionState::Established);
    assert_eq!(ta.established(), 1);
    assert_eq!(tb.established(), 1);
    // The listener announces once its own hello is out and acknowledged.
    let ev = b.on_pump_event::<(), 4>(&mut tb, PumpEvent::Sent, false).unwrap();
    assert_eq!(ev, LinkEvent::Progress);
    let ev = b.on_pump_event::<(), 4>(&mut tb, PumpEvent::Sent, true).unwrap();
    assert_eq!(ev, LinkEvent::Established);
    let ev = b.on_pump_event::<(), 4>(&mut tb, PumpEvent::Sent, true).unwrap();
    assert_eq!(ev, LinkEvent::Progress);
}

#[test]
fn window_stays_one_without_the_window_feature() {
    let (a, b, _, _, _, _) = handshake(SessionConfig::default_offer());
    assert_eq!(a.window_limit(), 1);
    assert_eq!(b.window_limit(), 1);
}

#[test]
fn negotiated_window_applies_after_the_hello() {
    let (a, b, _, _, _, _) = handshake(SessionConfig::forum());
    assert_eq!(a.window_limit(), 8);
    assert_eq!(b.window_limit(), 8);
}

#[test]
fn payload_after_the_handshake_is_received() {
    let (mut a, _, mut ta, _, _, _) = handshake(SessionConfig::default_offer());
    let ev = a.on_pump_event::<(), 4>(&mut ta, PumpEvent::Received(0x42), true).unwrap();
    assert_eq!(ev, LinkEvent::Received(0x42));
    assert_eq!(a.on_pump_event::<(), 4>(&mut ta, PumpEvent::Idle, true).unwrap(), LinkEvent::Idle);
}

#[test]
fn abort_and_close_are_written_back_to_the_table() {
    let (mut a, _, mut ta, _, _, _) = handshake(SessionConfig::default_offer());
    let slot = a.slot().unwrap();
    let ev = a.on_pump_event::<(), 4>(&mut ta, PumpEvent::Aborted, true).unwrap();
    assert_eq!(ev, LinkEvent::Aborted);
    assert_eq!(ta.get(slot).unwrap().session().state(), SessionState::Aborted);
    let ev = a.on_pump_event::<(), 4>(&mut ta, PumpEvent::Completed, true).unwrap();
    assert_eq!(ev, LinkEvent::Closed);
    assert_eq!(ta.get(slot).unwrap().session().state(), SessionState::Disconnected);
}

#[test]
fn a_second_hello_from_a_listed_peer_is_refused() {
    let (_, _, _, mut tb, _, _) = handshake(SessionConfig::default_offer());
    let mut ta2: PeerTable<4> = PeerTable::with(PeerId::new([1; 8]), SessionConfig::default_offer());
    let mut a2 = LinkState::connect(&mut ta2).unwrap();
    let mut b2 = LinkState::accept(&tb);
    let mut last = None;
    while let Some(offer) = a2.next_offer(true) {
        a2.offered();
        if let LinkOffer::Byte(byte) = offer {
            last = Some(b2.on_pump_event::<(), 4>(&mut tb, PumpEvent::Received(byte), true));
        }
    }
    assert_eq!(last, Some(Err(LinkError::Table(TableError::Duplicate))));
    assert_eq!(tb.len(), 1);
}

#[test]
fn a_full_table_refuses_to_connect() {
    let mut t: PeerTable<1> = PeerTable::new(PeerId::new([9; 8]));
    assert!(LinkState::connect(&mut t).is_ok());
    assert_eq!(LinkState::connect(&mut t).err(), Some(TableError::Full));
}
