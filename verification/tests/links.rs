use psicose::fault::{FaultPolicy, FaultyTransport};
use psicose::p2p::duplex::{DuplexCore, DuplexFull};
use psicose::protocol::Frame;
use psicose::test_support::{concat2, MockFull, MockTransport, MOCK_CAP};
use psicose::transport::{ByteTransport, FaceCore, FaceError};

// ---- fault ----

#[test]
fn drop_first_write_frame_eats_four_bytes() {
    let inner = MockTransport::with_incoming(&[]);
    let mut f = FaultyTransport::on_write(inner, FaultPolicy::drop_first(1));
    for b in [1u8, 2, 3, 4] {
        f.write_byte(b).unwrap();
    }
    assert_eq!(f.writes(), 1);
    assert!(f.inner().written().is_empty());
    for b in [5u8, 6, 7, 8] {
        f.write_byte(b).unwrap();
    }
    assert_eq!(f.inner().written(), [5, 6, 7, 8]);
}

#[test]
fn corrupt_every_flips_crc_byte() {
    let inner = MockTransport::with_incoming(&[]);
    let mut f = FaultyTransport::on_write(inner, FaultPolicy::corrupt_every(1));
    f.write_byte(0x01).unwrap();
    f.write_byte(0x00).unwrap();
    f.write_byte(0x42).unwrap();
    f.write_byte(0x00).unwrap();
    let w = f.inner().written();
    assert_eq!(w.len(), 4);
    assert_eq!(w[3], 0xFF);
}

#[test]
fn drop_every_second_frame() {
    let mut f = FaultyTransport::on_write(MockTransport::with_incoming(&[]), FaultPolicy::drop_every(2));
    for b in 1u8..=12 {
        f.write_byte(b).unwrap();
    }
    assert_eq!(f.writes(), 3);
    assert_eq!(f.inner().written(), [1, 2, 3, 4, 9, 10, 11, 12]);
}

#[test]
fn read_hold_delays_without_consuming() {
    let inner = MockTransport::with_incoming(&[0xAB]);
    let mut f = FaultyTransport::new(inner, FaultPolicy::none(), FaultPolicy::none()).with_read_hold(2);
    assert_eq!(f.read_byte(), Ok(None));
    assert_eq!(f.read_byte(), Ok(None));
    assert_eq!(f.read_byte(), Ok(Some(0xAB)));
    assert_eq!(f.read_byte(), Ok(None));
}

#[test]
fn read_corruption_flips_the_low_bit() {
    let inner = MockTransport::with_incoming(&[0x10, 0x20]);
    let mut f = FaultyTransport::new(inner, FaultPolicy::none(), FaultPolicy::corrupt_first(1));
    assert_eq!(f.read_byte(), Ok(Some(0x11)));
    assert_eq!(f.read_byte(), Ok(Some(0x20)));
}

#[test]
fn default_policy_is_a_clean_wire() {
    assert_eq!(FaultPolicy::default(), FaultPolicy::none());
    let mut f = FaultyTransport::on_write(MockTransport::with_incoming(&[]), FaultPolicy::default());
    for b in Frame::ack(3).to_bytes() {
        f.write_byte(b).unwrap();
    }
    assert_eq!(f.inner().written(), Frame::ack(3).to_bytes());
}

// ---- mock transport ----

#[test]
fn write_full_is_an_error_not_a_silent_drop() {
    let mut t = MockTransport::with_incoming(&[]);
    for i in 0..MOCK_CAP {
        assert_eq!(t.write_byte(i as u8), Ok(()));
    }
    assert_eq!(t.written().len(), MOCK_CAP);
    assert_eq!(t.write_byte(0xFF), Err(MockFull));
    assert_eq!(t.written().len(), MOCK_CAP);
    assert_eq!(t.written()[MOCK_CAP - 1], (MOCK_CAP - 1) as u8);
}

#[test]
fn mock_yields_its_script_then_none() {
    let mut t = MockTransport::with_incoming(&[1, 2]);
    assert_eq!(t.read_byte(), Ok(Some(1)));
    assert_eq!(t.read_byte(), Ok(Some(2)));
    assert_eq!(t.read_byte(), Ok(None));
}

// ---- duplex wire ----

#[test]
fn duplex_ack_goes_to_tx_data_goes_to_rx() {
    let mut wire = DuplexCore::new();

    for b in Frame::data(0, 0x42).to_bytes() {
        assert_eq!(wire.write(true, b), Ok(()));
    }
    for b in Frame::ack(0).to_bytes() {
        assert_eq!(wire.write(false, b), Ok(()));
    }

    let mut data = [0u8; 4];
    let mut i = 0;
    while i < 4 {
        data[i] = match wire.read(false, false) {
            Ok(Some(b)) => b,
            _ => 0,
        };
        i += 1;
    }
    assert_eq!(data, Frame::data(0, 0x42).to_bytes());

    let mut ack = [0u8; 4];
    i = 0;
    while i < 4 {
        ack[i] = match wire.read(true, true) {
            Ok(Some(b)) => b,
            _ => 0,
        };
        i += 1;
    }
    assert_eq!(ack, Frame::ack(0).to_bytes());

    assert_eq!(wire.read(true, false), Ok(None));
    assert_eq!(wire.read(false, true), Ok(None));
}

#[test]
fn duplex_crc_miss_reaches_rx_not_tx() {
    let mut wire = DuplexCore::new();

    let mut bad = Frame::data(0, 0x42).to_bytes();
    bad[3] ^= 0xFF;
    for b in bad {
        assert_eq!(wire.write(true, b), Ok(()));
    }

    let mut got = [0u8; 4];
    let mut i = 0;
    while i < 4 {
        got[i] = match wire.read(false, false) {
            Ok(Some(b)) => b,
            _ => 0,
        };
        i += 1;
    }
    assert_eq!(got, bad);
    assert_eq!(wire.read(true, true), Ok(None));
}

#[test]
fn duplex_lane_refuses_a_sixty_fifth_byte() {
    let mut wire = DuplexCore::new();
    for _ in 0..64 {
        assert_eq!(wire.write(true, 0x01), Ok(()));
    }
    assert_eq!(wire.write(true, 0x01), Err(DuplexFull));
    assert_eq!(wire.write(false, 0x01), Ok(()));
}

// ---- link face ----

#[test]
fn face_ack_goes_to_tx_data_goes_to_rx() {
    let incoming = concat2(Frame::data(0, 0x42).to_bytes(), Frame::ack(0).to_bytes());
    let mut face = FaceCore::new(MockTransport::with_incoming(&incoming));

    let mut data = [0u8; 4];
    let mut i = 0;
    while i < 4 {
        data[i] = match face.read_payload() {
            Ok(Some(b)) => b,
            _ => 0,
        };
        i += 1;
    }
    assert_eq!(data, Frame::data(0, 0x42).to_bytes());

    let mut ack = [0u8; 4];
    i = 0;
    while i < 4 {
        ack[i] = match face.read_control() {
            Ok(Some(b)) => b,
            _ => 0,
        };
        i += 1;
    }
    assert_eq!(ack, Frame::ack(0).to_bytes());
}

#[test]
fn face_crc_miss_reaches_rx_not_tx() {
    let mut bad = Frame::data(0, 0x42).to_bytes();
    bad[3] ^= 0xFF;
    let mut face = FaceCore::new(MockTransport::with_incoming(&bad));

    let mut got = [0u8; 4];
    let mut i = 0;
    while i < 4 {
        got[i] = match face.read_payload() {
            Ok(Some(b)) => b,
            _ => 0,
        };
        i += 1;
    }
    assert_eq!(got, bad);
    assert_eq!(face.read_control(), Ok(None));
}

#[test]
fn writes_reach_the_physical_port() {
    let mut face = FaceCore::new(MockTransport::with_incoming(&[]));
    assert_eq!(face.write_byte(0xAA), Ok(()));
    assert_eq!(face.write_byte(0xBB), Ok(()));
    assert_eq!(face.port_mut().written(), &[0xAA, 0xBB]);
}

#[test]
fn face_port_error_is_reported() {
    let mut face = FaceCore::new(MockTransport::with_incoming(&[]));
    for _ in 0..MOCK_CAP {
        assert_eq!(face.write_byte(0), Ok(()));
    }
    assert_eq!(face.write_byte(0), Err(FaceError::Port(MockFull)));
}
