use psicose::protocol::{crc8, Frame, FrameAssembler, FrameError, FrameType, OutBuf, Sequence};

// ---- crc ----

#[test]
fn empty_input_is_zero() {
    assert_eq!(crc8(&[]), 0x00);
}

#[test]
fn is_deterministic() {
    let a = crc8(&[0x01, 0x2A, 0xAA]);
    let b = crc8(&[0x01, 0x2A, 0xAA]);
    assert_eq!(a, b);
}

#[test]
fn detects_single_bit_flip() {
    let base = [0x01u8, 0x2A, 0xAA];
    let base_crc = crc8(&base);
    for byte_idx in 0..base.len() {
        for bit in 0..8u8 {
            let mut corrupted = base;
            corrupted[byte_idx] ^= 1 << bit;
            assert_ne!(
                crc8(&corrupted),
                base_crc,
                "undetected single-bit error at byte {byte_idx}, bit {bit}"
            );
        }
    }
}

#[test]
fn is_const_evaluable() {
    let crc: u8 = crc8(&[0xDE, 0xAD, 0xBE]);
    assert_eq!(crc, crc8(&[0xDE, 0xAD, 0xBE]));
}

#[test]
fn differs_from_identity() {
    assert_ne!(crc8(&[0xFF, 0x00, 0x00]), 0xFF ^ 0x00 ^ 0x00);
}

#[test]
fn crc_of_known_header_matches_polynomial_0x07() {
    // CRC-8/SMBUS of the single byte 0x01 is the polynomial itself.
    assert_eq!(crc8(&[0x01]), 0x07);
    assert_eq!(crc8(&[0x00, 0x00, 0x00]), 0x00);
}

// ---- frame ----

#[test]
fn roundtrip_data_frame() {
    let frame = Frame::data(42, b'A');
    assert_eq!(Frame::from_bytes(frame.to_bytes()), Ok(frame));
    assert_eq!(frame.payload(), b'A');
}

#[test]
fn control_constructors_force_data_zero() {
    assert_eq!(Frame::ack(7).payload(), 0);
    assert_eq!(Frame::nack(7).payload(), 0);
    assert_eq!(Frame::start().payload(), 0);
    assert_eq!(Frame::start().seq(), 0);
    assert_eq!(Frame::finish(255).payload(), 0);
    assert_eq!(Frame::abort().payload(), 0);
    assert_eq!(Frame::abort().seq(), 0);
}

#[test]
fn roundtrip_all_control_frames() {
    for frame in [
        Frame::ack(7),
        Frame::nack(7),
        Frame::start(),
        Frame::finish(255),
        Frame::abort(),
    ] {
        assert_eq!(Frame::from_bytes(frame.to_bytes()), Ok(frame));
    }
}

#[test]
fn rejects_unknown_type_byte() {
    let mut bytes = Frame::data(1, 2).to_bytes();
    bytes[0] = 0x00;
    assert_eq!(Frame::from_bytes(bytes), Err(FrameError::InvalidType(0x00)));
}

#[test]
fn rejects_corrupted_payload() {
    let mut bytes = Frame::data(1, 2).to_bytes();
    bytes[2] ^= 0xFF;
    assert!(matches!(
        Frame::from_bytes(bytes),
        Err(FrameError::CrcMismatch { .. })
    ));
}

#[test]
fn rejects_ack_with_nonzero_data_even_if_crc_matches() {
    let header = [FrameType::Ack.byte(), 42, 0xFF];
    let crc = crc8(&header);
    let bytes = [header[0], header[1], header[2], crc];
    assert_eq!(Frame::from_bytes(bytes), Err(FrameError::InvalidSemantics));
}

#[test]
fn rejects_start_with_nonzero_seq() {
    let header = [FrameType::Start.byte(), 1, 0];
    let crc = crc8(&header);
    let bytes = [header[0], header[1], header[2], crc];
    assert_eq!(Frame::from_bytes(bytes), Err(FrameError::InvalidSemantics));
}

#[test]
fn rejects_abort_with_nonzero_seq() {
    let header = [FrameType::Abort.byte(), 1, 0];
    let crc = crc8(&header);
    let bytes = [header[0], header[1], header[2], crc];
    assert_eq!(Frame::from_bytes(bytes), Err(FrameError::InvalidSemantics));
}

#[test]
fn seq_and_data_span_full_u8_range() {
    for &seq in &[0u8, 1, 127, 128, 254, 255] {
        for &data in &[0u8, 1, 127, 128, 254, 255] {
            assert_eq!(
                Frame::from_bytes(Frame::data(seq, data).to_bytes()),
                Ok(Frame::data(seq, data))
            );
        }
    }
}

#[test]
fn type_bytes_are_the_wire_codes() {
    assert_eq!(FrameType::Data.byte(), 0x01);
    assert_eq!(FrameType::Ack.byte(), 0x02);
    assert_eq!(FrameType::Nack.byte(), 0x03);
    assert_eq!(FrameType::Start.byte(), 0x04);
    assert_eq!(FrameType::Finish.byte(), 0x05);
    assert_eq!(FrameType::Abort.byte(), 0x06);
}

#[test]
fn frame_bytes_are_type_seq_data_crc() {
    let bytes = Frame::data(3, 0x55).to_bytes();
    assert_eq!(bytes[0], 0x01);
    assert_eq!(bytes[1], 3);
    assert_eq!(bytes[2], 0x55);
    assert_eq!(bytes[3], crc8(&[0x01, 3, 0x55]));
}

// ---- sequence ----

#[test]
fn starts_at_zero() {
    assert_eq!(Sequence::new().current(), 0);
}

#[test]
fn advance_returns_pre_increment_value() {
    let mut seq = Sequence::new();
    assert_eq!(seq.advance(), 0);
    assert_eq!(seq.advance(), 1);
    assert_eq!(seq.current(), 2);
}

#[test]
fn wraps_at_255_to_0() {
    let mut seq = Sequence::new();
    for _ in 0..255 {
        seq.advance();
    }
    assert_eq!(seq.current(), 255);
    assert_eq!(seq.advance(), 255);
    assert_eq!(seq.current(), 0, "sequence must wrap 255 -> 0, not overflow");
}

#[test]
fn previous_wraps_0_to_255() {
    let seq = Sequence::new();
    assert_eq!(seq.previous(), 255);
}

#[test]
fn from_raw_preserves_value() {
    assert_eq!(Sequence::from_raw(255).current(), 255);
    assert_eq!(Sequence::from_raw(255).previous(), 254);
}

#[test]
fn previous_undoes_advance() {
    for start in [0u8, 1, 200, 255] {
        let mut seq = Sequence::from_raw(start);
        seq.advance();
        assert_eq!(seq.previous(), start);
    }
}

// ---- outbuf ----

#[test]
fn empty_has_nothing_to_write() {
    assert!(OutBuf::empty().is_idle());
    assert_eq!(OutBuf::empty().peek(), None);
}

#[test]
fn yields_four_bytes_then_goes_idle() {
    let frame = Frame::ack(7);
    let expected = frame.to_bytes();
    let mut out = OutBuf::empty();
    out.load(&frame);
    assert!(!out.is_idle());
    for (i, &want) in expected.iter().enumerate() {
        assert_eq!(out.peek(), Some(want), "byte {i}");
        out.commit();
    }
    assert!(out.is_idle());
    assert_eq!(out.peek(), None);
}

#[test]
fn peek_without_commit_repeats_the_same_byte() {
    let mut out = OutBuf::empty();
    out.load(&Frame::nack(1));
    let first = out.peek();
    assert_eq!(out.peek(), first);
    out.commit();
    assert_ne!(out.peek(), first);
}

// ---- assembler ----

#[test]
fn yields_none_until_full() {
    let mut assembler = FrameAssembler::new();
    let bytes = Frame::data(3, 0x55).to_bytes();
    assert!(assembler.push(bytes[0]).is_none());
    assert!(assembler.push(bytes[1]).is_none());
    assert!(assembler.push(bytes[2]).is_none());
    let frame = assembler.push(bytes[3]).unwrap().unwrap();
    assert_eq!(frame.frame_type(), FrameType::Data);
    assert_eq!(frame.seq(), 3);
    assert_eq!(frame.payload(), 0x55);
}

#[test]
fn resets_after_completion_and_accepts_next_frame() {
    let mut assembler = FrameAssembler::new();
    let first = Frame::ack(1).to_bytes();
    let second = Frame::nack(2).to_bytes();

    for b in first {
        assembler.push(b);
    }
    let mut last = None;
    for b in second {
        last = assembler.push(b);
    }
    assert_eq!(last.unwrap().unwrap(), Frame::nack(2));
}

#[test]
fn explicit_reset_discards_partial_frame() {
    let mut assembler = FrameAssembler::new();
    assembler.push(0xFF);
    assembler.push(0xFF);
    assembler.reset();

    let bytes = Frame::ack(9).to_bytes();
    let mut last = None;
    for b in bytes {
        last = assembler.push(b);
    }
    assert_eq!(last.unwrap().unwrap(), Frame::ack(9));
}

#[test]
fn propagates_decode_errors_and_still_resets() {
    let mut assembler = FrameAssembler::new();
    let mut bytes = Frame::data(1, 1).to_bytes();
    bytes[0] = 0x00;
    let mut last = None;
    for b in bytes {
        last = assembler.push(b);
    }
    assert!(last.unwrap().is_err());

    let ok = Frame::ack(5).to_bytes();
    let mut last2 = None;
    for b in ok {
        last2 = assembler.push(b);
    }
    assert_eq!(last2.unwrap().unwrap(), Frame::ack(5));
}

#[test]
fn last_bytes_keeps_the_completed_frame() {
    let mut assembler = FrameAssembler::new();
    let mut bytes = Frame::data(9, 9).to_bytes();
    bytes[3] ^= 0xFF;
    for b in bytes {
        assembler.push(b);
    }
    assert_eq!(assembler.last_bytes(), bytes);
}
