use core::cell::RefCell;

use psicose::test_support::MockTransport;
use psicose::{ByteTransport, Frame, PollOutcome, Receiver, Sender, TxPoll};

pub const RING: usize = 64;

pub struct Ring {
    buf: [u8; RING],
    head: usize,
    tail: usize,
    len: usize,
}

impl Ring {
    pub const fn new() -> Self {
        Ring {
            buf: [0; RING],
            head: 0,
            tail: 0,
            len: 0,
        }
    }

    pub fn push(&mut self, byte: u8) -> bool {
        if self.len == RING {
            return false;
        }
        self.buf[self.tail] = byte;
        self.tail = (self.tail + 1) % RING;
        self.len += 1;
        true
    }

    pub fn pop(&mut self) -> Option<u8> {
        if self.len == 0 {
            return None;
        }
        let byte = self.buf[self.head];
        self.head = (self.head + 1) % RING;
        self.len -= 1;
        Some(byte)
    }
}

pub struct Wires {
    pub a_to_b: Ring,
    pub b_to_a: Ring,
}

impl Wires {
    pub const fn new() -> Self {
        Wires {
            a_to_b: Ring::new(),
            b_to_a: Ring::new(),
        }
    }
}

pub struct End<'a> {
    pub wires: &'a RefCell<Wires>,
    pub is_a: bool,
}

/// The heapless ring had no room for another byte.
#[derive(Debug, Clone, Copy, PartialEq, Eq)]
pub struct LinkFull;

impl ByteTransport for End<'_> {
    type Error = LinkFull;

    fn write_byte(&mut self, byte: u8) -> Result<(), Self::Error> {
        let mut w = self.wires.borrow_mut();
        let ok = if self.is_a {
            w.a_to_b.push(byte)
        } else {
            w.b_to_a.push(byte)
        };
        if ok {
            Ok(())
        } else {
            Err(LinkFull)
        }
    }

    fn read_byte(&mut self) -> Result<Option<u8>, Self::Error> {
        let mut w = self.wires.borrow_mut();
        Ok(if self.is_a {
            w.b_to_a.pop()
        } else {
            w.a_to_b.pop()
        })
    }
}

pub fn pump_rx<T: ByteTransport>(rx: &mut Receiver<T>, out: &mut [u8], filled: &mut usize) -> bool {
    match rx.poll() {
        Ok(PollOutcome::Delivered(byte)) => {
            if *filled < out.len() {
                out[*filled] = byte;
                *filled += 1;
            }
            false
        }
        Ok(outcome) => outcome.is_closed(),
        Err(_) => false,
    }
}

pub fn send_byte_coop<Tx, Rx>(
    sender: &mut Sender<Tx>,
    receiver: &mut Receiver<Rx>,
    data: u8,
    out: &mut [u8],
    filled: &mut usize,
) where
    Tx: ByteTransport,
    Rx: ByteTransport,
    Tx::Error: core::fmt::Debug,
    Rx::Error: core::fmt::Debug,
{
    if sender.offer(data).is_err() {
        return;
    }
    loop {
        match sender.poll() {
            Ok(TxPoll::Acked) => return,
            Ok(TxPoll::Pending) => {}
            Ok(_) | Err(_) => return,
        }
        let finished = pump_rx(receiver, out, filled);
        if finished {
            return;
        }
    }
}

pub fn start_coop<Tx, Rx>(
    sender: &mut Sender<Tx>,
    receiver: &mut Receiver<Rx>,
    out: &mut [u8],
    filled: &mut usize,
) where
    Tx: ByteTransport,
    Rx: ByteTransport,
    Tx::Error: core::fmt::Debug,
    Rx::Error: core::fmt::Debug,
{
    if sender.offer_start().is_err() {
        return;
    }
    loop {
        match sender.poll() {
            Ok(TxPoll::SessionReady) => return,
            Ok(TxPoll::Pending) => {}
            Ok(_) | Err(_) => return,
        }
        let _ = pump_rx(receiver, out, filled);
    }
}

pub fn finish_coop<Tx, Rx>(
    sender: &mut Sender<Tx>,
    receiver: &mut Receiver<Rx>,
    out: &mut [u8],
    filled: &mut usize,
) where
    Tx: ByteTransport,
    Rx: ByteTransport,
    Tx::Error: core::fmt::Debug,
    Rx::Error: core::fmt::Debug,
{
    if sender.offer_finish().is_err() {
        return;
    }
    loop {
        match sender.poll() {
            Ok(TxPoll::TransferDone) => return,
            Ok(TxPoll::Pending) => {}
            Ok(_) | Err(_) => return,
        }
        let _ = pump_rx(receiver, out, filled);
    }
}

pub fn abort_coop<Tx, Rx>(
    sender: &mut Sender<Tx>,
    receiver: &mut Receiver<Rx>,
    out: &mut [u8],
    filled: &mut usize,
) where
    Tx: ByteTransport,
    Rx: ByteTransport,
    Tx::Error: core::fmt::Debug,
    Rx::Error: core::fmt::Debug,
{
    if sender.offer_abort().is_err() {
        return;
    }
    loop {
        match sender.poll() {
            Ok(TxPoll::Aborted) => return,
            Ok(TxPoll::Pending) => {}
            Ok(_) | Err(_) => return,
        }
        let _ = pump_rx(receiver, out, filled);
    }
}




use psicose::ByteSource;


#[test]
fn delivers_bytes_in_order_across_a_sequence_wraparound() {
    const N: usize = 300;
    let wires = RefCell::new(Wires::new());
    let mut sender = Sender::new(End {
        wires: &wires,
        is_a: true,
    });
    let mut receiver = psicose::rx::Receiver::new(End {
        wires: &wires,
        is_a: false,
    });

    let mut received = [0u8; N];
    let mut n = 0usize;

    for i in 0..N {
        send_byte_coop(
            &mut sender,
            &mut receiver,
            (i % 256) as u8,
            &mut received,
            &mut n,
        );
    }

    finish_coop(&mut sender, &mut receiver, &mut received, &mut n);

    assert_eq!(n, N);
    for i in 0..N {
        assert_eq!(received[i], (i % 256) as u8);
    }
}

#[test]
fn single_byte_round_trip() {
    let wires = RefCell::new(Wires::new());
    let mut sender = Sender::new(End {
        wires: &wires,
        is_a: true,
    });
    let mut receiver = psicose::rx::Receiver::new(End {
        wires: &wires,
        is_a: false,
    });

    let mut got = [0u8; 1];
    let mut n = 0usize;
    send_byte_coop(&mut sender, &mut receiver, 0x99, &mut got, &mut n);
    finish_coop(&mut sender, &mut receiver, &mut got, &mut n);
    assert_eq!(n, 1);
    assert_eq!(got[0], 0x99);
}

#[test]
fn start_resets_the_session_mid_stream() {
    let wires = RefCell::new(Wires::new());
    let mut sender = Sender::new(End {
        wires: &wires,
        is_a: true,
    });
    let mut receiver = psicose::rx::Receiver::new(End {
        wires: &wires,
        is_a: false,
    });

    let mut got = [0u8; 4];
    let mut n = 0usize;
    send_byte_coop(&mut sender, &mut receiver, 0xA0, &mut got, &mut n);
    send_byte_coop(&mut sender, &mut receiver, 0xA1, &mut got, &mut n);
    assert_eq!(receiver.expected_seq(), 2);

    start_coop(&mut sender, &mut receiver, &mut got, &mut n);
    assert_eq!(receiver.expected_seq(), 0);
    assert_eq!(sender.next_seq(), 0);

    send_byte_coop(&mut sender, &mut receiver, 0xB0, &mut got, &mut n);
    finish_coop(&mut sender, &mut receiver, &mut got, &mut n);

    assert_eq!(n, 3);
    assert_eq!(&got[..3], &[0xA0, 0xA1, 0xB0]);
}

#[test]
fn start_after_finish_opens_a_new_session() {
    let wires = RefCell::new(Wires::new());
    let mut sender = Sender::new(End {
        wires: &wires,
        is_a: true,
    });
    let mut receiver = psicose::rx::Receiver::new(End {
        wires: &wires,
        is_a: false,
    });

    let mut got = [0u8; 2];
    let mut n = 0usize;
    send_byte_coop(&mut sender, &mut receiver, 0x11, &mut got, &mut n);
    finish_coop(&mut sender, &mut receiver, &mut got, &mut n);
    assert_eq!(receiver.state(), psicose::rx::RxState::Finished);

    start_coop(&mut sender, &mut receiver, &mut got, &mut n);
    send_byte_coop(&mut sender, &mut receiver, 0x22, &mut got, &mut n);
    finish_coop(&mut sender, &mut receiver, &mut got, &mut n);

    assert_eq!(n, 2);
    assert_eq!(&got[..2], &[0x11, 0x22]);
}

#[test]
fn ten_thousand_bytes_wrap_the_sequence_repeatedly() {
    const N: usize = 10_000;
    let wires = RefCell::new(Wires::new());
    let mut sender = Sender::new(End {
        wires: &wires,
        is_a: true,
    });
    let mut receiver = psicose::rx::Receiver::new(End {
        wires: &wires,
        is_a: false,
    });

    let mut received = [0u8; N];
    let mut n = 0usize;
    for i in 0..N {
        send_byte_coop(
            &mut sender,
            &mut receiver,
            (i % 256) as u8,
            &mut received,
            &mut n,
        );
    }
    finish_coop(&mut sender, &mut receiver, &mut received, &mut n);

    assert_eq!(n, N);
    for i in 0..N {
        assert_eq!(received[i], (i % 256) as u8);
    }
}

#[test]
fn any_blob_is_just_bytes_through_a_source() {
    // JPEG SOI + a packed config. PSICOSE does not know either type.
    let blob = [
        0xFF, 0xD8, 0xFF, 0xE0, // JPEG-looking prefix
        0x01, 0x00, 0x1E, 0x00, // "struct" fields as bytes
    ];
    let mut src = psicose::SliceSource::new(&blob);

    let wires = RefCell::new(Wires::new());
    let mut sender = Sender::new(End {
        wires: &wires,
        is_a: true,
    });
    let mut receiver = psicose::rx::Receiver::new(End {
        wires: &wires,
        is_a: false,
    });

    let mut got = [0u8; 8];
    let mut n = 0usize;
    while let Ok(Some(byte)) = src.read_byte() {
        send_byte_coop(&mut sender, &mut receiver, byte, &mut got, &mut n);
    }
    finish_coop(&mut sender, &mut receiver, &mut got, &mut n);

    assert_eq!(src.remaining(), 0);
    assert_eq!(&got[..n], &blob);
}

#[test]
fn abort_during_data_then_new_session() {
    let wires = RefCell::new(Wires::new());
    let mut sender = Sender::new(End {
        wires: &wires,
        is_a: true,
    });
    let mut receiver = psicose::rx::Receiver::new(End {
        wires: &wires,
        is_a: false,
    });

    let mut got = [0u8; 2];
    let mut n = 0usize;
    send_byte_coop(&mut sender, &mut receiver, 0x10, &mut got, &mut n);
    abort_coop(&mut sender, &mut receiver, &mut got, &mut n);
    assert_eq!(sender.state(), psicose::tx::TxState::Aborted);

    start_coop(&mut sender, &mut receiver, &mut got, &mut n);
    send_byte_coop(&mut sender, &mut receiver, 0x20, &mut got, &mut n);
    finish_coop(&mut sender, &mut receiver, &mut got, &mut n);

    assert_eq!(got[n - 1], 0x20);
    assert_eq!(receiver.expected_seq(), 1);
}

#[test]
fn one_byte_exchange_step_by_step() {
    let mut sender = Sender::new(MockTransport::with_incoming(&[]));
    assert!(sender.offer(0x5A).is_ok());
    for _ in 0..4 {
        assert_eq!(sender.poll(), Ok(TxPoll::Pending));
    }
    let data = Frame::data(0, 0x5A).to_bytes();
    assert_eq!(sender.transport().written(), &data[..]);

    let mut receiver = Receiver::new(MockTransport::with_incoming(&data));
    for _ in 0..6 {
        assert_eq!(receiver.poll(), Ok(PollOutcome::Pending));
    }
    assert_eq!(receiver.poll(), Ok(PollOutcome::Delivered(0x5A)));
    assert_eq!(receiver.expected_seq(), 1);
    let ack = Frame::ack(0).to_bytes();
    assert_eq!(receiver.transport().written(), &ack[..]);

    let mut reader = Sender::new(MockTransport::with_incoming(&ack));
    assert!(reader.offer(0x5A).is_ok());
    for _ in 0..4 {
        assert_eq!(reader.poll(), Ok(TxPoll::Pending));
    }
    for _ in 0..3 {
        assert_eq!(reader.poll(), Ok(TxPoll::Pending));
    }
    assert_eq!(reader.poll(), Ok(TxPoll::Acked));
    assert_eq!(reader.next_seq(), 1);
}
