use core::cell::RefCell;

use psicose::{ByteTransport, PollOutcome, Receiver, Sender, TxPoll};

pub const RING: usize = 64;

pub struct Ring {
    buf: [u8; RING],
    head: usize,
    tail: usize,
    len: usize,
}

impl Ring {
    pub const fn new() -> Self {
        Ring {
            buf: [0; RING],
            head: 0,
            tail: 0,
            len: 0,
        }
    }

    pub fn push(&mut self, byte: u8) -> bool {
        if self.len == RING {
            return false;
        }
        self.buf[self.tail] = byte;
        self.tail = (self.tail + 1) % RING;
        self.len += 1;
        true
    }

    pub fn pop(&mut self) -> Option<u8> {
        if self.len == 0 {
            return None;
        }
        let byte = self.buf[self.head];
        self.head = (self.head + 1) % RING;
        self.len -= 1;
        Some(byte)
    }
}

pub struct Wires {
    pub a_to_b: Ring,
    pub b_to_a: Ring,
}

impl Wires {
    pub const fn new() -> Self {
        Wires {
            a_to_b: Ring::new(),
            b_to_a: Ring::new(),
        }
    }
}

pub struct End<'a> {
    pub wires: &'a RefCell<Wires>,
    pub is_a: bool,
}

/// The heapless ring had no room for another byte.
#[derive(Debug, Clone, Copy, PartialEq, Eq)]
pub struct LinkFull;

impl ByteTransport for End<'_> {
    type Error = LinkFull;

    fn write_byte(&mut self, byte: u8) -> Result<(), Self::Error> {
        let mut w = self.wires.borrow_mut();
        let ok = if self.is_a {
            w.a_to_b.push(byte)
        } else {
            w.b_to_a.push(byte)
        };
        if ok {
            Ok(())
        } else {
            Err(LinkFull)
        }
    }

    fn read_byte(&mut self) -> Result<Option<u8>, Self::Error> {
        let mut w = self.wires.borrow_mut();
        Ok(if self.is_a {
            w.b_to_a.pop()
        } else {
            w.a_to_b.pop()
        })
    }
}

pub fn pump_rx<T: ByteTransport>(rx: &mut Receiver<T>, out: &mut [u8], filled: &mut usize) -> bool {
    match rx.poll() {
        Ok(PollOutcome::Delivered(byte)) => {
            if *filled < out.len() {
                out[*filled] = byte;
                *filled += 1;
            }
            false
        }
        Ok(outcome) => outcome.is_closed(),
        Err(_) => false,
    }
}

pub fn send_byte_coop<Tx, Rx>(
    sender: &mut Sender<Tx>,
    receiver: &mut Receiver<Rx>,
    data: u8,
    out: &mut [u8],
    filled: &mut usize,
) where
    Tx: ByteTransport,
    Rx: ByteTransport,
    Tx::Error: core::fmt::Debug,
    Rx::Error: core::fmt::Debug,
{
    if sender.offer(data).is_err() {
        return;
    }
    loop {
        match sender.poll() {
            Ok(TxPoll::Acked) => return,
            Ok(TxPoll::Pending) => {}
            Ok(_) | Err(_) => return,
        }
        let finished = pump_rx(receiver, out, filled);
        if finished {
            return;
        }
    }
}

pub fn start_coop<Tx, Rx>(
    sender: &mut Sender<Tx>,
    receiver: &mut Receiver<Rx>,
    out: &mut [u8],
    filled: &mut usize,
) where
    Tx: ByteTransport,
    Rx: ByteTransport,
    Tx::Error: core::fmt::Debug,
    Rx::Error: core::fmt::Debug,
{
    if sender.offer_start().is_err() {
        return;
    }
    loop {
        match sender.poll() {
            Ok(TxPoll::SessionReady) => return,
            Ok(TxPoll::Pending) => {}
            Ok(_) | Err(_) => return,
        }
        let _ = pump_rx(receiver, out, filled);
    }
}

pub fn finish_coop<Tx, Rx>(
    sender: &mut Sender<Tx>,
    receiver: &mut Receiver<Rx>,
    out: &mut [u8],
    filled: &mut usize,
) where
    Tx: ByteTransport,
    Rx: ByteTransport,
    Tx::Error: core::fmt::Debug,
    Rx::Error: core::fmt::Debug,
{
    if sender.offer_finish().is_err() {
        return;
    }
    loop {
        match sender.poll() {
            Ok(TxPoll::TransferDone) => return,
            Ok(TxPoll::Pending) => {}
            Ok(_) | Err(_) => return,
        }
        let _ = pump_rx(receiver, out, filled);
    }
}

pub fn abort_coop<Tx, Rx>(
    sender: &mut Sender<Tx>,
    receiver: &mut Receiver<Rx>,
    out: &mut [u8],
    filled: &mut usize,
) where
    Tx: ByteTransport,
    Rx: ByteTransport,
    Tx::Error: core::fmt::Debug,
    Rx::Error: core::fmt::Debug,
{
    if sender.offer_abort().is_err() {
        return;
    }
    loop {
        match sender.poll() {
            Ok(TxPoll::Aborted) => return,
            Ok(TxPoll::Pending) => {}
            Ok(_) | Err(_) => return,
        }
        let _ = pump_rx(receiver, out, filled);
    }
}




use psicose::error::Error;
use psicose::fault::{FaultPolicy, FaultyTransport};
use psicose::timeout::RetryPolicy;
use psicose::window::{WindowedReceiver, WindowedSender};


fn pump<T: ByteTransport, const N: usize>(
    rx: &mut WindowedReceiver<T, N>,
    out: &mut [u8],
    filled: &mut usize,
) -> bool
where
    T::Error: core::fmt::Debug,
{
    match rx.poll().expect("rx") {
        PollOutcome::Delivered(byte) => {
            out[*filled] = byte;
            *filled += 1;
            false
        }
        PollOutcome::TransferFinished => true,
        _ => false,
    }
}

fn transfer<const N: usize>(src: &[u8], out: &mut [u8]) -> usize {
    let wires = RefCell::new(Wires::new());
    let mut sender = WindowedSender::<_, N>::with_policy(
        End {
            wires: &wires,
            is_a: true,
        },
        RetryPolicy::new(128, 16),
    );
    let mut receiver = WindowedReceiver::<_, N>::new(End {
        wires: &wires,
        is_a: false,
    });

    let mut offered = 0usize;
    let mut filled = 0usize;
    let mut finish_offered = false;
    let cap = src.len().saturating_mul(128).saturating_add(2048);

    for _ in 0..cap {
        if offered < src.len() {
            match sender.offer(src[offered]) {
                Ok(()) => offered += 1,
                Err(Error::WindowFull) => {}
                Err(e) => panic!("offer: {e:?}"),
            }
        } else if !finish_offered {
            match sender.offer_finish() {
                Ok(()) => finish_offered = true,
                Err(Error::NotIdle) => {}
                Err(e) => panic!("finish: {e:?}"),
            }
        }

        match sender.poll().expect("tx") {
            TxPoll::TransferDone => return filled,
            _ => {}
        }
        for _ in 0..8 {
            if pump(&mut receiver, out, &mut filled) {
                break;
            }
        }
    }
    panic!("windowed transfer stalled");
}

#[test]
fn w8_delivers_in_order_across_wraparound() {
    const K: usize = 300;
    let mut src = [0u8; K];
    let mut out = [0u8; K];
    for i in 0..K {
        src[i] = (i % 256) as u8;
    }
    let n = transfer::<8>(&src, &mut out);
    assert_eq!(n, K);
    assert_eq!(out, src);
}

#[test]
fn n1_matches_stop_and_wait_single_byte() {
    let src = [0x99u8];
    let mut out = [0u8; 1];
    let n = transfer::<1>(&src, &mut out);
    assert_eq!(n, 1);
    assert_eq!(out[0], 0x99);
}

#[test]
fn w4_survives_lost_data_inside_the_window() {
    const K: usize = 16;
    let mut src = [0u8; K];
    let mut out = [0u8; K];
    for i in 0..K {
        src[i] = i as u8;
    }

    let wires = RefCell::new(Wires::new());
    let mut sender = WindowedSender::<_, 4>::with_policy(
        FaultyTransport::on_write(
            End {
                wires: &wires,
                is_a: true,
            },
            FaultPolicy::drop_first(1),
        ),
        RetryPolicy::new(128, 16),
    );
    let mut receiver = WindowedReceiver::<_, 4>::new(End {
        wires: &wires,
        is_a: false,
    });

    let mut offered = 0usize;
    let mut filled = 0usize;
    let mut finish_offered = false;

    for _ in 0..16384 {
        if offered < K {
            match sender.offer(src[offered]) {
                Ok(()) => offered += 1,
                Err(Error::WindowFull) => {}
                Err(e) => panic!("{e:?}"),
            }
        } else if !finish_offered {
            if sender.offer_finish().is_ok() {
                finish_offered = true;
            }
        }
        match sender.poll().expect("tx") {
            TxPoll::TransferDone => break,
            _ => {}
        }
        for _ in 0..8 {
            if pump(&mut receiver, &mut out, &mut filled) {
                break;
            }
        }
    }

    assert_eq!(filled, K);
    assert_eq!(out, src);
}
