use psicose::actors::{Actor, ActorId, RxActor, SpawnError, Step, System, Tick};
use psicose::error::Error;
use psicose::protocol::Frame;
use psicose::test_support::{concat2, MockTransport};
use psicose::transport::ByteTransport;

struct Once {
    fired: bool,
}

impl Actor for Once {
    type Error = core::convert::Infallible;
    type Output = u8;

    fn tick(&mut self) -> Result<Tick<u8>, Self::Error> {
        if self.fired {
            return Ok(Tick::Done);
        }
        self.fired = true;
        Ok(Tick::Ready(7))
    }
}

struct Counter {
    next: u8,
    left: u8,
}

impl Actor for Counter {
    type Error = core::convert::Infallible;
    type Output = u8;

    fn tick(&mut self) -> Result<Tick<u8>, Self::Error> {
        if self.left == 0 {
            return Ok(Tick::Done);
        }
        self.left -= 1;
        let v = self.next;
        self.next += 1;
        Ok(Tick::Ready(v))
    }
}

struct Pending;

impl Actor for Pending {
    type Error = core::convert::Infallible;
    type Output = u8;

    fn tick(&mut self) -> Result<Tick<u8>, Self::Error> {
        Ok(Tick::Pending)
    }
}

struct Fail {
    remaining_ok: u8,
}

impl Actor for Fail {
    type Error = u8;
    type Output = u8;

    fn tick(&mut self) -> Result<Tick<u8>, Self::Error> {
        if self.remaining_ok > 0 {
            self.remaining_ok -= 1;
            return Ok(Tick::Pending);
        }
        Err(9)
    }
}

fn ready(step: Option<Result<Step<u8>, core::convert::Infallible>>) -> (usize, u8) {
    match step {
        Some(Ok(step)) => match step.tick {
            Tick::Ready(v) => (step.id.index(), v),
            tick => {
                assert_eq!(tick, Tick::Ready(0));
                (0, 0)
            }
        },
        other => {
            assert!(other.is_some());
            (0, 0)
        }
    }
}

fn tick_until_settled<T: ByteTransport>(actor: &mut RxActor<T>) -> Result<Tick<u8>, Error<T::Error>> {
    loop {
        match actor.tick()? {
            Tick::Pending => continue,
            other => return Ok(other),
        }
    }
}

// ---- actor ----

#[test]
fn pending_ready_done_are_distinct() {
    assert_ne!(Tick::<u8>::Pending, Tick::Ready(0));
    assert_ne!(Tick::<u8>::Ready(1), Tick::Done);
    assert_ne!(Tick::<u8>::Pending, Tick::Done);
}

#[test]
fn scripted_actor_emits_ready_then_done() {
    let mut actor = Once { fired: false };
    assert_eq!(actor.tick().unwrap(), Tick::Ready(7));
    assert_eq!(actor.tick().unwrap(), Tick::Done);
    assert_eq!(actor.tick().unwrap(), Tick::Done);
}

// ---- rx actor ----

#[test]
fn pending_until_frame_is_assembled_and_ack_is_written() {
    let bytes = Frame::data(0, 0x42).to_bytes();
    let mut actor = RxActor::new(MockTransport::with_incoming(&bytes));

    assert_eq!(actor.tick().unwrap(), Tick::Pending);
    assert_eq!(actor.tick().unwrap(), Tick::Pending);
    assert_eq!(actor.tick().unwrap(), Tick::Pending);
    assert_eq!(actor.tick().unwrap(), Tick::Pending);
    assert_eq!(tick_until_settled(&mut actor).unwrap(), Tick::Ready(0x42));
}

#[test]
fn delivers_in_order_byte_and_finish_is_done() {
    let incoming = concat2(Frame::data(0, 0xAA).to_bytes(), Frame::finish(1).to_bytes());
    let mut actor = RxActor::new(MockTransport::with_incoming(&incoming));

    assert_eq!(tick_until_settled(&mut actor).unwrap(), Tick::Ready(0xAA));
    assert_eq!(tick_until_settled(&mut actor).unwrap(), Tick::Done);
}

#[test]
fn duplicate_retransmission_is_pending_not_ready() {
    let incoming = concat2(Frame::data(0, 0x11).to_bytes(), Frame::data(0, 0x11).to_bytes());
    let mut actor = RxActor::new(MockTransport::with_incoming(&incoming));

    assert_eq!(tick_until_settled(&mut actor).unwrap(), Tick::Ready(0x11));
    assert_eq!(actor.tick().unwrap(), Tick::Pending);
    assert_eq!(actor.tick().unwrap(), Tick::Pending);
    assert_eq!(actor.tick().unwrap(), Tick::Pending);
    assert_eq!(actor.tick().unwrap(), Tick::Pending);
    assert_eq!(actor.receiver().expected_seq(), 1);
}

#[test]
fn two_links_are_served_by_one_system_without_blocking() {
    let mut sys: System<RxActor<MockTransport>, 2> = System::new();
    let a = sys
        .spawn(RxActor::new(MockTransport::with_incoming(&Frame::data(0, 0x10).to_bytes())))
        .unwrap();
    let b = sys
        .spawn(RxActor::new(MockTransport::with_incoming(&Frame::data(0, 0x20).to_bytes())))
        .unwrap();

    let mut got_a = None;
    let mut got_b = None;
    for _ in 0..32 {
        let Some(Ok(step)) = sys.tick() else {
            break;
        };
        if let Tick::Ready(byte) = step.tick {
            if step.id == a {
                got_a = Some(byte);
            } else if step.id == b {
                got_b = Some(byte);
            }
        }
    }

    assert_eq!(got_a, Some(0x10));
    assert_eq!(got_b, Some(0x20));
}

#[test]
fn corrupted_frame_is_rejected_not_delivered() {
    let mut bytes = Frame::data(0, 1).to_bytes();
    bytes[2] ^= 0xFF;
    let mut actor = RxActor::new(MockTransport::with_incoming(&bytes));

    for _ in 0..bytes.len() {
        assert_eq!(actor.tick().unwrap(), Tick::Pending);
    }
    assert_eq!(actor.receiver().expected_seq(), 0);
}

#[test]
fn abort_ends_the_rx_actor() {
    let mut actor = RxActor::new(MockTransport::with_incoming(&Frame::abort().to_bytes()));
    assert_eq!(tick_until_settled(&mut actor).unwrap(), Tick::Done);
    let rx = actor.into_receiver();
    assert_eq!(rx.transport().written(), Frame::ack(0).to_bytes());
}

// ---- system ----

#[test]
fn spawn_assigns_stable_ids_in_slot_order() {
    let mut sys: System<Counter, 3> = System::new();
    assert_eq!(sys.spawn(Counter { next: 0, left: 1 }).map(|id| id.index()), Ok(0));
    assert_eq!(sys.spawn(Counter { next: 0, left: 1 }).map(|id| id.index()), Ok(1));
    assert_eq!(sys.live(), 2);
    assert_eq!(sys.capacity(), 3);
}

#[test]
fn spawn_fails_when_full() {
    let mut sys: System<Pending, 1> = System::new();
    assert!(sys.spawn(Pending).is_ok());
    assert_eq!(sys.spawn(Pending).map(|id: ActorId| id.index()), Err(SpawnError));
}

#[test]
fn tick_none_when_empty() {
    let mut sys: System<Pending, 4> = System::new();
    assert!(sys.is_idle());
    assert!(sys.tick().is_none());
}

#[test]
fn round_robin_visits_in_spawn_order() {
    let mut sys: System<Counter, 2> = System::new();
    assert!(sys.spawn(Counter { next: 10, left: 2 }).is_ok());
    assert!(sys.spawn(Counter { next: 20, left: 2 }).is_ok());

    assert_eq!(ready(sys.tick()), (0, 10));
    assert_eq!(ready(sys.tick()), (1, 20));
    assert_eq!(ready(sys.tick()), (0, 11));
    assert_eq!(ready(sys.tick()), (1, 21));
}

#[test]
fn done_actor_is_retired_and_skipped() {
    let mut sys: System<Counter, 2> = System::new();
    assert!(sys.spawn(Counter { next: 1, left: 1 }).is_ok());
    assert!(sys.spawn(Counter { next: 2, left: 3 }).is_ok());

    assert_eq!(ready(sys.tick()), (0, 1));
    assert_eq!(sys.tick().map(|r| r.map(|s| s.tick)), Some(Ok(Tick::Ready(2))));

    assert_eq!(sys.tick().map(|r| r.map(|s| s.tick)), Some(Ok(Tick::Done)));
    assert_eq!(sys.live(), 1);

    assert_eq!(ready(sys.tick()), (1, 3));
    assert_eq!(ready(sys.tick()), (1, 4));
    assert_eq!(sys.tick().map(|r| r.map(|s| s.tick)), Some(Ok(Tick::Done)));
    assert!(sys.tick().is_none());
}

#[test]
fn pending_is_not_idle() {
    let mut sys: System<Pending, 1> = System::new();
    assert!(sys.spawn(Pending).is_ok());
    assert!(!sys.is_idle());
    assert_eq!(sys.tick().map(|r| r.map(|s| s.tick)), Some(Ok(Tick::Pending)));
    assert_eq!(sys.live(), 1);
}

#[test]
fn error_is_propagated_and_actor_stays_scheduled() {
    let mut sys: System<Fail, 1> = System::new();
    let spawned = sys.spawn(Fail { remaining_ok: 1 });
    assert!(spawned.is_ok());
    if let Ok(id) = spawned {
        assert_eq!(sys.tick().map(|r| r.map(|s| s.tick)), Some(Ok(Tick::Pending)));
        assert_eq!(sys.tick(), Some(Err(9)));
        assert_eq!(sys.live(), 1);
        assert!(sys.get(id).is_some());
        assert_eq!(sys.tick(), Some(Err(9)));
    }
}

#[test]
fn finished_actor_keeps_its_slot() {
    let mut sys: System<Once, 1> = System::new();
    let id = sys.spawn(Once { fired: false }).unwrap();
    assert_eq!(ready(sys.tick()), (0, 7));
    assert_eq!(sys.tick().map(|r| r.map(|s| s.tick)), Some(Ok(Tick::Done)));
    assert!(sys.is_idle());
    assert!(sys.get(id).is_some());
    assert!(sys.tick().is_none());
}

#[test]
fn get_mut_edits_the_spawned_actor() {
    let mut sys: System<Counter, 2> = System::new();
    let id = sys.spawn(Counter { next: 10, left: 1 }).unwrap();
    if let Some(c) = sys.get_mut(id) {
        c.next = 50;
        c.left = 2;
    } else {
        panic!("spawned actor must be reachable");
    }
    assert_eq!(ready(sys.tick()), (0, 50));
    assert_eq!(ready(sys.tick()), (0, 51));
    assert_eq!(sys.get(id).map(|c| c.next), Some(52));
}

#[test]
fn get_mut_of_free_slot_is_none() {
    let mut sys: System<Pending, 2> = System::new();
    let id = sys.spawn(Pending).unwrap();
    assert!(sys.get_mut(id).is_some());
    let spare = sys.spawn(Pending).unwrap();
    assert_eq!(spare.index(), 1);
    let mut empty: System<Pending, 2> = System::new();
    assert!(empty.get_mut(spare).is_none());
    assert!(empty.get_mut(id).is_none());
}
