//! A fixed-capacity, round-robin scheduler.
//!
//! [`System`] holds up to `N` actors of the same concrete type, one per
//! slot; the slot table is allocated once, at construction, and never
//! grows.

use vstd::prelude::*;
use super::actor::{Actor, Tick};

verus! {

/// Handle of a spawned actor. Stable for the lifetime of the slot.
#[derive(Debug, Clone, Copy, PartialEq, Eq, Structural, Hash)]
pub struct ActorId(usize);

impl ActorId {
    /// The slot index.
    pub closed spec fn spec_index(self) -> nat {
        self.0 as nat
    }

    /// Index into the system's slot table (`0..N`).
    pub fn index(self) -> (i: usize)
        ensures
            i == self.spec_index(),
    {
        self.0
    }
}

/// The actor table is full: [`System::spawn`] failed.
#[derive(Debug, Clone, Copy, PartialEq, Eq, Structural)]
pub struct SpawnError;

/// Result of ticking one live actor.
#[derive(Debug, Clone, Copy, PartialEq, Eq)]
pub struct Step<T> {
    /// Which actor produced this step.
    pub id: ActorId,
    /// What that actor's [`Actor::tick`] returned.
    pub tick: Tick<T>,
}

struct Slot<A> {
    actor: A,
    done: bool,
}

/// The content of a [`System`]: per slot, the actor and whether it has
/// finished; the round-robin cursor; the number of live actors.
pub struct SystemView<A> {
    /// Per slot: the actor and its `done` flag.
    pub slots: Seq<Option<(A, bool)>>,
    /// The next slot to consider.
    pub cursor: nat,
    /// Occupied slots that have not reported `Done`.
    pub live: nat,
}

/// Slot `i` holds an actor that has not reported `Done`.
pub open spec fn is_live<A>(s: Seq<Option<(A, bool)>>, i: int) -> bool {
    0 <= i < s.len() && (s[i] matches Some(p) && !p.1)
}

/// How many slots hold a live actor.
pub open spec fn count_live<A>(s: Seq<Option<(A, bool)>>) -> nat
    decreases s.len(),
{
    if s.len() == 0 {
        0
    } else {
        count_live(s.drop_last()) + if is_live(s, s.len() - 1) {
            1nat
        } else {
            0nat
        }
    }
}

/// The lowest free slot.
pub open spec fn first_vacant<A>(s: Seq<Option<(A, bool)>>) -> Option<int> {
    if exists|i: int| 0 <= i < s.len() && #[trigger] s[i] is None {
        Some(choose|i: int| 0 <= i < s.len() && s[i] is None && forall|j: int|
            0 <= j < i ==> #[trigger] s[j] is Some)
    } else {
        None
    }
}

/// The slot `k` places after `cursor`, walking `0..n` and wrapping.
pub open spec fn ring(cursor: nat, k: int, n: nat) -> int {
    (cursor + k) % (n as int)
}

/// The live slot that round-robin visits next from `cursor`.
pub open spec fn next_live<A>(s: Seq<Option<(A, bool)>>, cursor: nat) -> int {
    let n = s.len();
    let k = choose|k: int|
        0 <= k < n && is_live(s, ring(cursor, k, n)) && forall|j: int|
            0 <= j < k ==> !#[trigger] is_live(s, ring(cursor, j, n));
    ring(cursor, k, n)
}

/// Changing one slot changes the count by what left and what came.
proof fn lemma_live_update<A>(s: Seq<Option<(A, bool)>>, i: int, v: Option<(A, bool)>)
    requires
        0 <= i < s.len(),
    ensures
        count_live(s.update(i, v)) + (if is_live(s, i) { 1int } else { 0int }) == count_live(s)
            + (if v matches Some(p) && !p.1 { 1int } else { 0int }),
    decreases s.len(),
{
    let t = s.update(i, v);
    if i == s.len() - 1 {
        assert(t.drop_last() =~= s.drop_last());
    } else {
        assert(t.drop_last() =~= s.drop_last().update(i, v));
        lemma_live_update(s.drop_last(), i, v);
        assert(is_live(t, t.len() - 1) == is_live(s, s.len() - 1));
        assert(is_live(s.drop_last(), i) == is_live(s, i));
    }
}

/// The live count is at most the number of slots, and is zero exactly
/// when no slot is live.
proof fn lemma_live_bound<A>(s: Seq<Option<(A, bool)>>)
    ensures
        count_live(s) <= s.len(),
        count_live(s) == 0 <==> forall|i: int| 0 <= i < s.len() ==> !#[trigger] is_live(s, i),
    decreases s.len(),
{
    if s.len() > 0 {
        let p = s.drop_last();
        lemma_live_bound(p);
        assert forall|i: int| 0 <= i < p.len() implies #[trigger] is_live(p, i) == is_live(s, i) by {
        }
        if count_live(s) == 0 {
            assert forall|i: int| 0 <= i < s.len() implies !#[trigger] is_live(s, i) by {
                if i < p.len() {
                    assert(!is_live(p, i));
                }
            }
        } else {
            if count_live(p) > 0 {
                let i = choose|i: int| 0 <= i < p.len() && #[trigger] is_live(p, i);
                assert(is_live(s, i));
            } else {
                assert(is_live(s, s.len() - 1));
            }
        }
    }
}

/// The lowest free slot is what `first_vacant` names.
proof fn lemma_first_vacant<A>(s: Seq<Option<(A, bool)>>, i: int)
    requires
        0 <= i < s.len(),
        s[i] is None,
        forall|j: int| 0 <= j < i ==> #[trigger] s[j] is Some,
    ensures
        first_vacant(s) == Some(i),
{
    let c = choose|k: int| 0 <= k < s.len() && s[k] is None && forall|j: int|
        0 <= j < k ==> #[trigger] s[j] is Some;
    assert(0 <= c < s.len() && s[c] is None && forall|j: int| 0 <= j < c ==> #[trigger] s[j] is Some);
    if c < i {
        assert(s[c] is Some);
    }
    if i < c {
        assert(s[i] is Some);
    }
}

/// One step round the ring moves to the next slot, wrapping at `n`.
proof fn lemma_ring_step(c: nat, k: int, n: nat)
    requires
        n > 0,
        k >= 0,
    ensures
        0 <= ring(c, k, n) < n,
        ring(c, k + 1, n) == if ring(c, k, n) + 1 == n {
            0
        } else {
            ring(c, k, n) + 1
        },
{
    let r = ring(c, k, n);
    vstd::arithmetic::div_mod::lemma_add_mod_noop(c + k, 1, n as int);
    assert((c + k + 1) == c + (k + 1));
    if n == 1 {
        vstd::arithmetic::div_mod::lemma_small_mod(0, 1);
        assert(1int % 1int == 0) by {
            vstd::arithmetic::div_mod::lemma_mod_add_multiples_vanish(0, 1);
        }
    } else {
        vstd::arithmetic::div_mod::lemma_small_mod(1, n);
        if r + 1 < n {
            vstd::arithmetic::div_mod::lemma_small_mod((r + 1) as nat, n);
        } else {
            vstd::arithmetic::div_mod::lemma_mod_add_multiples_vanish(0, n as int);
            vstd::arithmetic::div_mod::lemma_small_mod(0, n);
        }
    }
}

/// Every slot is some number of steps round the ring from the cursor.
proof fn lemma_ring_cover(c: nat, t: int, n: nat)
    requires
        c < n,
        0 <= t < n,
    ensures
        exists|j: int| 0 <= j < n && #[trigger] ring(c, j, n) == t,
{
    if t >= c {
        let j = t - c;
        vstd::arithmetic::div_mod::lemma_small_mod(t as nat, n);
        assert(ring(c, j, n) == t);
    } else {
        let j = t + n - c;
        vstd::arithmetic::div_mod::lemma_mod_add_multiples_vanish(t, n as int);
        vstd::arithmetic::div_mod::lemma_small_mod(t as nat, n);
        assert(ring(c, j, n) == t);
    }
}

/// The first live slot round the ring is what `next_live` names.
proof fn lemma_next_live<A>(s: Seq<Option<(A, bool)>>, c: nat, k: int)
    requires
        0 <= k < s.len(),
        is_live(s, ring(c, k, s.len())),
        forall|j: int| 0 <= j < k ==> !#[trigger] is_live(s, ring(c, j, s.len())),
    ensures
        next_live(s, c) == ring(c, k, s.len()),
{
    let n = s.len();
    let w = choose|w: int|
        0 <= w < n && is_live(s, ring(c, w, n)) && forall|j: int|
            0 <= j < w ==> !#[trigger] is_live(s, ring(c, j, n));
    assert(0 <= w < n && is_live(s, ring(c, w, n)) && forall|j: int|
        0 <= j < w ==> !#[trigger] is_live(s, ring(c, j, n)));
    if w < k {
        assert(!is_live(s, ring(c, w, n)));
    }
    if k < w {
        assert(!is_live(s, ring(c, k, n)));
    }
}

/// Round-robin scheduler for up to `N` actors of type `A`.
///
/// Making the actor type the type parameter (instead of a trait object)
/// keeps every slot the same size, with no allocation per actor.
pub struct System<A: Actor, const N: usize> {
    slots: [Option<Slot<A>>; N],
    cursor: usize,
    live: usize,
}

/// An empty slot.
fn vacant<A>(_i: usize) -> (s: Option<Slot<A>>)
    ensures
        s is None,
{
    None
}

/// Calls `core::array::from_fn` with [`vacant`]: an array whose every
/// element is what the closure gave for its index, as std documents.
#[verifier::external_body]
fn vacant_slots<A, const N: usize>() -> (r: [Option<Slot<A>>; N])
    ensures
        forall|i: int| 0 <= i < N ==> #[trigger] r@[i] is None,
{
    core::array::from_fn(vacant)
}

/// A slot's content, taken as a pair.
pub open spec fn pair_of<A>(actor: A, done: bool) -> (A, bool) {
    (actor, done)
}

/// The slot table, each slot taken as a pair.
spec fn slot_pairs<A>(a: Seq<Option<Slot<A>>>) -> Seq<Option<(A, bool)>> {
    Seq::new(
        a.len(),
        |i: int|
            match a[i] {
                Some(s) => Some(pair_of(s.actor, s.done)),
                None => None,
            },
    )
}

/// Writing one slot writes its pair.
broadcast proof fn lemma_slot_pairs_update<A>(a: Seq<Option<Slot<A>>>, i: int, x: Option<Slot<A>>)
    requires
        0 <= i < a.len(),
    ensures
        #[trigger] slot_pairs(a.update(i, x)) == slot_pairs(a).update(
            i,
            match x {
                Some(s) => Some(pair_of(s.actor, s.done)),
                None => None,
            },
        ),
{
    assert(slot_pairs(a.update(i, x)) =~= slot_pairs(a).update(
        i,
        match x {
            Some(s) => Some(pair_of(s.actor, s.done)),
            None => None,
        },
    ));
}

impl<A: Actor, const N: usize> View for System<A, N> {
    type V = SystemView<A>;

    closed spec fn view(&self) -> SystemView<A> {
        SystemView {
            slots: slot_pairs(self.slots@),
            cursor: self.cursor as nat,
            live: self.live as nat,
        }
    }
}

impl<A: Actor, const N: usize> System<A, N> {
    /// The system's invariant: `N` slots, the cursor in range, the live
    /// count exact, and every actor ready to step.
    pub open spec fn wf(&self) -> bool {
        &&& self@.slots.len() == N
        &&& (N > 0 ==> self@.cursor < N)
        &&& (N == 0 ==> self@.cursor == 0)
        &&& self@.live == count_live(self@.slots)
        &&& forall|i: int| #![trigger self@.slots[i]]
            0 <= i < N && self@.slots[i] is Some ==> (self@.slots[i]->0).0.ready()
    }

    /// An empty system: every slot free.
    pub fn new() -> (s: Self)
        ensures
            s.wf(),
            s@.cursor == 0,
            s@.live == 0,
            s@.slots == Seq::new(N as nat, |i: int| None::<(A, bool)>),
    {
        let slots = vacant_slots::<A, N>();
        let s = System { slots, cursor: 0, live: 0 };
        assert(s@.slots =~= Seq::new(N as nat, |i: int| None::<(A, bool)>));
        proof {
            lemma_live_bound(s@.slots);
        }
        s
    }

    /// Maximum number of actors this system can hold.
    pub fn capacity(&self) -> (n: usize)
        ensures
            n == N,
    {
        N
    }

    /// Actors still scheduled: spawned and not `Done`.
    pub fn live(&self) -> (n: usize)
        ensures
            n == self@.live,
    {
        self.live
    }

    /// True when no actor is scheduled.
    pub fn is_idle(&self) -> (b: bool)
        ensures
            b == (self@.live == 0),
    {
        self.live == 0
    }

    /// Puts `actor` in the lowest free slot.
    pub fn spawn(&mut self, actor: A) -> (r: Result<ActorId, SpawnError>)
        requires
            old(self).wf(),
            actor.ready(),
        ensures
            final(self).wf(),
            match first_vacant(old(self)@.slots) {
                None => r == Err::<ActorId, SpawnError>(SpawnError) && final(self)@ == old(self)@,
                Some(i) => r matches Ok(id) && id.spec_index() == i && final(self)@ == (SystemView {
                    slots: old(self)@.slots.update(i, Some((actor, false))),
                    live: old(self)@.live + 1,
                    ..old(self)@
                }),
            },
    {
        let ghost s0 = self@.slots;
        let mut i: usize = 0;
        while i < N
            invariant
                i <= N,
                self.slots@.len() == N,
                self@ == old(self)@,
                self.wf(),
                actor.ready(),
                s0 == old(self)@.slots,
                s0.len() == N,
                forall|j: int| 0 <= j < i ==> #[trigger] s0[j] is Some,
            decreases N - i,
        {
            if self.slots[i].is_none() {
                assert(s0[i as int] is None);
                proof {
                    lemma_first_vacant(s0, i as int);
                }
                proof {
                    lemma_live_update(s0, i as int, Some((actor, false)));
                    lemma_live_bound(s0.update(i as int, Some((actor, false))));
                }
                self.slots[i] = Some(Slot { actor, done: false });
                self.live = self.live + 1;
                assert(self@.slots =~= s0.update(i as int, Some((actor, false))));
                return Ok(ActorId(i));
            }
            i = i + 1;
        }
        Err(SpawnError)
    }

    /// The actor in slot `id`, including a finished one still holding its
    /// slot.
    pub fn get(&self, id: ActorId) -> (r: Option<&A>)
        ensures
            match r {
                Some(a) => id.spec_index() < self@.slots.len() && (self@.slots[id.spec_index() as int] matches Some(p) && p.0 == *a),
                None => id.spec_index() >= self@.slots.len() || self@.slots[id.spec_index() as int] is None,
            },
    {
        if id.0 < self.slots.len() {
            match &self.slots[id.0] {
                Some(s) => Some(&s.actor),
                None => None,
            }
        } else {
            None
        }
    }

    /// The actor in slot `id`, mutably. What is written through it becomes
    /// that slot's actor; its `done` flag, the other slots, the cursor and
    /// the live count stay.
    pub fn get_mut(&mut self, id: ActorId) -> (r: Option<&mut A>)
        ensures
            match r {
                Some(a) => id.spec_index() < old(self)@.slots.len() && (old(
                    self,
                )@.slots[id.spec_index() as int] matches Some(p) && p.0 == *a),
                None => (id.spec_index() >= old(self)@.slots.len() || old(
                    self,
                )@.slots[id.spec_index() as int] is None) && final(self)@ == old(self)@,
            },
            r is Some ==> final(self)@ == (SystemView {
                slots: old(self)@.slots.update(
                    id.spec_index() as int,
                    Some((*final(r.unwrap()), (old(self)@.slots[id.spec_index() as int]->0).1)),
                ),
                ..old(self)@
            }),
    {
        if id.0 >= self.slots.len() {
            return None;
        }
        if self.slots[id.0].is_none() {
            return None;
        }
        proof {
            broadcast use lemma_slot_pairs_update;
        }
        match self.slots[id.0].as_mut() {
            Some(s) => Some(&mut s.actor),
            None => None,
        }
    }
}

impl<A: Actor, const N: usize> System<A, N> {
    /// Ticks the next live actor in round-robin order.
    ///
    /// Returns `None` when the system is idle (empty, or every actor has
    /// reported `Done`). A system of pending actors still returns `Some`:
    /// pending is not idle. An actor that reports `Done` is retired and
    /// skipped afterwards; one that fails stays scheduled, and the caller
    /// decides whether to keep ticking it. The step carries what the
    /// actor's own `tick` returned, error included.
    pub fn tick(&mut self) -> (r: Option<Result<Step<A::Output>, A::Error>>)
        requires
            old(self).wf(),
        ensures
            final(self).wf(),
            old(self)@.live == 0 ==> r is None && final(self)@ == old(self)@,
            old(self)@.live > 0 ==> ({
                let i = next_live(old(self)@.slots, old(self)@.cursor);
                let after = final(self)@.slots[i];
                &&& 0 <= i < N
                &&& is_live(old(self)@.slots, i)
                &&& final(self)@.cursor == if i + 1 == N { 0 } else { i + 1 }
                &&& forall|j: int|
                    0 <= j < N && j != i ==> #[trigger] final(self)@.slots[j] == old(self)@.slots[j]
                &&& after is Some
                &&& match r {
                    Some(Ok(step)) => {
                        &&& step.id.spec_index() == i
                        &&& (old(self)@.slots[i]->0).0.stepped((after->0).0, Ok(step.tick))
                        &&& (step.tick is Done ==> (after->0).1 && final(self)@.live == old(self)@.live - 1)
                        &&& (!(step.tick is Done) ==> !(after->0).1 && final(self)@.live == old(self)@.live)
                    },
                    Some(Err(e)) => {
                        &&& (old(self)@.slots[i]->0).0.stepped((after->0).0, Err(e))
                        &&& !(after->0).1
                        &&& final(self)@.live == old(self)@.live
                    },
                    None => false,
                }
            }),
    {
        if self.live == 0 || N == 0 {
            return None;
        }
        let ghost s0 = self@.slots;
        let ghost c0 = self@.cursor;
        proof {
            vstd::arithmetic::div_mod::lemma_small_mod(c0, N as nat);
        }
        let mut k: usize = 0;
        while k < N
            invariant
                0 < N,
                k <= N,
                old(self).wf(),
                old(self)@.live > 0,
                s0 == old(self)@.slots,
                c0 == old(self)@.cursor,
                self.slots@.len() == N,
                self@.slots == s0,
                self@.live == old(self)@.live,
                self@.cursor == ring(c0, k as int, N as nat),
                forall|j: int| 0 <= j < k ==> !#[trigger] is_live(s0, ring(c0, j, N as nat)),
            decreases N - k,
        {
            proof {
                lemma_ring_step(c0, k as int, N as nat);
            }
            let i = self.cursor;
            self.cursor = if self.cursor + 1 == N {
                0
            } else {
                self.cursor + 1
            };
            k = k + 1;
            let mut taken: Option<Slot<A>> = None;
            core::mem::swap(&mut taken, &mut self.slots[i]);
            match taken {
                None => {
                    assert(self@.slots =~= s0);
                },
                Some(mut slot) => {
                    if slot.done {
                        self.slots[i] = Some(slot);
                        assert(self@.slots =~= s0);
                    } else {
                        proof {
                            lemma_next_live(s0, c0, (k - 1) as int);
                            assert(s0[i as int] == Some(pair_of(slot.actor, slot.done)));
                        }
                        let out = slot.actor.tick();
                        let r = match out {
                            Ok(Tick::Done) => {
                                slot.done = true;
                                self.live = self.live - 1;
                                Ok(Step { id: ActorId(i), tick: Tick::Done })
                            },
                            Ok(tick) => Ok(Step { id: ActorId(i), tick }),
                            Err(err) => Err(err),
                        };
                        let ghost v = Some(pair_of(slot.actor, slot.done));
                        self.slots[i] = Some(slot);
                        proof {
                            assert(self@.slots =~= s0.update(i as int, v));
                            lemma_live_update(s0, i as int, v);
                        }
                        return Some(r);
                    }
                },
            }
        }
        proof {
            assert forall|t: int| 0 <= t < N implies !#[trigger] is_live(s0, t) by {
                lemma_ring_cover(c0, t, N as nat);
                let j = choose|j: int| 0 <= j < N && #[trigger] ring(c0, j, N as nat) == t;
                assert(!is_live(s0, ring(c0, j, N as nat)));
            }
            lemma_live_bound(s0);
        }
        None
    }
}

impl<A: Actor, const N: usize> Default for System<A, N> {
    fn default() -> (s: Self)
        ensures
            s.wf(),
            s@.cursor == 0,
            s@.live == 0,
            s@.slots == Seq::new(N as nat, |i: int| None::<(A, bool)>),
    {
        Self::new()
    }
}

} // verus!
