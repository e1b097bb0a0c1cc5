//! Hybrid logical clocks.

use vstd::prelude::*;

use crate::domain::ActorId;
use crate::text::{compare_str, lex_order, Order, order_value};

verus! {

/// Hybrid logical timestamp. Actor identity provides deterministic final ordering.
#[derive(Clone, Debug, PartialEq, Eq)]
pub struct Hlc {
    pub physical_ms: u64,
    pub logical: u32,
    pub actor_id: ActorId,
}

/// Three-way order of timestamps: physical time, then logical counter, then
/// the actor identifier in lexicographic order.
pub open spec fn hlc_order(a: Hlc, b: Hlc) -> int {
    if a.physical_ms < b.physical_ms {
        -1
    } else if a.physical_ms > b.physical_ms {
        1
    } else if a.logical < b.logical {
        -1
    } else if a.logical > b.logical {
        1
    } else {
        lex_order(a.actor_id.0@, b.actor_id.0@)
    }
}

/// Whether `(p1, l1)` comes strictly before `(p2, l2)` in clock order.
pub open spec fn clock_before(p1: u64, l1: u32, p2: u64, l2: u32) -> bool {
    p1 < p2 || (p1 == p2 && l1 < l2)
}

/// `x + 1`, or `x` where that would exceed `u32::MAX`.
pub open spec fn saturating_succ(x: u32) -> u32 {
    if x < u32::MAX {
        (x + 1) as u32
    } else {
        x
    }
}

/// Clock state after a local event observed at `wall`.
pub open spec fn next_state(physical: u64, logical: u32, wall: u64) -> (u64, u32) {
    if wall > physical {
        (wall, 0)
    } else {
        (physical, saturating_succ(logical))
    }
}

/// Clock state after observing a remote `(rp, rl)` at `wall`.
pub open spec fn observe_state(physical: u64, logical: u32, rp: u64, rl: u32, wall: u64) -> (
    u64,
    u32,
) {
    let max_local = if wall > physical {
        wall
    } else {
        physical
    };
    let next = if max_local > rp {
        max_local
    } else {
        rp
    };
    let next_logical = if next == physical && next == rp {
        saturating_succ(
            if logical > rl {
                logical
            } else {
                rl
            },
        )
    } else if next == physical {
        saturating_succ(logical)
    } else if next == rp {
        saturating_succ(rl)
    } else {
        0
    };
    (next, next_logical)
}

impl Hlc {
    /// Compare two timestamps in clock order.
    pub fn compare(&self, other: &Hlc) -> (result: Order)
        ensures
            order_value(result) == hlc_order(*self, *other),
    {
        if self.physical_ms < other.physical_ms {
            Order::Less
        } else if self.physical_ms > other.physical_ms {
            Order::Greater
        } else if self.logical < other.logical {
            Order::Less
        } else if self.logical > other.logical {
            Order::Greater
        } else {
            compare_str(self.actor_id.as_str(), other.actor_id.as_str())
        }
    }
}

/// A node's hybrid logical clock.
#[derive(Clone, Debug, PartialEq, Eq)]
pub struct HlcClock {
    physical_ms: u64,
    logical: u32,
    actor_id: ActorId,
}

impl HlcClock {
    /// The clock's current physical component.
    pub closed spec fn physical(self) -> u64 {
        self.physical_ms
    }

    /// The clock's current logical component.
    pub closed spec fn counter(self) -> u32 {
        self.logical
    }

    /// The actor the clock stamps events for.
    pub closed spec fn actor(self) -> ActorId {
        self.actor_id
    }

    /// The timestamp the clock currently stands at.
    pub open spec fn current(self) -> Hlc {
        Hlc { physical_ms: self.physical(), logical: self.counter(), actor_id: self.actor() }
    }

    pub fn new(actor_id: ActorId) -> (result: Self)
        ensures
            result.physical() == 0,
            result.counter() == 0,
            result.actor() == actor_id,
    {
        HlcClock { physical_ms: 0, logical: 0, actor_id }
    }

    pub fn from_timestamp(timestamp: Hlc) -> (result: Self)
        ensures
            result.current() == timestamp,
    {
        HlcClock {
            physical_ms: timestamp.physical_ms,
            logical: timestamp.logical,
            actor_id: timestamp.actor_id,
        }
    }

    /// Advance for a local event, tolerating a wall clock that moved backwards.
    pub fn next(&mut self, wall_clock_ms: u64) -> (result: Hlc)
        ensures
            (final(self).physical(), final(self).counter()) == next_state(
                old(self).physical(),
                old(self).counter(),
                wall_clock_ms,
            ),
            final(self).actor() == old(self).actor(),
            result == final(self).current(),
    {
        if wall_clock_ms > self.physical_ms {
            self.physical_ms = wall_clock_ms;
            self.logical = 0;
        } else {
            self.logical = self.logical.saturating_add(1);
        }
        self.timestamp()
    }

    /// Observe a remote timestamp and advance according to the HLC merge algorithm.
    pub fn observe(&mut self, remote: &Hlc, wall_clock_ms: u64) -> (result: Hlc)
        ensures
            (final(self).physical(), final(self).counter()) == observe_state(
                old(self).physical(),
                old(self).counter(),
                remote.physical_ms,
                remote.logical,
                wall_clock_ms,
            ),
            final(self).actor() == old(self).actor(),
            result == final(self).current(),
    {
        let local_physical = self.physical_ms;
        let max_local = if wall_clock_ms > local_physical {
            wall_clock_ms
        } else {
            local_physical
        };
        let next_physical = if max_local > remote.physical_ms {
            max_local
        } else {
            remote.physical_ms
        };
        self.logical =
            if next_physical == local_physical && next_physical == remote.physical_ms {
            let larger = if self.logical > remote.logical {
                self.logical
            } else {
                remote.logical
            };
            larger.saturating_add(1)
        } else if next_physical == local_physical {
            self.logical.saturating_add(1)
        } else if next_physical == remote.physical_ms {
            remote.logical.saturating_add(1)
        } else {
            0
        };
        self.physical_ms = next_physical;
        self.timestamp()
    }

    pub fn timestamp(&self) -> (result: Hlc)
        ensures
            result == self.current(),
    {
        Hlc {
            physical_ms: self.physical_ms,
            logical: self.logical,
            actor_id: ActorId(self.actor_id.0.clone()),
        }
    }
}

/// A local event moves the clock strictly forward, unless the logical counter
/// is already saturated while the wall clock lags.
pub proof fn lemma_next_advances(physical: u64, logical: u32, wall: u64)
    requires
        wall > physical || logical < u32::MAX,
    ensures
        clock_before(
            physical,
            logical,
            next_state(physical, logical, wall).0,
            next_state(physical, logical, wall).1,
        ),
        next_state(physical, logical, wall).0 >= wall,
{
}

/// Observing a remote timestamp yields a timestamp strictly after both the
/// local clock and the remote timestamp, and not before the wall clock,
/// unless a logical counter is saturated.
pub proof fn lemma_observe_dominates(physical: u64, logical: u32, rp: u64, rl: u32, wall: u64)
    requires
        logical < u32::MAX,
        rl < u32::MAX,
    ensures
        clock_before(
            physical,
            logical,
            observe_state(physical, logical, rp, rl, wall).0,
            observe_state(physical, logical, rp, rl, wall).1,
        ),
        clock_before(
            rp,
            rl,
            observe_state(physical, logical, rp, rl, wall).0,
            observe_state(physical, logical, rp, rl, wall).1,
        ),
        observe_state(physical, logical, rp, rl, wall).0 >= wall,
{
}


/// The timestamps a clock that starts at zero gives to local events
/// observed at each of `walls`, one per event.
pub open spec fn clock_run(walls: Seq<u64>) -> Seq<(u64, u32)>
    decreases walls.len(),
{
    if walls.len() == 0 {
        Seq::empty()
    } else {
        let prior = clock_run(walls.drop_last());
        let state = if prior.len() == 0 { (0u64, 0u32) } else { prior.last() };
        prior.push(next_state(state.0, state.1, walls.last()))
    }
}

pub proof fn lemma_clock_run_len(walls: Seq<u64>)
    ensures
        clock_run(walls).len() == walls.len(),
    decreases walls.len(),
{
    if walls.len() > 0 {
        lemma_clock_run_len(walls.drop_last());
    }
}

/// The timestamp of actor `actor` at clock state `state`.
pub open spec fn stamp(state: (u64, u32), actor: ActorId) -> Hlc {
    Hlc { physical_ms: state.0, logical: state.1, actor_id: actor }
}


/// The timestamps a fresh clock of `actor` gives to local events observed
/// at each of `walls`, in order.
pub fn clock_stamps(actor: &ActorId, walls: &Vec<u64>) -> (result: Vec<Hlc>)
    ensures
        result@.len() == walls@.len(),
        forall|k: int| 0 <= k < walls@.len() ==> #[trigger] result@[k] == stamp(clock_run(walls@)[k], *actor),
{
    let mut clock = HlcClock::new(ActorId(actor.0.clone()));
    let mut out: Vec<Hlc> = Vec::new();
    let mut i: usize = 0;
    while i < walls.len()
        invariant
            i <= walls@.len(),
            clock.actor() == *actor,
            out@.len() == i,
            clock_run(walls@.take(i as int)).len() == i,
            i == 0 ==> clock.physical() == 0 && clock.counter() == 0,
            i > 0 ==> (clock.physical(), clock.counter()) == clock_run(walls@.take(i as int)).last(),
            forall|k: int| 0 <= k < i ==> #[trigger] out@[k] == stamp(clock_run(walls@.take(i as int))[k], *actor),
        decreases walls@.len() - i,
    {
        let ghost before = walls@.take(i as int);
        let ghost after = walls@.take(i + 1);
        proof {
            assert(after.drop_last() =~= before);
            assert(after.last() == walls@[i as int]);
        }
        let t = clock.next(walls[i]);
        out.push(t);
        proof {
            assert(clock_run(after) == clock_run(before).push(clock_run(after).last()));
            assert forall|k: int| 0 <= k < i + 1 implies #[trigger] out@[k] == stamp(clock_run(after)[k], *actor) by {
                if k < i {
                    assert(clock_run(after)[k] == clock_run(before)[k]);
                }
            }
        }
        i = i + 1;
    }
    proof {
        assert(walls@.take(walls@.len() as int) =~= walls@);
    }
    out
}


/// Each event of a clock run is stamped strictly later than the one before,
/// wherever there are no more events than the logical counter can count.
pub proof fn lemma_clock_run_increases(walls: Seq<u64>)
    requires
        walls.len() <= u32::MAX,
    ensures
        clock_run(walls).len() == walls.len(),
        forall|k: int| 0 <= k < walls.len() ==> #[trigger] clock_run(walls)[k].1 <= k + 1,
        forall|i: int, j: int|
            0 <= i < j < walls.len() ==> clock_before(
                #[trigger] clock_run(walls)[i].0,
                clock_run(walls)[i].1,
                #[trigger] clock_run(walls)[j].0,
                clock_run(walls)[j].1,
            ),
    decreases walls.len(),
{
    lemma_clock_run_len(walls);
    if walls.len() > 0 {
        let w = walls.drop_last();
        lemma_clock_run_increases(w);
        let prior = clock_run(w);
        let run = clock_run(walls);
        let state = if prior.len() == 0 { (0u64, 0u32) } else { prior.last() };
        let next = next_state(state.0, state.1, walls.last());
        assert(run == prior.push(next));
        let n = walls.len() - 1;
        assert(state.1 <= n);
        assert(clock_before(state.0, state.1, next.0, next.1));
        assert(next.1 <= n + 1);
        assert forall|k: int| 0 <= k < walls.len() implies #[trigger] run[k].1 <= k + 1 by {
            if k < n {
                assert(run[k] == prior[k]);
            }
        }
        assert forall|i: int, j: int| 0 <= i < j < walls.len() implies clock_before(
            #[trigger] run[i].0,
            run[i].1,
            #[trigger] run[j].0,
            run[j].1,
        ) by {
            assert(run[i] == prior[i]);
            if j < n {
                assert(run[j] == prior[j]);
            } else if i < n - 1 {
                assert(clock_before(prior[i].0, prior[i].1, prior[n - 1].0, prior[n - 1].1));
            }
        }
    }
}

} // verus!
