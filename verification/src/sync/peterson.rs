//! Peterson's lock: mutual exclusion for exactly two roles, A and B, from
//! three shared flags and nothing else.
//!
//! A role that wants the lock raises its flag, hands the turn to the other
//! role, and waits for as long as the other role wants the lock and has the
//! turn. It gives the lock up by lowering its flag.
//!
//! The algorithm is correct only if both roles see one order of all reads
//! and writes of the three flags. Every access therefore is sequentially
//! consistent; a weaker ordering lets both roles in.
//!
//! The flags change under the eyes of the other thread, so no contract here
//! speaks of their values. What is proved is the algorithm: [`LockState`]
//! describes the flags together with where each role stands in its
//! program, one shared-memory access per step, and the theorems hold on
//! every interleaving of the two roles' steps.

use std::sync::atomic::AtomicBool;
use std::sync::atomic::Ordering;
use std::sync::Arc;
use vstd::prelude::*;

verus! {

/// The two roles that share a lock.
pub enum Role {
    A,
    B,
}

/// Where a role stands in its program.
#[derive(Clone, Copy, PartialEq, Eq, Structural, Debug)]
pub enum Phase {
    /// Outside: neither holding nor asking for the lock.
    Idle,
    /// Has raised its flag, and is about to hand over the turn.
    Announced,
    /// Waits, and is about to read the other role's flag.
    Waiting,
    /// Has seen the other role's flag raised, and is about to read the
    /// turn.
    Checking,
    /// Holds the lock.
    Held,
}

impl Role {
    /// The role on the other side.
    pub open spec fn other(self) -> Role {
        match self {
            Role::A => Role::B,
            Role::B => Role::A,
        }
    }
}

impl Phase {
    /// The role has raised its flag and handed over the turn, and has not
    /// entered yet.
    pub open spec fn is_waiting(self) -> bool {
        self is Waiting || self is Checking
    }

    /// The role has handed over the turn since it last was outside.
    pub open spec fn past_doorway(self) -> bool {
        self is Waiting || self is Checking || self is Held
    }

    /// Where a waiting role stands once it has read the other role's flag:
    /// it is in if the flag is down, and has to look at the turn if it is
    /// up.
    pub open spec fn after_flag(other_wants: bool) -> Phase {
        if other_wants {
            Phase::Checking
        } else {
            Phase::Held
        }
    }

    /// Where a role that found the other's flag up stands once it has read
    /// the turn: it is in if the turn is its own, and waits on if not.
    pub open spec fn after_turn(turn_is_mine: bool) -> Phase {
        if turn_is_mine {
            Phase::Held
        } else {
            Phase::Waiting
        }
    }

    /// What a waiting role does with what it read of the other role's flag.
    pub fn on_flag(other_wants: bool) -> (next: Phase)
        ensures
            next == Phase::after_flag(other_wants),
    {
        if other_wants {
            Phase::Checking
        } else {
            Phase::Held
        }
    }

    /// What a role that found the other's flag up does with what it read of
    /// the turn.
    pub fn on_turn(turn_is_mine: bool) -> (next: Phase)
        ensures
            next == Phase::after_turn(turn_is_mine),
    {
        if turn_is_mine {
            Phase::Held
        } else {
            Phase::Waiting
        }
    }
}

/// The three shared flags, and the phase of each role.
pub struct LockState {
    pub a_wants: bool,
    pub b_wants: bool,
    pub a_turn: bool,
    pub a: Phase,
    pub b: Phase,
}

impl LockState {
    /// A new lock: no flag raised, both roles outside.
    pub open spec fn initial() -> LockState {
        LockState { a_wants: false, b_wants: false, a_turn: false, a: Phase::Idle, b: Phase::Idle }
    }

    /// The phase of `role`.
    pub open spec fn phase(self, role: Role) -> Phase {
        match role {
            Role::A => self.a,
            Role::B => self.b,
        }
    }

    /// The turn is with `role`.
    pub open spec fn favours(self, role: Role) -> bool {
        match role {
            Role::A => self.a_turn,
            Role::B => !self.a_turn,
        }
    }

    /// The next access of role A to the flags, and where it leaves A.
    pub open spec fn step_a(self) -> LockState {
        match self.a {
            Phase::Idle => LockState { a_wants: true, a: Phase::Announced, ..self },
            Phase::Announced => LockState { a_turn: false, a: Phase::Waiting, ..self },
            Phase::Waiting => LockState { a: Phase::after_flag(self.b_wants), ..self },
            Phase::Checking => LockState { a: Phase::after_turn(self.a_turn), ..self },
            Phase::Held => LockState { a_wants: false, a: Phase::Idle, ..self },
        }
    }

    /// The next access of role B to the flags, and where it leaves B: the
    /// mirror image of A's, with the flags swapped and the turn inverted.
    pub open spec fn step_b(self) -> LockState {
        match self.b {
            Phase::Idle => LockState { b_wants: true, b: Phase::Announced, ..self },
            Phase::Announced => LockState { a_turn: true, b: Phase::Waiting, ..self },
            Phase::Waiting => LockState { b: Phase::after_flag(self.a_wants), ..self },
            Phase::Checking => LockState { b: Phase::after_turn(!self.a_turn), ..self },
            Phase::Held => LockState { b_wants: false, b: Phase::Idle, ..self },
        }
    }

    /// One step of `role`.
    pub open spec fn step(self, role: Role) -> LockState {
        match role {
            Role::A => self.step_a(),
            Role::B => self.step_b(),
        }
    }

    /// The state after the roles have taken their steps in the order that
    /// `schedule` gives.
    pub open spec fn run(self, schedule: Seq<Role>) -> LockState
        decreases schedule.len(),
    {
        if schedule.len() == 0 {
            self
        } else {
            self.run(schedule.drop_last()).step(schedule.last())
        }
    }

    /// What every reachable state satisfies: a flag is up exactly while
    /// its role is not outside, and a role holds the lock against a rival
    /// past the doorway only while the turn is its own.
    pub open spec fn inv(self) -> bool {
        &&& self.a_wants == !(self.a is Idle)
        &&& self.b_wants == !(self.b is Idle)
        &&& self.a is Held && self.b.past_doorway() ==> self.a_turn
        &&& self.b is Held && self.a.past_doorway() ==> !self.a_turn
    }

    /// Both roles hold the lock.
    pub open spec fn both_held(self) -> bool {
        self.a is Held && self.b is Held
    }

    /// How often `role` enters the lock on `schedule`, from this state on,
    /// before its rival does.
    pub open spec fn overtakes(self, role: Role, schedule: Seq<Role>) -> nat
        decreases schedule.len(),
    {
        if schedule.len() == 0 || self.phase(role.other()) is Held {
            0
        } else {
            let next = self.step(schedule.first());
            let entered: nat = if !(self.phase(role) is Held) && next.phase(role) is Held {
                1
            } else {
                0
            };
            entered + next.overtakes(role, schedule.drop_first())
        }
    }

    /// How often `role` can still enter ahead of a waiting rival: once if it
    /// is waiting itself and has the turn, and not at all otherwise, for a
    /// role that comes later hands the turn over at its doorway.
    pub open spec fn head_start(self, role: Role) -> nat {
        if self.phase(role).is_waiting() && self.favours(role) {
            1
        } else {
            0
        }
    }
}

/// A new lock satisfies the invariant.
pub proof fn lemma_initial_inv()
    ensures
        LockState::initial().inv(),
{
}

/// No step of either role breaks the invariant.
pub proof fn lemma_step_keeps_inv(s: LockState, role: Role)
    requires
        s.inv(),
    ensures
        s.step(role).inv(),
{
}

/// The invariant holds along every schedule.
pub proof fn lemma_run_keeps_inv(s: LockState, schedule: Seq<Role>)
    requires
        s.inv(),
    ensures
        s.run(schedule).inv(),
    decreases schedule.len(),
{
    if schedule.len() > 0 {
        lemma_run_keeps_inv(s, schedule.drop_last());
        lemma_step_keeps_inv(s.run(schedule.drop_last()), schedule.last());
    }
}

/// Mutual exclusion: however the steps of the two roles interleave, they
/// never hold the lock at the same time.
pub proof fn theorem_mutual_exclusion(schedule: Seq<Role>)
    ensures
        !LockState::initial().run(schedule).both_held(),
{
    lemma_initial_inv();
    lemma_run_keeps_inv(LockState::initial(), schedule);
}

/// A role that finds its rival holding the lock stays out: while one role
/// holds the lock, no step of the other, waiting, lets it in.
pub proof fn lemma_holder_blocks(s: LockState, role: Role)
    requires
        s.inv(),
        s.phase(role.other()) is Held,
        s.phase(role).is_waiting(),
    ensures
        s.step(role).phase(role).is_waiting(),
{
}

/// No deadlock: when both roles wait, the one with the turn holds the lock
/// after at most two steps of its own, whatever the other does meanwhile.
pub proof fn lemma_favoured_enters(s: LockState, role: Role, meanwhile: Seq<Role>)
    requires
        s.inv(),
        s.phase(role).is_waiting(),
        s.phase(role.other()).is_waiting(),
        s.favours(role),
        forall|k: int| 0 <= k < meanwhile.len() ==> meanwhile[k] == role.other(),
    ensures
        s.step(role).phase(role) is Held || s.step(role).run(meanwhile).step(role).phase(role)
            is Held,
{
    let t = s.step(role);
    if !(t.phase(role) is Held) {
        lemma_rival_waits(t, role.other(), meanwhile);
    }
}

/// A waiting role without the turn, facing a rival that waits too, changes
/// nothing by its steps but its own place in the wait.
pub proof fn lemma_rival_waits(s: LockState, role: Role, steps: Seq<Role>)
    requires
        s.inv(),
        s.phase(role).is_waiting(),
        s.phase(role.other()).is_waiting(),
        !s.favours(role),
        forall|k: int| 0 <= k < steps.len() ==> steps[k] == role,
    ensures
        s.run(steps).phase(role).is_waiting(),
        s.run(steps).phase(role.other()) == s.phase(role.other()),
        s.run(steps).a_turn == s.a_turn,
        s.run(steps).a_wants == s.a_wants,
        s.run(steps).b_wants == s.b_wants,
        s.run(steps).inv(),
    decreases steps.len(),
{
    if steps.len() > 0 {
        lemma_rival_waits(s, role, steps.drop_last());
        assert(steps.last() == role);
    }
}

/// No starvation: a role cannot keep a waiting rival out by asking again
/// and again. While the rival waits, the role enters at most once ahead of
/// it, and only if it was waiting with the turn already; a role that holds
/// the lock, or asks for it later, does not enter again before the rival.
pub proof fn theorem_bounded_overtaking(s: LockState, role: Role, schedule: Seq<Role>)
    requires
        s.inv(),
        s.phase(role.other()).is_waiting() || s.phase(role.other()) is Held,
    ensures
        s.overtakes(role, schedule) <= s.head_start(role),
        s.overtakes(role, schedule) <= 1,
    decreases schedule.len(),
{
    if schedule.len() > 0 && !(s.phase(role.other()) is Held) {
        let next = s.step(schedule.first());
        lemma_step_keeps_inv(s, schedule.first());
        theorem_bounded_overtaking(next, role, schedule.drop_first());
    }
}

/// The shared state of one lock: A's flag, B's flag, and the turn.
pub struct Peterson {
    a_wants: AtomicBool,
    b_wants: AtomicBool,
    a_turn: AtomicBool,
}

impl Peterson {
    /// A lock that nobody holds or wants: all three flags are down, as in
    /// [`LockState::initial`]. The flags are atomics, whose contents no
    /// contract can speak of, so this one is silent.
    pub fn new() -> Self {
        Peterson {
            a_wants: AtomicBool::new(false),
            b_wants: AtomicBool::new(false),
            a_turn: AtomicBool::new(false),
        }
    }
}

impl Default for Peterson {
    fn default() -> Self {
        Peterson::new()
    }
}

/// The handle of role A on a lock.
///
/// A lock takes one thread in role A and one in role B, and no more. The
/// handle keeps track of where its role stands, and its operations must be
/// called in turn: `request`, then `try_enter` until it succeeds, then
/// `release`. To ask for the lock again while holding it is an error that
/// the lock cannot detect.
pub struct PetersonA {
    lock: Arc<Peterson>,
    phase: Ghost<Phase>,
}

/// The handle of role B on a lock. See [`PetersonA`].
pub struct PetersonB {
    lock: Arc<Peterson>,
    phase: Ghost<Phase>,
}

impl PetersonA {
    /// The lock that the handle is on.
    pub closed spec fn lock(&self) -> Arc<Peterson> {
        self.lock
    }

    /// Where role A stands, as far as this handle has taken it.
    pub closed spec fn phase(&self) -> Phase {
        self.phase@
    }

    /// A handle of role A on the lock `p`, outside the lock.
    pub fn new(p: &Arc<Peterson>) -> (a: Self)
        ensures
            a.lock() == *p,
            a.phase() is Idle,
    {
        PetersonA { lock: p.clone(), phase: Ghost(Phase::Idle) }
    }

    /// Asks for the lock: raises A's flag, then hands the turn to B. These
    /// are A's two steps from `Idle` to `Waiting`.
    pub fn request(&mut self)
        requires
            old(self).phase() is Idle,
        ensures
            final(self).phase() is Waiting,
            final(self).lock() == old(self).lock(),
    {
        self.lock.a_wants.store(true, Ordering::SeqCst);
        self.lock.a_turn.store(false, Ordering::SeqCst);
        self.phase = Ghost(Phase::Waiting);
    }

    /// Looks once whether A may enter: it may unless B wants the lock and
    /// has the turn. The turn is read only if B's flag is up. These are A's
    /// steps from `Waiting` to `Held`, or through `Checking` back to
    /// `Waiting`. Returns whether A now holds the lock.
    ///
    /// What comes back depends on what the other thread has written, so the
    /// contract speaks of the handle only. What is made of each flag that
    /// is read is [`Phase::on_flag`] and [`Phase::on_turn`], which are the
    /// steps of [`LockState`].
    pub fn try_enter(&mut self) -> (entered: bool)
        requires
            old(self).phase() is Waiting,
        ensures
            entered ==> final(self).phase() is Held,
            !entered ==> final(self).phase() is Waiting,
            final(self).lock() == old(self).lock(),
    {
        let mut next = Phase::on_flag(self.lock.b_wants.load(Ordering::SeqCst));
        if let Phase::Checking = next {
            next = Phase::on_turn(self.lock.a_turn.load(Ordering::SeqCst));
        }
        match next {
            Phase::Held => {
                self.phase = Ghost(Phase::Held);
                true
            },
            _ => false,
        }
    }

    /// Gives the lock up: lowers A's flag. This is A's step from `Held` to
    /// `Idle`.
    pub fn release(&mut self)
        requires
            old(self).phase() is Held,
        ensures
            final(self).phase() is Idle,
            final(self).lock() == old(self).lock(),
    {
        self.lock.a_wants.store(false, Ordering::SeqCst);
        self.phase = Ghost(Phase::Idle);
    }
}

impl PetersonB {
    /// The lock that the handle is on.
    pub closed spec fn lock(&self) -> Arc<Peterson> {
        self.lock
    }

    /// Where role B stands, as far as this handle has taken it.
    pub closed spec fn phase(&self) -> Phase {
        self.phase@
    }

    /// A handle of role B on the lock `p`, outside the lock.
    pub fn new(p: &Arc<Peterson>) -> (b: Self)
        ensures
            b.lock() == *p,
            b.phase() is Idle,
    {
        PetersonB { lock: p.clone(), phase: Ghost(Phase::Idle) }
    }

    /// Asks for the lock: raises B's flag, then hands the turn to A. These
    /// are B's two steps from `Idle` to `Waiting`.
    pub fn request(&mut self)
        requires
            old(self).phase() is Idle,
        ensures
            final(self).phase() is Waiting,
            final(self).lock() == old(self).lock(),
    {
        self.lock.b_wants.store(true, Ordering::SeqCst);
        self.lock.a_turn.store(true, Ordering::SeqCst);
        self.phase = Ghost(Phase::Waiting);
    }

    /// Looks once whether B may enter: it may unless A wants the lock and
    /// has the turn. The turn is read only if A's flag is up. These are B's
    /// steps from `Waiting` to `Held`, or through `Checking` back to
    /// `Waiting`. Returns whether B now holds the lock.
    ///
    /// What comes back depends on what the other thread has written, so the
    /// contract speaks of the handle only. What is made of each flag that
    /// is read is [`Phase::on_flag`] and [`Phase::on_turn`], which are the
    /// steps of [`LockState`].
    pub fn try_enter(&mut self) -> (entered: bool)
        requires
            old(self).phase() is Waiting,
        ensures
            entered ==> final(self).phase() is Held,
            !entered ==> final(self).phase() is Waiting,
            final(self).lock() == old(self).lock(),
    {
        let mut next = Phase::on_flag(self.lock.a_wants.load(Ordering::SeqCst));
        if let Phase::Checking = next {
            next = Phase::on_turn(!self.lock.a_turn.load(Ordering::SeqCst));
        }
        match next {
            Phase::Held => {
                self.phase = Ghost(Phase::Held);
                true
            },
            _ => false,
        }
    }

    /// Gives the lock up: lowers B's flag. This is B's step from `Held` to
    /// `Idle`.
    pub fn release(&mut self)
        requires
            old(self).phase() is Held,
        ensures
            final(self).phase() is Idle,
            final(self).lock() == old(self).lock(),
    {
        self.lock.b_wants.store(false, Ordering::SeqCst);
        self.phase = Ghost(Phase::Idle);
    }
}

} // verus!
