//! The happens-before partial order, the clocks that track it and the
//! processes that advance them.

use vstd::prelude::*;

pub mod matrix_clock;
pub mod vector_clock;

verus! {

/// How two clocks relate under happens-before. Causality is a partial order,
/// so two clocks may be unrelated: neither happened before the other.
#[derive(Clone, Copy, PartialEq, Eq, Structural, Debug)]
pub enum CausalOrder {
    Less,
    Equal,
    Greater,
    Incomparable,
}

impl CausalOrder {
    /// The same relation read from the other side.
    pub open spec fn flipped(self) -> CausalOrder {
        match self {
            CausalOrder::Less => CausalOrder::Greater,
            CausalOrder::Greater => CausalOrder::Less,
            CausalOrder::Equal => CausalOrder::Equal,
            CausalOrder::Incomparable => CausalOrder::Incomparable,
        }
    }
}

/// The larger of two counters.
pub open spec fn larger(a: nat, b: nat) -> nat {
    if a >= b {
        a
    } else {
        b
    }
}

/// The counters held in `v`, as natural numbers.
pub open spec fn counts_of(v: Seq<usize>) -> Seq<nat> {
    Seq::new(v.len(), |k: int| v[k] as nat)
}

/// Every counter of `s` fits a machine word.
pub open spec fn all_fit(s: Seq<nat>) -> bool {
    forall|k: int| 0 <= k < s.len() ==> #[trigger] s[k] <= usize::MAX
}

/// Some component of `s` is strictly below the same component of `t`.
pub open spec fn some_less(s: Seq<nat>, t: Seq<nat>) -> bool {
    exists|k: int|
        #![trigger s[k]]
        #![trigger t[k]]
        0 <= k < s.len() && k < t.len() && s[k] < t[k]
}

/// The relation that a pair of findings stands for: whether some component
/// is smaller, and whether some component is larger.
pub open spec fn order_from(smaller: bool, greater: bool) -> CausalOrder {
    if smaller && greater {
        CausalOrder::Incomparable
    } else if smaller {
        CausalOrder::Less
    } else if greater {
        CausalOrder::Greater
    } else {
        CausalOrder::Equal
    }
}

/// Componentwise comparison of two counter sequences: `Less` when no
/// component of `s` exceeds `t` and one is strictly below it, `Greater` for
/// the mirror image, `Equal` when all components agree, and `Incomparable`
/// when the lengths differ or the components disagree on the direction.
pub open spec fn causal_order(s: Seq<nat>, t: Seq<nat>) -> CausalOrder {
    if s.len() != t.len() {
        CausalOrder::Incomparable
    } else {
        order_from(some_less(s, t), some_less(t, s))
    }
}

/// The componentwise maximum of two sequences of the same length.
pub open spec fn joined(s: Seq<nat>, t: Seq<nat>) -> Seq<nat> {
    Seq::new(s.len(), |k: int| larger(s[k], t[k]))
}

/// Comparing a sequence with itself gives `Equal`.
pub proof fn lemma_order_reflexive(s: Seq<nat>)
    ensures
        causal_order(s, s) == CausalOrder::Equal,
{
}

/// Swapping the arguments flips the outcome.
pub proof fn lemma_order_flipped(s: Seq<nat>, t: Seq<nat>)
    ensures
        causal_order(t, s) == causal_order(s, t).flipped(),
{
}

/// `Equal` means that the two sequences are the same.
pub proof fn lemma_order_equal(s: Seq<nat>, t: Seq<nat>)
    ensures
        causal_order(s, t) == CausalOrder::Equal <==> s == t,
{
    if causal_order(s, t) == CausalOrder::Equal {
        assert(s =~= t);
    }
}

/// `Less` composes: what precedes a predecessor precedes.
pub proof fn lemma_order_transitive(a: Seq<nat>, b: Seq<nat>, c: Seq<nat>)
    requires
        causal_order(a, b) == CausalOrder::Less,
        causal_order(b, c) == CausalOrder::Less,
    ensures
        causal_order(a, c) == CausalOrder::Less,
{
    let k = choose|k: int| 0 <= k < a.len() && k < b.len() && a[k] < b[k];
    assert(a[k] < c[k]);
    assert(forall|j: int| 0 <= j < a.len() ==> a[j] <= #[trigger] b[j] && b[j] <= c[j]);
}

/// Raising one component, and none other, moves a sequence strictly forward.
pub proof fn lemma_raise_is_less(s: Seq<nat>, i: int, by: nat)
    requires
        0 <= i < s.len(),
        by > 0,
    ensures
        causal_order(s, s.update(i, s[i] + by)) == CausalOrder::Less,
        causal_order(s.update(i, s[i] + by), s) == CausalOrder::Greater,
{
    let t = s.update(i, s[i] + by);
    assert(s[i] < t[i]);
    lemma_order_flipped(s, t);
}

/// A logical clock: one process's knowledge of causal history at a point in
/// time. A clock belongs to the process `owner` of a system of `width`
/// processes. Its mathematical value is its view; the operations are stated
/// over views.
pub trait LogicalClock: Sized + View + Clone {
    /// The value is one that the operations produce: its owner is one of
    /// its processes and its shape matches its width.
    spec fn valid(t: Self::V) -> bool;

    /// The index of the process that the clock belongs to.
    spec fn owner(t: Self::V) -> nat;

    /// The number of processes that the clock tracks.
    spec fn width(t: Self::V) -> nat;

    /// Every counter of the value fits a machine word.
    spec fn fits(t: Self::V) -> bool;

    /// The number of events of process `k` that the value has on record as
    /// that process's own count.
    spec fn seen(t: Self::V, k: nat) -> nat;

    /// The clock of process `i` of `n` at its first event.
    spec fn fresh(i: nat, n: nat) -> Self::V;

    /// The clock after one more local event.
    spec fn extended(t: Self::V) -> Self::V;

    /// Whether `t` may take in `other`.
    spec fn mergeable(t: Self::V, other: Self::V) -> bool;

    /// The clock of `t`'s owner after it has received `other`.
    spec fn merged(t: Self::V, other: Self::V) -> Self::V;

    /// The causal relation between two values.
    spec fn order(s: Self::V, t: Self::V) -> CausalOrder;

    /// Creates the clock of process `i` in a system of `n_procs` processes.
    fn new(i: usize, n_procs: usize) -> (c: Self)
        requires
            i < n_procs,
        ensures
            c@ == Self::fresh(i as nat, n_procs as nat),
            Self::valid(c@),
    ;

    /// The clock after a local event of its owner.
    fn extend(&self) -> (c: Self)
        requires
            Self::valid(self@),
            Self::fits(Self::extended(self@)),
        ensures
            c@ == Self::extended(self@),
            Self::valid(c@),
            Self::order(self@, c@) == CausalOrder::Less,
    ;

    /// The clock after its owner has received `other`; the receipt counts
    /// as an event of the owner.
    fn merge(&self, other: &Self) -> (c: Self)
        requires
            Self::mergeable(self@, other@),
            Self::fits(Self::merged(self@, other@)),
        ensures
            c@ == Self::merged(self@, other@),
            Self::valid(c@),
            Self::order(self@, c@) == CausalOrder::Less,
            Self::order(other@, c@) == CausalOrder::Less,
    ;

    /// Compares two clocks under happens-before.
    fn compare(&self, other: &Self) -> (o: CausalOrder)
        ensures
            o == Self::order(self@, other@),
    ;

    /// A clone has the value of the clock it was made from.
    proof fn law_clone(a: Self, b: Self)
        requires
            cloned(a, b),
        ensures
            a@ == b@,
    ;

    /// A fresh clock is valid, and belongs to the process it was made for.
    proof fn law_fresh(i: nat, n: nat)
        requires
            i < n,
        ensures
            Self::valid(Self::fresh(i, n)),
            Self::owner(Self::fresh(i, n)) == i,
            Self::width(Self::fresh(i, n)) == n,
    ;

    /// Every clock equals itself.
    proof fn law_reflexive(t: Self::V)
        ensures
            Self::order(t, t) == CausalOrder::Equal,
    ;

    /// Comparing in the other direction gives the mirrored outcome.
    proof fn law_flipped(s: Self::V, t: Self::V)
        ensures
            Self::order(t, s) == Self::order(s, t).flipped(),
    ;

    /// Happens-before is transitive.
    proof fn law_transitive(a: Self::V, b: Self::V, c: Self::V)
        requires
            Self::order(a, b) == CausalOrder::Less,
            Self::order(b, c) == CausalOrder::Less,
        ensures
            Self::order(a, c) == CausalOrder::Less,
    ;

    /// A local event moves the clock strictly forward and keeps its owner
    /// and width.
    proof fn law_extended(t: Self::V)
        requires
            Self::valid(t),
        ensures
            Self::valid(Self::extended(t)),
            Self::owner(Self::extended(t)) == Self::owner(t),
            Self::width(Self::extended(t)) == Self::width(t),
            Self::order(t, Self::extended(t)) == CausalOrder::Less,
            Self::order(Self::extended(t), t) == CausalOrder::Greater,
    ;

    /// Clocks made fresh for different processes are unrelated.
    proof fn law_fresh_independent(i: nat, n: nat, j: nat, m: nat)
        requires
            i < n,
            j < m,
            i != j,
        ensures
            Self::order(Self::fresh(i, n), Self::fresh(j, m)) == CausalOrder::Incomparable,
            Self::order(Self::fresh(j, m), Self::fresh(i, n)) == CausalOrder::Incomparable,
    ;

    /// A merge strictly succeeds both of its inputs and keeps the
    /// receiver's owner and width.
    proof fn law_merged(t: Self::V, other: Self::V)
        requires
            Self::mergeable(t, other),
        ensures
            Self::valid(Self::merged(t, other)),
            Self::owner(Self::merged(t, other)) == Self::owner(t),
            Self::width(Self::merged(t, other)) == Self::width(t),
            Self::order(t, Self::merged(t, other)) == CausalOrder::Less,
            Self::order(other, Self::merged(t, other)) == CausalOrder::Less,
            Self::order(Self::merged(t, other), t) == CausalOrder::Greater,
            Self::order(Self::merged(t, other), other) == CausalOrder::Greater,
    ;

    /// Receiving a clock says nothing of what its sender did afterwards: if
    /// the receiver had no later news of the sender, the sender's next local
    /// event and the receipt are unrelated.
    proof fn law_sender_moves_on(t: Self::V, other: Self::V)
        requires
            Self::mergeable(t, other),
            Self::valid(other),
            Self::owner(t) != Self::owner(other),
            Self::seen(t, Self::owner(other)) <= Self::seen(other, Self::owner(other)),
        ensures
            Self::order(Self::extended(other), Self::merged(t, other))
                == CausalOrder::Incomparable,
            Self::order(Self::merged(t, other), Self::extended(other))
                == CausalOrder::Incomparable,
    ;
}

/// A clock that can tell when an event has been seen by every process, so
/// that its record can be dropped.
pub trait GCClock: LogicalClock {
    /// The event stamped `event` is causally stable with respect to
    /// `latest`: by what `latest` records, every process has seen it.
    spec fn stable(event: Self::V, latest: Self::V) -> bool;

    /// Whether the event that this clock stamps is causally stable with
    /// respect to `latest`.
    fn gc(&self, latest: &Self) -> (seen_by_all: bool)
        requires
            Self::valid(self@),
            Self::valid(latest@),
            Self::width(self@) == Self::width(latest@),
        ensures
            seen_by_all == Self::stable(self@, latest@),
    ;

    /// Stability reaches back: once an event of a process is stable, so is
    /// every earlier event of that process.
    proof fn law_stable_before(earlier: Self::V, later: Self::V, latest: Self::V)
        requires
            Self::valid(earlier),
            Self::valid(later),
            Self::owner(earlier) == Self::owner(later),
            Self::order(earlier, later) == CausalOrder::Less,
            Self::stable(later, latest),
        ensures
            Self::stable(earlier, latest),
    ;
}

/// The event log of process `pid` of `n` is in order: every event is a valid
/// clock of that process and width, and each strictly succeeds all that
/// came before it.
pub open spec fn consistent<T: LogicalClock>(log: Seq<T>, pid: nat, n: nat) -> bool {
    &&& forall|k: int|
        0 <= k < log.len() ==> {
            &&& T::valid((#[trigger] log[k])@)
            &&& T::owner(log[k]@) == pid
            &&& T::width(log[k]@) == n
        }
    &&& forall|j: int, k: int|
        0 <= j < k < log.len() ==> T::order((#[trigger] log[j])@, (#[trigger] log[k])@)
            == CausalOrder::Less
}

/// The clock that the next local event of the process gets: the extension
/// of its latest event, or a fresh clock when the log is empty.
pub open spec fn next_local<T: LogicalClock>(log: Seq<T>, pid: nat, n: nat) -> T::V {
    if log.len() == 0 {
        T::fresh(pid, n)
    } else {
        T::extended(log.last()@)
    }
}

/// The process can have a local event: a first clock can be made for it,
/// or its latest clock can be extended within machine words.
pub open spec fn can_advance<T: LogicalClock>(log: Seq<T>, pid: nat, n: nat) -> bool {
    if log.len() == 0 {
        pid < n
    } else {
        T::fits(T::extended(log.last()@))
    }
}

/// The clock that the process merges an incoming clock into: its latest
/// event, or a fresh clock when the log is empty.
pub open spec fn receiver<T: LogicalClock>(log: Seq<T>, pid: nat, n: nat) -> T::V {
    if log.len() == 0 {
        T::fresh(pid, n)
    } else {
        log.last()@
    }
}

/// The process can receive `incoming`.
pub open spec fn can_receive<T: LogicalClock>(
    log: Seq<T>,
    pid: nat,
    n: nat,
    incoming: T::V,
) -> bool {
    &&& log.len() == 0 ==> pid < n
    &&& T::mergeable(receiver(log, pid, n), incoming)
    &&& T::fits(T::merged(receiver(log, pid, n), incoming))
}

/// Appending the next local event keeps a log in order.
pub proof fn lemma_local_event_consistent<T: LogicalClock>(log: Seq<T>, pid: nat, n: nat, e: T)
    requires
        consistent(log, pid, n),
        log.len() == 0 ==> pid < n,
        e@ == next_local(log, pid, n),
    ensures
        consistent(log.push(e), pid, n),
{
    if log.len() == 0 {
        T::law_fresh(pid, n);
    } else {
        T::law_extended(log.last()@);
    }
    let after = log.push(e);
    assert forall|k: int| 0 <= k < after.len() implies {
        &&& T::valid((#[trigger] after[k])@)
        &&& T::owner(after[k]@) == pid
        &&& T::width(after[k]@) == n
    } by {
        if k < log.len() {
            assert(after[k] == log[k]);
        }
    }
    assert forall|j: int, k: int| 0 <= j < k < after.len() implies T::order(
        (#[trigger] after[j])@,
        (#[trigger] after[k])@,
    ) == CausalOrder::Less by {
        assert(after[j] == log[j]);
        if k < log.len() {
            assert(after[k] == log[k]);
        } else if j < log.len() - 1 {
            assert(T::order(log[j]@, log.last()@) == CausalOrder::Less);
            T::law_transitive(log[j]@, log.last()@, e@);
        }
    }
}

/// Appending the receipt of `incoming` keeps a log in order.
pub proof fn lemma_receipt_consistent<T: LogicalClock>(
    log: Seq<T>,
    pid: nat,
    n: nat,
    incoming: T::V,
    e: T,
)
    requires
        consistent(log, pid, n),
        can_receive(log, pid, n, incoming),
        e@ == T::merged(receiver(log, pid, n), incoming),
    ensures
        consistent(log.push(e), pid, n),
{
    if log.len() == 0 {
        T::law_fresh(pid, n);
    }
    T::law_merged(receiver(log, pid, n), incoming);
    let after = log.push(e);
    assert forall|k: int| 0 <= k < after.len() implies {
        &&& T::valid((#[trigger] after[k])@)
        &&& T::owner(after[k]@) == pid
        &&& T::width(after[k]@) == n
    } by {
        if k < log.len() {
            assert(after[k] == log[k]);
        }
    }
    assert forall|j: int, k: int| 0 <= j < k < after.len() implies T::order(
        (#[trigger] after[j])@,
        (#[trigger] after[k])@,
    ) == CausalOrder::Less by {
        assert(after[j] == log[j]);
        if k < log.len() {
            assert(after[k] == log[k]);
        } else if j < log.len() - 1 {
            assert(T::order(log[j]@, log.last()@) == CausalOrder::Less);
            T::law_transitive(log[j]@, log.last()@, e@);
        }
    }
}

/// Within one process, every event strictly precedes every later one.
pub proof fn lemma_log_increasing<T: LogicalClock>(log: Seq<T>, pid: nat, n: nat, j: int, k: int)
    requires
        consistent(log, pid, n),
        0 <= j < k < log.len(),
    ensures
        T::order(log[j]@, log[k]@) == CausalOrder::Less,
        T::order(log[k]@, log[j]@) == CausalOrder::Greater,
{
    T::law_flipped(log[j]@, log[k]@);
}

/// A message orders the logs of two processes: every event of the sender
/// up to the send precedes every event of the receiver from the receipt on.
pub proof fn lemma_hop_orders_logs<T: LogicalClock>(
    sender: Seq<T>,
    sender_pid: nat,
    receiver: Seq<T>,
    receiver_pid: nat,
    n: nat,
    sent: int,
    received: int,
    into: T::V,
    j: int,
    k: int,
)
    requires
        consistent(sender, sender_pid, n),
        consistent(receiver, receiver_pid, n),
        0 <= j <= sent < sender.len(),
        0 <= received <= k < receiver.len(),
        T::mergeable(into, sender[sent]@),
        receiver[received]@ == T::merged(into, sender[sent]@),
    ensures
        T::order(sender[j]@, receiver[k]@) == CausalOrder::Less,
        T::order(receiver[k]@, sender[j]@) == CausalOrder::Greater,
{
    T::law_merged(into, sender[sent]@);
    if j < sent {
        lemma_log_increasing(sender, sender_pid, n, j, sent);
        T::law_transitive(sender[j]@, sender[sent]@, receiver[received]@);
    }
    if received < k {
        lemma_log_increasing(receiver, receiver_pid, n, received, k);
        T::law_transitive(sender[j]@, receiver[received]@, receiver[k]@);
    }
    T::law_flipped(sender[j]@, receiver[k]@);
}

/// One event leads from `a` to `b`: `b` is the next local event after `a`,
/// the receipt of something by the process at `a`, or the receipt of `a` by
/// some process.
pub open spec fn leads_to<T: LogicalClock>(a: T::V, b: T::V) -> bool {
    ||| T::valid(a) && b == T::extended(a)
    ||| exists|x: T::V| T::mergeable(a, x) && b == #[trigger] T::merged(a, x)
    ||| exists|x: T::V| T::mergeable(x, a) && b == #[trigger] T::merged(x, a)
}

/// Each clock of `path` leads to the next: a chain of local events and of
/// messages sent and received, through any number of processes.
pub open spec fn causal_path<T: LogicalClock>(path: Seq<T::V>) -> bool {
    forall|j: int, k: int|
        0 <= j && k == j + 1 && k < path.len() ==> leads_to::<T>(
            #[trigger] path[j],
            #[trigger] path[k],
        )
}

/// Along a chain of local events and relayed messages, every clock strictly
/// precedes every later one, however many processes the chain passes
/// through.
pub proof fn lemma_causal_path_increasing<T: LogicalClock>(path: Seq<T::V>, j: int, k: int)
    requires
        causal_path::<T>(path),
        0 <= j < k < path.len(),
    ensures
        T::order(path[j], path[k]) == CausalOrder::Less,
    decreases k - j,
{
    let a = path[k - 1];
    let b = path[k];
    assert(leads_to::<T>(a, b));
    assert(T::order(a, b) == CausalOrder::Less) by {
        if T::valid(a) && b == T::extended(a) {
            T::law_extended(a);
        } else if exists|x: T::V| T::mergeable(a, x) && b == #[trigger] T::merged(a, x) {
            let x = choose|x: T::V| T::mergeable(a, x) && b == #[trigger] T::merged(a, x);
            T::law_merged(a, x);
        } else {
            let x = choose|x: T::V| T::mergeable(x, a) && b == #[trigger] T::merged(x, a);
            T::law_merged(x, a);
        }
    }
    if j + 1 < k {
        lemma_causal_path_increasing::<T>(path, j, k - 1);
        T::law_transitive(path[j], a, b);
    }
}

/// What holds an event log: a process of a fixed index in a system of a
/// fixed size, with the clocks of the events it has had, oldest first.
pub trait HasEvents<T: LogicalClock>: Sized {
    /// The events on record, oldest first.
    spec fn log(&self) -> Seq<T>;

    /// The index of the process.
    spec fn index(&self) -> nat;

    /// The number of processes in the system.
    spec fn size(&self) -> nat;

    /// The latest event, if there is one.
    fn last_event(&self) -> (e: Option<&T>)
        ensures
            self.log().len() == 0 ==> e.is_none(),
            self.log().len() > 0 ==> e == Some(&self.log().last()),
    ;

    /// Appends an event that keeps the log in order.
    fn push_event(&mut self, e: T)
        requires
            consistent(old(self).log().push(e), old(self).index(), old(self).size()),
        ensures
            final(self).log() == old(self).log().push(e),
            final(self).index() == old(self).index(),
            final(self).size() == old(self).size(),
    ;

    /// The index of the process.
    fn pid(&self) -> (p: usize)
        ensures
            p == self.index(),
    ;

    /// The number of processes in the system.
    fn n_procs(&self) -> (n: usize)
        ensures
            n == self.size(),
    ;

    /// The events on record, oldest first.
    fn events(&self) -> (log: &[T])
        ensures
            log@ == self.log(),
    ;
}

/// A process whose events are ordered by a logical clock. Each of its
/// operations appends exactly one event to its log.
pub trait OrdProcess<T: LogicalClock>: HasEvents<T> {
    /// A local event: the latest clock is extended, or a fresh one made if
    /// this is the first event.
    fn advance(&mut self)
        requires
            consistent(old(self).log(), old(self).index(), old(self).size()),
            can_advance(old(self).log(), old(self).index(), old(self).size()),
        ensures
            final(self).log().len() == old(self).log().len() + 1,
            final(self).log().drop_last() == old(self).log(),
            final(self).log().last()@ == next_local(
                old(self).log(),
                old(self).index(),
                old(self).size(),
            ),
            final(self).index() == old(self).index(),
            final(self).size() == old(self).size(),
            consistent(final(self).log(), final(self).index(), final(self).size()),
    {
        let e = match self.last_event() {
            Some(latest) => latest.extend(),
            None => T::new(self.pid(), self.n_procs()),
        };
        proof {
            lemma_local_event_consistent(self.log(), self.index(), self.size(), e);
            assert(self.log().push(e).drop_last() =~= self.log());
        }
        self.push_event(e);
    }

    /// A send event: a local event whose clock is also handed out, as a
    /// snapshot for the message to carry.
    fn emit(&mut self) -> (sent: T)
        requires
            consistent(old(self).log(), old(self).index(), old(self).size()),
            can_advance(old(self).log(), old(self).index(), old(self).size()),
        ensures
            sent@ == final(self).log().last()@,
            final(self).log().len() == old(self).log().len() + 1,
            final(self).log().drop_last() == old(self).log(),
            final(self).log().last()@ == next_local(
                old(self).log(),
                old(self).index(),
                old(self).size(),
            ),
            final(self).index() == old(self).index(),
            final(self).size() == old(self).size(),
            consistent(final(self).log(), final(self).index(), final(self).size()),
    {
        let e = match self.last_event() {
            Some(latest) => latest.extend(),
            None => T::new(self.pid(), self.n_procs()),
        };
        let sent = e.clone();
        proof {
            T::law_clone(e, sent);
            lemma_local_event_consistent(self.log(), self.index(), self.size(), e);
            assert(self.log().push(e).drop_last() =~= self.log());
        }
        self.push_event(e);
        sent
    }

    /// A receive event: `incoming` is merged into the latest clock, or into
    /// a fresh one if this is the first event.
    fn absorb(&mut self, incoming: &T)
        requires
            consistent(old(self).log(), old(self).index(), old(self).size()),
            can_receive(old(self).log(), old(self).index(), old(self).size(), incoming@),
        ensures
            final(self).log().len() == old(self).log().len() + 1,
            final(self).log().drop_last() == old(self).log(),
            final(self).log().last()@ == T::merged(
                receiver(old(self).log(), old(self).index(), old(self).size()),
                incoming@,
            ),
            final(self).index() == old(self).index(),
            final(self).size() == old(self).size(),
            consistent(final(self).log(), final(self).index(), final(self).size()),
    {
        let e = match self.last_event() {
            Some(latest) => latest.merge(incoming),
            None => T::new(self.pid(), self.n_procs()).merge(incoming),
        };
        proof {
            lemma_receipt_consistent(self.log(), self.index(), self.size(), incoming@, e);
            assert(self.log().push(e).drop_last() =~= self.log());
        }
        self.push_event(e);
    }

    /// Runs `work`, then records a local event. The work neither sees nor
    /// changes a clock.
    fn exec<F: FnOnce()>(&mut self, work: F)
        requires
            work.requires(()),
            consistent(old(self).log(), old(self).index(), old(self).size()),
            can_advance(old(self).log(), old(self).index(), old(self).size()),
        ensures
            work.ensures((), ()),
            final(self).log().len() == old(self).log().len() + 1,
            final(self).log().drop_last() == old(self).log(),
            final(self).log().last()@ == next_local(
                old(self).log(),
                old(self).index(),
                old(self).size(),
            ),
            final(self).index() == old(self).index(),
            final(self).size() == old(self).size(),
            consistent(final(self).log(), final(self).index(), final(self).size()),
    {
        work();
        self.advance();
    }

    /// Records a send event and gives a snapshot of its clock to
    /// `transmit`.
    fn send<F: FnOnce(T)>(&mut self, transmit: F)
        requires
            consistent(old(self).log(), old(self).index(), old(self).size()),
            can_advance(old(self).log(), old(self).index(), old(self).size()),
            forall|c: T|
                c@ == next_local(old(self).log(), old(self).index(), old(self).size())
                    ==> #[trigger] transmit.requires((c,)),
        ensures
            exists|c: T|
                c@ == final(self).log().last()@ && #[trigger] transmit.ensures((c,), ()),
            final(self).log().len() == old(self).log().len() + 1,
            final(self).log().drop_last() == old(self).log(),
            final(self).log().last()@ == next_local(
                old(self).log(),
                old(self).index(),
                old(self).size(),
            ),
            final(self).index() == old(self).index(),
            final(self).size() == old(self).size(),
            consistent(final(self).log(), final(self).index(), final(self).size()),
    {
        let sent = self.emit();
        transmit(sent);
    }

    /// Takes a clock from `arrive` and records its receipt.
    fn recv<F: FnOnce() -> T>(&mut self, arrive: F)
        requires
            arrive.requires(()),
            consistent(old(self).log(), old(self).index(), old(self).size()),
            forall|c: T| #[trigger]
                arrive.ensures((), c) ==> can_receive(
                    old(self).log(),
                    old(self).index(),
                    old(self).size(),
                    c@,
                ),
        ensures
            exists|c: T|
                {
                    &&& #[trigger] arrive.ensures((), c)
                    &&& final(self).log().last()@ == T::merged(
                        receiver(old(self).log(), old(self).index(), old(self).size()),
                        c@,
                    )
                },
            final(self).log().len() == old(self).log().len() + 1,
            final(self).log().drop_last() == old(self).log(),
            final(self).index() == old(self).index(),
            final(self).size() == old(self).size(),
            consistent(final(self).log(), final(self).index(), final(self).size()),
    {
        let incoming = arrive();
        self.absorb(&incoming);
    }
}

/// The relation that a pair of findings stands for.
pub fn verdict(smaller: bool, greater: bool) -> (o: CausalOrder)
    ensures
        o == order_from(smaller, greater),
{
    if smaller && greater {
        CausalOrder::Incomparable
    } else if smaller {
        CausalOrder::Less
    } else if greater {
        CausalOrder::Greater
    } else {
        CausalOrder::Equal
    }
}

/// Walks two counter vectors of the same length side by side and reports
/// whether some component of `a` is below `b`, and whether some is above.
/// Stops as soon as both have been seen.
pub fn differences(a: &Vec<usize>, b: &Vec<usize>) -> (found: (bool, bool))
    requires
        a.len() == b.len(),
    ensures
        found.0 == some_less(counts_of(a@), counts_of(b@)),
        found.1 == some_less(counts_of(b@), counts_of(a@)),
{
    let ghost s = counts_of(a@);
    let ghost t = counts_of(b@);
    let mut smaller = false;
    let mut greater = false;
    let mut k: usize = 0;
    while k < a.len() && !(smaller && greater)
        invariant
            a.len() == b.len(),
            k <= a.len(),
            s == counts_of(a@),
            t == counts_of(b@),
            smaller == some_less(s.take(k as int), t.take(k as int)),
            greater == some_less(t.take(k as int), s.take(k as int)),
        decreases a.len() - k,
    {
        let ghost s0 = s.take(k as int);
        let ghost t0 = t.take(k as int);
        let ghost s1 = s.take(k + 1);
        let ghost t1 = t.take(k + 1);
        proof {
            assert(s1[k as int] == a@[k as int]);
            assert(t1[k as int] == b@[k as int]);
            assert forall|j: int| 0 <= j < k implies s0[j] == #[trigger] s1[j] && t0[j] == t1[j] by {}
            assert forall|j: int| 0 <= j < k implies s0[j] == s1[j] && t0[j] == #[trigger] t1[j] by {}
        }
        if a[k] < b[k] {
            smaller = true;
        }
        if a[k] > b[k] {
            greater = true;
        }
        proof {
            if some_less(s0, t0) {
                let j = choose|j: int| 0 <= j < s0.len() && j < t0.len() && s0[j] < t0[j];
                assert(s1[j] < t1[j]);
            }
            if some_less(t0, s0) {
                let j = choose|j: int| 0 <= j < t0.len() && j < s0.len() && t0[j] < s0[j];
                assert(t1[j] < s1[j]);
            }
            if some_less(s1, t1) && !smaller {
                let j = choose|j: int| 0 <= j < s1.len() && j < t1.len() && s1[j] < t1[j];
                assert(j < k);
                assert(s0[j] < t0[j]);
            }
            if some_less(t1, s1) && !greater {
                let j = choose|j: int| 0 <= j < t1.len() && j < s1.len() && t1[j] < s1[j];
                assert(j < k);
                assert(t0[j] < s0[j]);
            }
        }
        k += 1;
    }
    proof {
        if k == a.len() {
            assert(s.take(k as int) =~= s);
            assert(t.take(k as int) =~= t);
        } else {
            let n = k as int;
            let j = choose|j: int| 0 <= j < s.take(n).len() && j < t.take(n).len() && s.take(n)[j] < t.take(n)[j];
            assert(s[j] < t[j]);
            let j2 = choose|j: int| 0 <= j < t.take(n).len() && j < s.take(n).len() && t.take(n)[j] < s.take(n)[j];
            assert(t[j2] < s[j2]);
        }
    }
    (smaller, greater)
}

/// The componentwise maximum of two counter vectors of the same length.
pub fn pairwise_max(a: &Vec<usize>, b: &Vec<usize>) -> (m: Vec<usize>)
    requires
        a.len() == b.len(),
    ensures
        m.len() == a.len(),
        counts_of(m@) == joined(counts_of(a@), counts_of(b@)),
{
    let mut m: Vec<usize> = Vec::with_capacity(a.len());
    let mut k: usize = 0;
    while k < a.len()
        invariant
            a.len() == b.len(),
            k <= a.len(),
            m.len() == k,
            forall|j: int| 0 <= j < k ==> #[trigger] m@[j] as nat == larger(a@[j] as nat, b@[j] as nat),
        decreases a.len() - k,
    {
        let x: usize = if a[k] >= b[k] {
            a[k]
        } else {
            b[k]
        };
        m.push(x);
        k += 1;
    }
    assert(counts_of(m@) =~= joined(counts_of(a@), counts_of(b@)));
    m
}

} // verus!
