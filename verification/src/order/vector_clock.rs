//! Vector clocks: one counter per process, the least that orders events by
//! causality.

use crate::order::{
    all_fit, causal_order, counts_of, differences, joined, lemma_order_equal,
    lemma_order_flipped, lemma_order_reflexive, lemma_order_transitive, lemma_raise_is_less,
    pairwise_max, verdict, CausalOrder, HasEvents, LogicalClock, OrdProcess,
};
use std::cmp::Ordering;
use vstd::prelude::*;

verus! {

/// The value of a vector clock: whose it is, and for each process the
/// number of its events that the owner knows of.
pub struct VectorStamp {
    pub owner: nat,
    pub counts: Seq<nat>,
}

impl VectorStamp {
    /// The owner is one of the processes counted.
    pub open spec fn valid(self) -> bool {
        self.owner < self.counts.len()
    }

    /// The stamp of process `i` of `n` at its first event: one event of its
    /// own, none of anyone else.
    pub open spec fn fresh(i: nat, n: nat) -> VectorStamp {
        VectorStamp {
            owner: i,
            counts: Seq::new(
                n,
                |k: int|
                    if k == i {
                        1nat
                    } else {
                        0nat
                    },
            ),
        }
    }

    /// One more event of the owner.
    pub open spec fn extended(self) -> VectorStamp {
        VectorStamp {
            owner: self.owner,
            counts: self.counts.update(
                self.owner as int,
                self.counts[self.owner as int] + 1,
            ),
        }
    }

    /// What the owner knows after receiving `other`: the most that either
    /// knew of each process, and one more event of its own.
    pub open spec fn merged(self, other: VectorStamp) -> VectorStamp {
        let most = joined(self.counts, other.counts);
        VectorStamp {
            owner: self.owner,
            counts: most.update(self.owner as int, most[self.owner as int] + 1),
        }
    }

    /// A receiver can take in `other` when both count the same processes
    /// and the sender does not claim more events of the receiver than the
    /// receiver itself has had.
    pub open spec fn mergeable(self, other: VectorStamp) -> bool {
        &&& self.valid()
        &&& other.valid()
        &&& self.counts.len() == other.counts.len()
        &&& self.counts[self.owner as int] >= other.counts[self.owner as int]
    }
}

/// A vector clock. `s < t` holds exactly when the event stamped `s`
/// happened before the event stamped `t`; events that neither precedes are
/// concurrent, and their clocks do not compare.
#[derive(Debug)]
pub struct VectorClock {
    i: usize,
    clk: Vec<usize>,
}

impl View for VectorClock {
    type V = VectorStamp;

    closed spec fn view(&self) -> VectorStamp {
        VectorStamp { owner: self.i as nat, counts: counts_of(self.clk@) }
    }
}

impl Clone for VectorClock {
    fn clone(&self) -> (c: Self)
        ensures
            c@ == self@,
    {
        let c = VectorClock { i: self.i, clk: self.clk.clone() };
        assert(c.clk@ =~= self.clk@);
        c
    }
}

impl LogicalClock for VectorClock {
    open spec fn valid(t: VectorStamp) -> bool {
        t.valid()
    }

    open spec fn owner(t: VectorStamp) -> nat {
        t.owner
    }

    open spec fn width(t: VectorStamp) -> nat {
        t.counts.len()
    }

    open spec fn fits(t: VectorStamp) -> bool {
        all_fit(t.counts)
    }

    open spec fn seen(t: VectorStamp, k: nat) -> nat {
        t.counts[k as int]
    }

    open spec fn fresh(i: nat, n: nat) -> VectorStamp {
        VectorStamp::fresh(i, n)
    }

    open spec fn extended(t: VectorStamp) -> VectorStamp {
        t.extended()
    }

    open spec fn mergeable(t: VectorStamp, other: VectorStamp) -> bool {
        t.mergeable(other)
    }

    open spec fn merged(t: VectorStamp, other: VectorStamp) -> VectorStamp {
        t.merged(other)
    }

    open spec fn order(s: VectorStamp, t: VectorStamp) -> CausalOrder {
        causal_order(s.counts, t.counts)
    }

    fn new(i: usize, n_procs: usize) -> (c: Self) {
        let mut clk: Vec<usize> = Vec::new();
        let mut j: usize = 0;
        while j < n_procs
            invariant
                j <= n_procs,
                clk.len() == j,
                forall|k: int| 0 <= k < j ==> #[trigger] clk@[k] == (if k == i { 1usize } else { 0usize }),
            decreases n_procs - j,
        {
            let one: usize = if i == j { 1 } else { 0 };
            clk.push(one);
            j += 1;
        }
        let c = VectorClock { i, clk };
        assert(c@.counts =~= VectorStamp::fresh(i as nat, n_procs as nat).counts);
        c
    }

    fn extend(&self) -> (c: Self) {
        let mut clk = self.clk.clone();
        assert(clk@ =~= self.clk@);
        let own: usize = clk[self.i];
        assert(self@.extended().counts[self.i as int] == own + 1);
        clk.set(self.i, own + 1);
        let c = VectorClock { i: self.i, clk };
        assert(c@.counts =~= self@.extended().counts);
        proof {
            Self::law_extended(self@);
        }
        c
    }

    fn merge(&self, other: &Self) -> (c: Self) {
        let mut clk = pairwise_max(&self.clk, &other.clk);
        let own: usize = clk[self.i];
        proof {
            let most = joined(self@.counts, other@.counts);
            assert(counts_of(clk@)[self.i as int] == most[self.i as int]);
            assert(self@.merged(other@).counts[self.i as int] == own + 1);
        }
        clk.set(self.i, own + 1);
        let c = VectorClock { i: self.i, clk };
        assert(c@.counts =~= self@.merged(other@).counts);
        proof {
            Self::law_merged(self@, other@);
        }
        c
    }

    fn compare(&self, other: &Self) -> (o: CausalOrder) {
        if self.clk.len() != other.clk.len() {
            return CausalOrder::Incomparable;
        }
        let found = differences(&self.clk, &other.clk);
        verdict(found.0, found.1)
    }

    proof fn law_clone(a: Self, b: Self) {
    }

    proof fn law_fresh(i: nat, n: nat) {
    }

    proof fn law_reflexive(t: VectorStamp) {
        lemma_order_reflexive(t.counts);
    }

    proof fn law_flipped(s: VectorStamp, t: VectorStamp) {
        lemma_order_flipped(s.counts, t.counts);
    }

    proof fn law_transitive(a: VectorStamp, b: VectorStamp, c: VectorStamp) {
        lemma_order_transitive(a.counts, b.counts, c.counts);
    }

    proof fn law_extended(t: VectorStamp) {
        lemma_raise_is_less(t.counts, t.owner as int, 1);
    }

    proof fn law_fresh_independent(i: nat, n: nat, j: nat, m: nat) {
        let s = VectorStamp::fresh(i, n).counts;
        let t = VectorStamp::fresh(j, m).counts;
        if n == m {
            assert(s[j as int] < t[j as int]);
            assert(t[i as int] < s[i as int]);
        }
    }

    proof fn law_merged(t: VectorStamp, other: VectorStamp) {
        let m = t.merged(other).counts;
        let i = t.owner as int;
        assert(t.counts[i] < m[i]);
        assert(other.counts[i] < m[i]);
        lemma_order_flipped(t.counts, m);
        lemma_order_flipped(other.counts, m);
    }

    proof fn law_sender_moves_on(t: VectorStamp, other: VectorStamp) {
        let m = t.merged(other).counts;
        let e = other.extended().counts;
        let i = t.owner as int;
        let j = other.owner as int;
        assert(m[j] < e[j]);
        assert(e[i] < m[i]);
    }
}

impl PartialEq for VectorClock {
    /// Two clocks are equal when they belong to the same process and hold
    /// the same counters.
    fn eq(&self, other: &Self) -> (same: bool) {
        if self.i != other.i || self.clk.len() != other.clk.len() {
            assert(self@.counts.len() == self.clk.len());
            assert(other@.counts.len() == other.clk.len());
            return false;
        }
        let found = differences(&self.clk, &other.clk);
        proof {
            lemma_order_equal(self@.counts, other@.counts);
        }
        !found.0 && !found.1
    }
}

impl vstd::std_specs::cmp::PartialEqSpecImpl for VectorClock {
    open spec fn obeys_eq_spec() -> bool {
        true
    }

    open spec fn eq_spec(&self, other: &Self) -> bool {
        self@ == other@
    }
}

impl PartialOrd for VectorClock {
    /// The causal relation as std's comparison: `None` for clocks that do
    /// not compare.
    fn partial_cmp(&self, other: &Self) -> (o: Option<Ordering>) {
        match self.compare(other) {
            CausalOrder::Less => Some(Ordering::Less),
            CausalOrder::Equal => Some(Ordering::Equal),
            CausalOrder::Greater => Some(Ordering::Greater),
            CausalOrder::Incomparable => None,
        }
    }
}

impl vstd::std_specs::cmp::PartialOrdSpecImpl for VectorClock {
    open spec fn obeys_partial_cmp_spec() -> bool {
        true
    }

    open spec fn partial_cmp_spec(&self, other: &Self) -> Option<Ordering> {
        match causal_order(self@.counts, other@.counts) {
            CausalOrder::Less => Some(Ordering::Less),
            CausalOrder::Equal => Some(Ordering::Equal),
            CausalOrder::Greater => Some(Ordering::Greater),
            CausalOrder::Incomparable => None,
        }
    }
}

/// A process that stamps its events with vector clocks.
pub struct VecProcess {
    i: usize,
    n_procs: usize,
    events: Vec<VectorClock>,
}

impl VecProcess {
    /// Process `i` of `n_procs`, with no event yet.
    pub fn new(i: usize, n_procs: usize) -> (p: Self)
        ensures
            p.log() == Seq::<VectorClock>::empty(),
            p.index() == i,
            p.size() == n_procs,
    {
        VecProcess { i, n_procs, events: Vec::new() }
    }
}

impl HasEvents<VectorClock> for VecProcess {
    closed spec fn log(&self) -> Seq<VectorClock> {
        self.events@
    }

    closed spec fn index(&self) -> nat {
        self.i as nat
    }

    closed spec fn size(&self) -> nat {
        self.n_procs as nat
    }

    fn last_event(&self) -> (e: Option<&VectorClock>) {
        self.events.as_slice().last()
    }

    fn push_event(&mut self, e: VectorClock) {
        self.events.push(e)
    }

    fn pid(&self) -> (p: usize) {
        self.i
    }

    fn n_procs(&self) -> (n: usize) {
        self.n_procs
    }

    fn events(&self) -> (log: &[VectorClock]) {
        self.events.as_slice()
    }
}

impl OrdProcess<VectorClock> for VecProcess {

}

} // verus!
