//! Matrix clocks: each process keeps what it knows of every process's
//! vector clock, which is enough to tell when an event has been seen by all
//! and can be dropped from the log.

use crate::order::{
    all_fit, causal_order, counts_of, differences, joined, larger, order_from, pairwise_max, some_less, verdict,
    consistent, CausalOrder, GCClock, HasEvents, LogicalClock, OrdProcess,
};
use std::cmp::Ordering;
use vstd::prelude::*;

verus! {

/// The value of a matrix clock: whose it is, and one row per process. Row
/// `k` is what the owner knows of the vector clock of process `k`; the
/// owner's own row is its own vector clock.
pub struct MatrixStamp {
    pub owner: nat,
    pub rows: Seq<Seq<nat>>,
}

/// The rows of two matrices have the same lengths, one by one.
pub open spec fn same_shape(a: Seq<Seq<nat>>, b: Seq<Seq<nat>>) -> bool {
    &&& a.len() == b.len()
    &&& forall|r: int|
        #![trigger a[r]]
        #![trigger b[r]]
        0 <= r < a.len() ==> a[r].len() == b[r].len()
}

/// Some entry of `a` is strictly below the same entry of `b`.
pub open spec fn some_entry_less(a: Seq<Seq<nat>>, b: Seq<Seq<nat>>) -> bool {
    exists|r: int|
        #![trigger a[r]]
        #![trigger b[r]]
        0 <= r < a.len() && r < b.len() && some_less(a[r], b[r])
}

/// Entry by entry, the larger of two matrices of the same shape.
pub open spec fn joined_rows(a: Seq<Seq<nat>>, b: Seq<Seq<nat>>) -> Seq<Seq<nat>> {
    Seq::new(a.len(), |r: int| joined(a[r], b[r]))
}

/// The largest entry of column `c`, and 0 for a matrix without rows.
pub open spec fn column_max(rows: Seq<Seq<nat>>, c: int) -> nat
    decreases rows.len(),
{
    if rows.len() == 0 {
        0
    } else {
        larger(column_max(rows.drop_last(), c), rows.last()[c])
    }
}

/// No entry of a column exceeds the column's maximum.
pub proof fn lemma_column_max_bounds(rows: Seq<Seq<nat>>, c: int, r: int)
    requires
        0 <= r < rows.len(),
    ensures
        rows[r][c] <= column_max(rows, c),
    decreases rows.len(),
{
    if r < rows.len() - 1 {
        lemma_column_max_bounds(rows.drop_last(), c, r);
    }
}

impl MatrixStamp {
    /// The matrix is square and the owner is one of its processes.
    pub open spec fn valid(self) -> bool {
        &&& self.owner < self.rows.len()
        &&& forall|r: int| 0 <= r < self.rows.len() ==> (#[trigger] self.rows[r]).len() == self.rows.len()
    }

    /// The stamp of process `i` of `n` at its first event: its own row
    /// counts that one event, and nothing is known of anyone else.
    pub open spec fn fresh(i: nat, n: nat) -> MatrixStamp {
        MatrixStamp {
            owner: i,
            rows: Seq::new(
                n,
                |r: int|
                    Seq::new(
                        n,
                        |c: int|
                            if r == i && c == i {
                                1nat
                            } else {
                                0nat
                            },
                    ),
            ),
        }
    }

    /// The owner's count of its own events.
    pub open spec fn own_count(self) -> nat {
        self.rows[self.owner as int][self.owner as int]
    }

    /// One more event of the owner: the diagonal entry of its row grows by
    /// one.
    pub open spec fn extended(self) -> MatrixStamp {
        let i = self.owner as int;
        MatrixStamp {
            owner: self.owner,
            rows: self.rows.update(i, self.rows[i].update(i, self.rows[i][i] + 1)),
        }
    }

    /// Both are valid and track the same number of processes.
    pub open spec fn mergeable(self, other: MatrixStamp) -> bool {
        &&& self.valid()
        &&& other.valid()
        &&& self.rows.len() == other.rows.len()
    }

    /// The owner's row after a merge: for each process the most that any
    /// row of `most` knows of it, and one more event of the owner.
    pub open spec fn combined_row(most: Seq<Seq<nat>>, i: int) -> Seq<nat> {
        Seq::new(
            most.len(),
            |c: int|
                if c == i {
                    column_max(most, c) + 1
                } else {
                    column_max(most, c)
                },
        )
    }

    /// What the owner knows after receiving `other`: every row holds the
    /// most that either knew, and the owner's row what anyone knows.
    pub open spec fn merged(self, other: MatrixStamp) -> MatrixStamp {
        let most = joined_rows(self.rows, other.rows);
        MatrixStamp {
            owner: self.owner,
            rows: most.update(self.owner as int, Self::combined_row(most, self.owner as int)),
        }
    }

    /// The causal relation, taken over every entry of the two matrices and
    /// not over the owners' rows alone. Matrices of different shapes do not
    /// compare.
    pub open spec fn order(self, other: MatrixStamp) -> CausalOrder {
        if !same_shape(self.rows, other.rows) {
            CausalOrder::Incomparable
        } else {
            order_from(some_entry_less(self.rows, other.rows), some_entry_less(other.rows, self.rows))
        }
    }

    /// The event stamped `self` is causally stable with respect to `latest`:
    /// every row of `latest` has the owner's count of that event or a later
    /// one, so every process has seen it.
    pub open spec fn stable(self, latest: MatrixStamp) -> bool {
        forall|k: int|
            0 <= k < latest.rows.len() ==> (#[trigger] latest.rows[k])[self.owner as int]
                >= self.own_count()
    }
}

/// The rows of a matrix of counters, as natural numbers.
pub open spec fn rows_of(clk: Seq<Vec<usize>>) -> Seq<Seq<nat>> {
    Seq::new(clk.len(), |r: int| counts_of(clk[r]@))
}

/// A matrix clock.
#[derive(Debug)]
pub struct MatrixClock {
    i: usize,
    clk: Vec<Vec<usize>>,
}

impl View for MatrixClock {
    type V = MatrixStamp;

    closed spec fn view(&self) -> MatrixStamp {
        MatrixStamp { owner: self.i as nat, rows: rows_of(self.clk@) }
    }
}

/// A row of `n` counters, all 0 but for a 1 at `one_at`, if that is a
/// column of the row.
fn unit_row(n: usize, one_at: Option<usize>) -> (row: Vec<usize>)
    ensures
        row.len() == n,
        forall|c: int|
            0 <= c < n ==> #[trigger] row@[c] == (if one_at == Some(c as usize) {
                1usize
            } else {
                0usize
            }),
{
    let mut row: Vec<usize> = Vec::new();
    let mut c: usize = 0;
    while c < n
        invariant
            c <= n,
            row.len() == c,
            forall|k: int|
                0 <= k < c ==> #[trigger] row@[k] == (if one_at == Some(k as usize) {
                    1usize
                } else {
                    0usize
                }),
        decreases n - c,
    {
        let entry: usize = match one_at {
            Some(at) => if at == c { 1 } else { 0 },
            None => 0,
        };
        row.push(entry);
        c += 1;
    }
    row
}

/// A copy of a matrix of counters.
fn copy_rows(clk: &Vec<Vec<usize>>) -> (copy: Vec<Vec<usize>>)
    ensures
        rows_of(copy@) == rows_of(clk@),
        copy.len() == clk.len(),
        forall|r: int| 0 <= r < clk.len() ==> (#[trigger] copy@[r])@ == clk@[r]@,
{
    let mut copy: Vec<Vec<usize>> = Vec::new();
    let mut r: usize = 0;
    while r < clk.len()
        invariant
            r <= clk.len(),
            copy.len() == r,
            forall|k: int| 0 <= k < r ==> (#[trigger] copy@[k])@ == clk@[k]@,
        decreases clk.len() - r,
    {
        let row = clk[r].clone();
        assert(row@ =~= clk@[r as int]@);
        copy.push(row);
        r += 1;
    }
    assert(rows_of(copy@) =~= rows_of(clk@));
    copy
}

impl Clone for MatrixClock {
    fn clone(&self) -> (c: Self)
        ensures
            c@ == self@,
    {
        MatrixClock { i: self.i, clk: copy_rows(&self.clk) }
    }
}

/// Where no entry of `b` is below `a`, each entry of `a` is at most that of
/// `b`.
pub proof fn lemma_entry_bounded(a: Seq<Seq<nat>>, b: Seq<Seq<nat>>, r: int, c: int)
    requires
        same_shape(a, b),
        !some_entry_less(b, a),
        0 <= r < a.len(),
        0 <= c < a[r].len(),
    ensures
        a[r][c] <= b[r][c],
{
    assert(!some_less(b[r], a[r]));
    assert(!(b[r][c] < a[r][c]));
}

/// An entry of `a` below the same entry of `b` is a witness that some entry
/// is.
pub proof fn lemma_entry_witness(a: Seq<Seq<nat>>, b: Seq<Seq<nat>>, r: int, c: int)
    requires
        same_shape(a, b),
        0 <= r < a.len(),
        0 <= c < a[r].len(),
        a[r][c] < b[r][c],
    ensures
        some_entry_less(a, b),
{
    assert(some_less(a[r], b[r]));
}

/// Where all entries of `a` are at most those of `b`, none of `b` is below
/// `a`.
pub proof fn lemma_entries_bounded(a: Seq<Seq<nat>>, b: Seq<Seq<nat>>)
    requires
        same_shape(a, b),
        forall|r: int, c: int|
            0 <= r < a.len() && 0 <= c < a[r].len() ==> #[trigger] a[r][c] <= b[r][c],
    ensures
        !some_entry_less(b, a),
{
    if some_entry_less(b, a) {
        let r = choose|r: int| 0 <= r < b.len() && r < a.len() && some_less(b[r], a[r]);
        let c = choose|c: int| 0 <= c < b[r].len() && c < a[r].len() && b[r][c] < a[r][c];
        assert(a[r][c] <= b[r][c]);
    }
}

impl LogicalClock for MatrixClock {
    open spec fn valid(t: MatrixStamp) -> bool {
        t.valid()
    }

    open spec fn owner(t: MatrixStamp) -> nat {
        t.owner
    }

    open spec fn width(t: MatrixStamp) -> nat {
        t.rows.len()
    }

    open spec fn fits(t: MatrixStamp) -> bool {
        forall|r: int| 0 <= r < t.rows.len() ==> all_fit(#[trigger] t.rows[r])
    }

    open spec fn seen(t: MatrixStamp, k: nat) -> nat {
        t.rows[k as int][k as int]
    }

    open spec fn fresh(i: nat, n: nat) -> MatrixStamp {
        MatrixStamp::fresh(i, n)
    }

    open spec fn extended(t: MatrixStamp) -> MatrixStamp {
        t.extended()
    }

    open spec fn mergeable(t: MatrixStamp, other: MatrixStamp) -> bool {
        t.mergeable(other)
    }

    open spec fn merged(t: MatrixStamp, other: MatrixStamp) -> MatrixStamp {
        t.merged(other)
    }

    open spec fn order(s: MatrixStamp, t: MatrixStamp) -> CausalOrder {
        s.order(t)
    }

    fn new(i: usize, n_procs: usize) -> (c: Self) {
        let ghost goal = MatrixStamp::fresh(i as nat, n_procs as nat);
        let mut clk: Vec<Vec<usize>> = Vec::new();
        let mut r: usize = 0;
        while r < n_procs
            invariant
                r <= n_procs,
                i < n_procs,
                clk.len() == r,
                goal == MatrixStamp::fresh(i as nat, n_procs as nat),
                forall|k: int| 0 <= k < r ==> counts_of((#[trigger] clk@[k])@) == goal.rows[k],
            decreases n_procs - r,
        {
            let row = if r == i {
                unit_row(n_procs, Some(i))
            } else {
                unit_row(n_procs, None)
            };
            assert(counts_of(row@) =~= goal.rows[r as int]);
            clk.push(row);
            r += 1;
        }
        let c = MatrixClock { i, clk };
        assert(c@.rows =~= goal.rows);
        c
    }

    fn extend(&self) -> (c: Self) {
        let ghost goal = self@.extended();
        let mut clk = copy_rows(&self.clk);
        assert(self@.rows[self.i as int] == counts_of(self.clk@[self.i as int]@));
        let mut row = clk[self.i].clone();
        assert(row@ =~= self.clk@[self.i as int]@);
        let own: usize = row[self.i];
        assert(goal.rows[self.i as int][self.i as int] == own + 1);
        row.set(self.i, own + 1);
        assert(counts_of(row@) =~= goal.rows[self.i as int]);
        clk.set(self.i, row);
        let c = MatrixClock { i: self.i, clk };
        assert(c@.rows =~= goal.rows) by {
            assert forall|r: int| 0 <= r < goal.rows.len() implies c@.rows[r] == goal.rows[r] by {
                if r != self.i {
                    assert(c.clk@[r]@ == self.clk@[r]@);
                    assert(self@.rows[r] == counts_of(self.clk@[r]@));
                }
            }
        }
        proof {
            Self::law_extended(self@);
        }
        c
    }

    fn merge(&self, other: &Self) -> (c: Self) {
        let ghost goal = self@.merged(other@);
        let ghost most = joined_rows(self@.rows, other@.rows);
        let n = self.clk.len();
        let mut clk: Vec<Vec<usize>> = Vec::new();
        let mut r: usize = 0;
        while r < n
            invariant
                r <= n,
                n == self.clk.len(),
                n == other.clk.len(),
                self@.mergeable(other@),
                most == joined_rows(self@.rows, other@.rows),
                clk.len() == r,
                forall|k: int|
                    0 <= k < r ==> (#[trigger] clk@[k]).len() == n && counts_of(clk@[k]@)
                        == most[k],
            decreases n - r,
        {
            assert(self@.rows[r as int] == counts_of(self.clk@[r as int]@));
            assert(other@.rows[r as int] == counts_of(other.clk@[r as int]@));
            let row = pairwise_max(&self.clk[r], &other.clk[r]);
            clk.push(row);
            r += 1;
        }
        assert(rows_of(clk@) =~= most);
        let mut own: Vec<usize> = Vec::new();
        let mut col: usize = 0;
        while col < n
            invariant
                col <= n,
                clk.len() == n,
                rows_of(clk@) == most,
                forall|k: int| 0 <= k < n ==> (#[trigger] clk@[k]).len() == n,
                own.len() == col,
                forall|k: int| 0 <= k < col ==> #[trigger] own@[k] == column_max(most, k),
            decreases n - col,
        {
            let mut top: usize = 0;
            let mut row: usize = 0;
            while row < n
                invariant
                    row <= n,
                    col < n,
                    clk.len() == n,
                    rows_of(clk@) == most,
                    forall|k: int| 0 <= k < n ==> (#[trigger] clk@[k]).len() == n,
                    top == column_max(most.take(row as int), col as int),
                decreases n - row,
            {
                proof {
                    let upto = most.take(row + 1);
                    assert(upto.drop_last() =~= most.take(row as int));
                    assert(upto.last() == most[row as int]);
                    assert(most[row as int] == counts_of(clk@[row as int]@));
                }
                if clk[row][col] > top {
                    top = clk[row][col];
                }
                row += 1;
            }
            assert(most.take(n as int) =~= most);
            own.push(top);
            col += 1;
        }
        let mine: usize = own[self.i];
        proof {
            assert(goal.rows[self.i as int][self.i as int] == mine + 1);
            assert(all_fit(goal.rows[self.i as int]));
        }
        own.set(self.i, mine + 1);
        assert(counts_of(own@) =~= MatrixStamp::combined_row(most, self.i as int));
        clk.set(self.i, own);
        let c = MatrixClock { i: self.i, clk };
        assert(c@.rows =~= goal.rows);
        proof {
            Self::law_merged(self@, other@);
        }
        c
    }

    fn compare(&self, other: &Self) -> (o: CausalOrder) {
        if self.clk.len() != other.clk.len() {
            return CausalOrder::Incomparable;
        }
        let ghost a = self@.rows;
        let ghost b = other@.rows;
        let mut smaller = false;
        let mut greater = false;
        let mut r: usize = 0;
        while r < self.clk.len()
            invariant
                r <= self.clk.len(),
                self.clk.len() == other.clk.len(),
                a == self@.rows,
                b == other@.rows,
                same_shape(a.take(r as int), b.take(r as int)),
                smaller == some_entry_less(a.take(r as int), b.take(r as int)),
                greater == some_entry_less(b.take(r as int), a.take(r as int)),
                !(smaller && greater),
            decreases self.clk.len() - r,
        {
            let ghost a0 = a.take(r as int);
            let ghost b0 = b.take(r as int);
            let ghost a1 = a.take(r + 1);
            let ghost b1 = b.take(r + 1);
            proof {
                assert(a[r as int] == counts_of(self.clk@[r as int]@));
                assert(b[r as int] == counts_of(other.clk@[r as int]@));
                assert(a1[r as int] == a[r as int]);
                assert(b1[r as int] == b[r as int]);
                assert forall|k: int| 0 <= k < r implies a0[k] == #[trigger] a1[k] && b0[k] == b1[k] by {}
                assert forall|k: int| 0 <= k < r implies a0[k] == a1[k] && b0[k] == #[trigger] b1[k] by {}
            }
            if self.clk[r].len() != other.clk[r].len() {
                proof {
                    if same_shape(a, b) {
                        assert(a[r as int].len() == b[r as int].len());
                    }
                }
                return CausalOrder::Incomparable;
            }
            let found = differences(&self.clk[r], &other.clk[r]);
            if found.0 {
                smaller = true;
            }
            if found.1 {
                greater = true;
            }
            proof {
                if some_entry_less(a0, b0) {
                    let k = choose|k: int| 0 <= k < a0.len() && k < b0.len() && some_less(a0[k], b0[k]);
                    assert(some_less(a1[k], b1[k]));
                }
                if some_entry_less(b0, a0) {
                    let k = choose|k: int| 0 <= k < b0.len() && k < a0.len() && some_less(b0[k], a0[k]);
                    assert(some_less(b1[k], a1[k]));
                }
                if found.0 {
                    assert(some_less(a1[r as int], b1[r as int]));
                }
                if found.1 {
                    assert(some_less(b1[r as int], a1[r as int]));
                }
                if some_entry_less(a1, b1) && !smaller {
                    let k = choose|k: int| 0 <= k < a1.len() && k < b1.len() && some_less(a1[k], b1[k]);
                    assert(k < r);
                    assert(some_less(a0[k], b0[k]));
                }
                if some_entry_less(b1, a1) && !greater {
                    let k = choose|k: int| 0 <= k < b1.len() && k < a1.len() && some_less(b1[k], a1[k]);
                    assert(k < r);
                    assert(some_less(b0[k], a0[k]));
                }
                assert(same_shape(a1, b1)) by {
                    assert forall|k: int| 0 <= k < a1.len() implies (#[trigger] a1[k]).len() == b1[k].len() by {
                        if k < r {
                            assert(a0[k].len() == b0[k].len());
                        }
                    }
                }
            }
            if smaller && greater {
                proof {
                    let k1 = choose|k: int| 0 <= k < a1.len() && k < b1.len() && some_less(a1[k], b1[k]);
                    assert(some_less(a[k1], b[k1]));
                    let k2 = choose|k: int| 0 <= k < b1.len() && k < a1.len() && some_less(b1[k], a1[k]);
                    assert(some_less(b[k2], a[k2]));
                }
                return CausalOrder::Incomparable;
            }
            r += 1;
        }
        proof {
            assert(a.take(r as int) =~= a);
            assert(b.take(r as int) =~= b);
        }
        verdict(smaller, greater)
    }

    proof fn law_clone(a: Self, b: Self) {
    }

    proof fn law_fresh(i: nat, n: nat) {
    }

    proof fn law_reflexive(t: MatrixStamp) {
    }

    proof fn law_flipped(s: MatrixStamp, t: MatrixStamp) {
    }

    proof fn law_transitive(a: MatrixStamp, b: MatrixStamp, c: MatrixStamp) {
        let r = choose|r: int| 0 <= r < a.rows.len() && r < b.rows.len() && some_less(a.rows[r], b.rows[r]);
        let k = choose|k: int| 0 <= k < a.rows[r].len() && k < b.rows[r].len() && a.rows[r][k] < b.rows[r][k];
        assert(same_shape(a.rows, c.rows)) by {
            assert forall|q: int| 0 <= q < a.rows.len() implies (#[trigger] a.rows[q]).len() == c.rows[q].len() by {
                assert(a.rows[q].len() == b.rows[q].len());
                assert(b.rows[q].len() == c.rows[q].len());
            }
        }
        lemma_entry_bounded(b.rows, c.rows, r, k);
        lemma_entry_witness(a.rows, c.rows, r, k);
        assert forall|q: int, j: int| 0 <= q < a.rows.len() && 0 <= j < a.rows[q].len() implies #[trigger] a.rows[q][j] <= c.rows[q][j] by {
            lemma_entry_bounded(a.rows, b.rows, q, j);
            lemma_entry_bounded(b.rows, c.rows, q, j);
        }
        lemma_entries_bounded(a.rows, c.rows);
    }

    proof fn law_extended(t: MatrixStamp) {
        let e = t.extended();
        let i = t.owner as int;
        assert(same_shape(t.rows, e.rows));
        lemma_entry_witness(t.rows, e.rows, i, i);
        lemma_entries_bounded(t.rows, e.rows);
    }

    proof fn law_fresh_independent(i: nat, n: nat, j: nat, m: nat) {
        let s = MatrixStamp::fresh(i, n).rows;
        let t = MatrixStamp::fresh(j, m).rows;
        if n == m {
            assert(same_shape(s, t));
            lemma_entry_witness(s, t, j as int, j as int);
            lemma_entry_witness(t, s, i as int, i as int);
        }
    }

    proof fn law_merged(t: MatrixStamp, other: MatrixStamp) {
        let m = t.merged(other);
        let most = joined_rows(t.rows, other.rows);
        let i = t.owner as int;
        assert(m.valid());
        assert(same_shape(t.rows, m.rows));
        assert(same_shape(other.rows, m.rows));
        assert forall|r: int, c: int| 0 <= r < m.rows.len() && 0 <= c < m.rows[r].len() implies #[trigger] t.rows[r][c] <= m.rows[r][c] && other.rows[r][c] <= m.rows[r][c] by {
            if r == i {
                lemma_column_max_bounds(most, c, i);
            }
        }
        lemma_column_max_bounds(most, i, i);
        lemma_entry_witness(t.rows, m.rows, i, i);
        lemma_entry_witness(other.rows, m.rows, i, i);
        lemma_entries_bounded(t.rows, m.rows);
        assert forall|r: int, c: int| 0 <= r < m.rows.len() && 0 <= c < m.rows[r].len() implies #[trigger] other.rows[r][c] <= m.rows[r][c] by {
            assert(t.rows[r][c] <= m.rows[r][c] && other.rows[r][c] <= m.rows[r][c]);
        }
        lemma_entries_bounded(other.rows, m.rows);
    }

    proof fn law_sender_moves_on(t: MatrixStamp, other: MatrixStamp) {
        let m = t.merged(other);
        let e = other.extended();
        let most = joined_rows(t.rows, other.rows);
        let i = t.owner as int;
        let j = other.owner as int;
        assert(same_shape(e.rows, m.rows));
        assert(same_shape(m.rows, e.rows));
        assert(m.rows[j][j] < e.rows[j][j]);
        lemma_entry_witness(m.rows, e.rows, j, j);
        lemma_column_max_bounds(most, i, i);
        assert(e.rows[i][i] < m.rows[i][i]);
        lemma_entry_witness(e.rows, m.rows, i, i);
    }
}

/// Laid out row after row, two matrices of the same shape have as many
/// entries, and one has an entry below the other's exactly when it has one
/// in the layout.
pub proof fn lemma_row_major_differences(a: Seq<Seq<nat>>, b: Seq<Seq<nat>>)
    requires
        same_shape(a, b),
    ensures
        a.flatten().len() == b.flatten().len(),
        some_less(a.flatten(), b.flatten()) == some_entry_less(a, b),
    decreases a.len(),
{
    a.lemma_flatten_and_flatten_alt_are_equivalent();
    b.lemma_flatten_and_flatten_alt_are_equivalent();
    if a.len() > 0 {
        let a0 = a.drop_last();
        let b0 = b.drop_last();
        assert(same_shape(a0, b0)) by {
            assert forall|r: int| 0 <= r < a0.len() implies (#[trigger] a0[r]).len() == b0[r].len() by {
                assert(a[r].len() == b[r].len());
            }
        }
        lemma_row_major_differences(a0, b0);
        a0.lemma_flatten_and_flatten_alt_are_equivalent();
        b0.lemma_flatten_and_flatten_alt_are_equivalent();
        let fa0 = a0.flatten();
        let fb0 = b0.flatten();
        let fa = a.flatten();
        let fb = b.flatten();
        let last = a.len() - 1;
        assert(fa =~= fa0 + a[last]);
        assert(fb =~= fb0 + b[last]);
        assert(a[last].len() == b[last].len());
        if some_less(fa, fb) {
            let k = choose|k: int| 0 <= k < fa.len() && k < fb.len() && fa[k] < fb[k];
            if k < fa0.len() {
                assert(fa0[k] < fb0[k]);
                let r = choose|r: int| 0 <= r < a0.len() && r < b0.len() && some_less(a0[r], b0[r]);
                assert(some_less(a[r], b[r]));
            } else {
                assert(a[last][k - fa0.len()] < b[last][k - fa0.len()]);
                assert(some_less(a[last], b[last]));
            }
        }
        if some_entry_less(a, b) {
            let r = choose|r: int| 0 <= r < a.len() && r < b.len() && some_less(a[r], b[r]);
            if r < last {
                assert(some_less(a0[r], b0[r]));
                let k = choose|k: int| 0 <= k < fa0.len() && k < fb0.len() && fa0[k] < fb0[k];
                assert(fa[k] < fb[k]);
            } else {
                let c = choose|c: int| 0 <= c < a[r].len() && c < b[r].len() && a[r][c] < b[r][c];
                assert(fa[fa0.len() + c] < fb[fa0.len() + c]);
            }
        }
    }
}

/// A matrix of `rows.len()` rows of `width` entries each has their product
/// in entries.
pub proof fn lemma_row_major_len(rows: Seq<Seq<nat>>, width: nat)
    requires
        forall|r: int| 0 <= r < rows.len() ==> (#[trigger] rows[r]).len() == width,
    ensures
        rows.flatten().len() == rows.len() * width,
    decreases rows.len(),
{
    rows.lemma_flatten_and_flatten_alt_are_equivalent();
    if rows.len() > 0 {
        let head = rows.drop_last();
        assert forall|r: int| 0 <= r < head.len() implies (#[trigger] head[r]).len() == width by {
            assert(rows[r].len() == width);
        }
        lemma_row_major_len(head, width);
        head.lemma_flatten_and_flatten_alt_are_equivalent();
        assert(rows.flatten() =~= head.flatten() + rows.last());
        assert(rows.len() * width == head.len() * width + width) by (nonlinear_arith)
            requires
                rows.len() == head.len() + 1,
        ;
    } else {
        assert(rows.len() * width == 0) by (nonlinear_arith)
            requires
                rows.len() == 0,
        ;
    }
}

/// The order of two matrix clocks is the order of their entries laid out
/// in row-major order, compared as the counters of a vector clock are.
pub proof fn lemma_order_is_row_major(a: MatrixStamp, b: MatrixStamp)
    requires
        a.valid(),
        b.valid(),
    ensures
        a.order(b) == causal_order(a.rows.flatten(), b.rows.flatten()),
{
    let n = a.rows.len();
    let m = b.rows.len();
    lemma_row_major_len(a.rows, n);
    lemma_row_major_len(b.rows, m);
    if n == m {
        assert(same_shape(a.rows, b.rows));
        assert(same_shape(b.rows, a.rows));
        lemma_row_major_differences(a.rows, b.rows);
        lemma_row_major_differences(b.rows, a.rows);
    } else {
        assert(n * n != m * m) by (nonlinear_arith)
            requires
                n != m,
        ;
    }
}

/// Two stamps compare as `Equal` exactly when their matrices are the same,
/// whoever owns them.
pub proof fn lemma_equal_matrices(a: MatrixStamp, b: MatrixStamp)
    ensures
        a.order(b) == CausalOrder::Equal <==> a.rows == b.rows,
{
    if a.order(b) == CausalOrder::Equal {
        assert forall|r: int| 0 <= r < a.rows.len() implies a.rows[r] == b.rows[r] by {
            assert(a.rows[r].len() == b.rows[r].len());
            assert forall|c: int| 0 <= c < a.rows[r].len() implies a.rows[r][c] == b.rows[r][c] by {
                lemma_entry_bounded(a.rows, b.rows, r, c);
                lemma_entry_bounded(b.rows, a.rows, r, c);
            }
            assert(a.rows[r] =~= b.rows[r]);
        }
        assert(a.rows =~= b.rows);
    }
}

impl GCClock for MatrixClock {
    open spec fn stable(event: MatrixStamp, latest: MatrixStamp) -> bool {
        event.stable(latest)
    }

    fn gc(&self, latest: &Self) -> (seen_by_all: bool) {
        assert(self@.rows[self.i as int] == counts_of(self.clk@[self.i as int]@));
        let seq: usize = self.clk[self.i][self.i];
        let mut k: usize = 0;
        while k < latest.clk.len()
            invariant
                k <= latest.clk.len(),
                self@.valid(),
                latest@.valid(),
                self@.rows.len() == latest@.rows.len(),
                seq == self@.own_count(),
                forall|j: int|
                    0 <= j < k ==> (#[trigger] latest@.rows[j])[self.i as int] >= seq,
            decreases latest.clk.len() - k,
        {
            assert(latest@.rows[k as int] == counts_of(latest.clk@[k as int]@));
            if latest.clk[k][self.i] < seq {
                return false;
            }
            k += 1;
        }
        true
    }

    proof fn law_stable_before(earlier: MatrixStamp, later: MatrixStamp, latest: MatrixStamp) {
        let i = earlier.owner as int;
        lemma_entry_bounded(earlier.rows, later.rows, i, i);
    }
}

impl PartialEq for MatrixClock {
    /// Two clocks are equal when their matrices are, whoever owns them.
    fn eq(&self, other: &Self) -> (same: bool) {
        proof {
            lemma_equal_matrices(self@, other@);
        }
        match self.compare(other) {
            CausalOrder::Equal => true,
            _ => false,
        }
    }
}

impl vstd::std_specs::cmp::PartialEqSpecImpl for MatrixClock {
    open spec fn obeys_eq_spec() -> bool {
        true
    }

    open spec fn eq_spec(&self, other: &Self) -> bool {
        self@.rows == other@.rows
    }
}

impl PartialOrd for MatrixClock {
    /// The causal relation as std's comparison: `None` for clocks that do
    /// not compare.
    fn partial_cmp(&self, other: &Self) -> (o: Option<Ordering>) {
        match self.compare(other) {
            CausalOrder::Less => Some(Ordering::Less),
            CausalOrder::Equal => Some(Ordering::Equal),
            CausalOrder::Greater => Some(Ordering::Greater),
            CausalOrder::Incomparable => None,
        }
    }
}

impl vstd::std_specs::cmp::PartialOrdSpecImpl for MatrixClock {
    open spec fn obeys_partial_cmp_spec() -> bool {
        true
    }

    open spec fn partial_cmp_spec(&self, other: &Self) -> Option<Ordering> {
        match self@.order(other@) {
            CausalOrder::Less => Some(Ordering::Less),
            CausalOrder::Equal => Some(Ordering::Equal),
            CausalOrder::Greater => Some(Ordering::Greater),
            CausalOrder::Incomparable => None,
        }
    }
}

/// Stability reaches back along a log that is in order: an event that is
/// stable with respect to the latest has only stable events before it, and
/// one that is not has none after it.
pub proof fn lemma_stability_partitions(log: Seq<MatrixClock>, pid: nat, n: nat, at: int)
    requires
        consistent(log, pid, n),
        0 <= at < log.len(),
    ensures
        log[at]@.stable(log.last()@) ==> forall|k: int|
            0 <= k <= at ==> (#[trigger] log[k])@.stable(log.last()@),
        !log[at]@.stable(log.last()@) ==> forall|k: int|
            at <= k < log.len() ==> !(#[trigger] log[k])@.stable(log.last()@),
{
    let latest = log.last()@;
    if log[at]@.stable(latest) {
        assert forall|k: int| 0 <= k <= at implies (#[trigger] log[k])@.stable(latest) by {
            if k < at {
                MatrixClock::law_stable_before(log[k]@, log[at]@, latest);
            }
        }
    } else {
        assert forall|k: int| at <= k < log.len() implies !(#[trigger] log[k])@.stable(latest) by {
            if at < k && log[k]@.stable(latest) {
                MatrixClock::law_stable_before(log[at]@, log[k]@, latest);
            }
        }
    }
}

/// A process that stamps its events with matrix clocks and can drop from
/// its log the events that every process has seen.
pub struct GCProcess {
    i: usize,
    n_procs: usize,
    events: Vec<MatrixClock>,
}

impl GCProcess {
    /// Process `i` of `n_procs`, with no event yet.
    pub fn new(i: usize, n_procs: usize) -> (p: Self)
        ensures
            p.log() == Seq::<MatrixClock>::empty(),
            p.index() == i,
            p.size() == n_procs,
    {
        GCProcess { i, n_procs, events: Vec::new() }
    }

    /// The number of events at the head of a log that is not empty which
    /// are stable with respect to its latest event. Stability reaches back
    /// along the log, so the first event that is not stable is found by
    /// bisection.
    fn stable_prefix(&self) -> (cut: usize)
        requires
            consistent(self.log(), self.index(), self.size()),
            self.log().len() > 0,
        ensures
            cut <= self.log().len(),
            forall|k: int|
                0 <= k < cut ==> (#[trigger] self.log()[k])@.stable(self.log().last()@),
            forall|k: int|
                cut <= k < self.log().len() ==> !(#[trigger] self.log()[k])@.stable(
                    self.log().last()@,
                ),
    {
        let len = self.events.len();
        let latest = &self.events[len - 1];
        let ghost log = self.events@;
        let mut lo: usize = 0;
        let mut hi: usize = len;
        while lo < hi
            invariant
                lo <= hi <= len,
                len == log.len(),
                log == self.events@,
                *latest == log.last(),
                consistent(log, self.i as nat, self.n_procs as nat),
                forall|k: int| 0 <= k < lo ==> (#[trigger] log[k])@.stable(latest@),
                forall|k: int| hi <= k < len ==> !(#[trigger] log[k])@.stable(latest@),
            decreases hi - lo,
        {
            let mid = lo + (hi - lo) / 2;
            assert(log[mid as int]@.valid() && latest@.valid() && log[mid as int]@.rows.len()
                == latest@.rows.len()) by {
                assert(MatrixClock::valid(log[mid as int]@));
                assert(MatrixClock::valid(log[len - 1]@));
            }
            let seen_by_all = self.events[mid].gc(latest);
            proof {
                lemma_stability_partitions(log, self.i as nat, self.n_procs as nat, mid as int);
            }
            if seen_by_all {
                lo = mid + 1;
            } else {
                hi = mid;
            }
        }
        lo
    }

    /// Drops from the log the events that every process has seen, and
    /// returns them, oldest first. These are the events that are causally
    /// stable with respect to the latest event; they form a prefix of the
    /// log, and what follows them stays for a later round. An empty log
    /// gives nothing.
    pub fn gc(&mut self) -> (evicted: Vec<MatrixClock>)
        requires
            consistent(old(self).log(), old(self).index(), old(self).size()),
        ensures
            evicted@ + final(self).log() == old(self).log(),
            forall|k: int|
                0 <= k < evicted.len() ==> (#[trigger] old(self).log()[k])@.stable(
                    old(self).log().last()@,
                ),
            forall|k: int|
                evicted.len() <= k < old(self).log().len() ==> !(#[trigger] old(self).log()[k])@.stable(
                    old(self).log().last()@,
                ),
            final(self).index() == old(self).index(),
            final(self).size() == old(self).size(),
            consistent(final(self).log(), final(self).index(), final(self).size()),
    {
        if self.events.len() == 0 {
            let none: Vec<MatrixClock> = Vec::new();
            assert(none@ + self.events@ =~= self.events@);
            return none;
        }
        let ghost log = self.events@;
        let cut = self.stable_prefix();
        let mut kept = self.events.split_off(cut);
        std::mem::swap(&mut self.events, &mut kept);
        proof {
            assert(kept@ + self.events@ =~= log);
            assert forall|k: int| 0 <= k < self.events@.len() implies (#[trigger] self.events@[k])
                == log[k + cut] by {}
        }
        kept
    }
}

impl HasEvents<MatrixClock> for GCProcess {
    closed spec fn log(&self) -> Seq<MatrixClock> {
        self.events@
    }

    closed spec fn index(&self) -> nat {
        self.i as nat
    }

    closed spec fn size(&self) -> nat {
        self.n_procs as nat
    }

    fn last_event(&self) -> (e: Option<&MatrixClock>) {
        self.events.as_slice().last()
    }

    fn push_event(&mut self, e: MatrixClock) {
        self.events.push(e)
    }

    fn pid(&self) -> (p: usize) {
        self.i
    }

    fn n_procs(&self) -> (n: usize) {
        self.n_procs
    }

    fn events(&self) -> (log: &[MatrixClock]) {
        self.events.as_slice()
    }
}

impl OrdProcess<MatrixClock> for GCProcess {

}

} // verus!
