//! The executable Held–Karp solver.
//!
//! `TSPSolver` owns the cost matrix and two flat tables indexed by
//! `(visited mask, current city)`: the memoized completion costs and the
//! recorded optimal next city of each evaluated state.  `dp` fills the
//! tables lazily, `reconstruct_path` replays the recorded choices, and
//! `solve` combines the two into a `TSPResult`.

use vstd::prelude::*;

use crate::cost::complete_cost;
use crate::cost::matrix_ok;
use crate::cost::no_candidate;
use crate::cost::scan_best;
use crate::cost::scan_pick;
use crate::cost::state_ok;
use crate::cost::step_cost;
use crate::cost::tour_suffix;
use crate::cost::MAX_CITIES;
use crate::cost::MAX_EDGE_COST;
use crate::masks::bit_set;
use crate::masks::full_mask;
use crate::masks::lemma_nonfull_has_unvisited;
use crate::masks::lemma_table_index_bounds;
use crate::masks::lemma_table_index_injective;
use crate::masks::lemma_unvisited_le;
use crate::masks::lemma_unvisited_with_bit;
use crate::masks::lemma_with_bit_lt;
use crate::masks::table_index;
use crate::masks::unvisited_count;
use crate::masks::with_bit;

verus! {

/// The answer of a solve: the minimum tour cost and the tour itself,
/// starting and ending at city 0.
#[derive(Debug)]
pub struct TSPResult {
    pub min_cost: i32,
    pub path: Vec<usize>,
}

/// The solver state: the matrix and the two state tables.
pub struct TSPSolver {
    pub n: usize,
    pub dist: Vec<Vec<i32>>,
    pub memo: Vec<Option<i32>>,
    pub parent: Vec<Option<usize>>,
    pub memo_entries: usize,
}

/// A vector-of-rows matrix as a mathematical sequence of sequences.
pub open spec fn matrix_view(rows: Seq<Vec<i32>>) -> Seq<Seq<i32>> {
    Seq::new(rows.len(), |i: int| rows[i]@)
}

/// Number of entries of a state table for `n` cities.
pub open spec fn table_size(n: usize) -> int {
    n * (1usize << n)
}

/// How many states have been memoized.
pub open spec fn count_some(s: Seq<Option<i32>>) -> nat
    decreases s.len(),
{
    if s.len() == 0 {
        0
    } else {
        count_some(s.drop_last()) + if s.last().is_some() {
            1nat
        } else {
            0nat
        }
    }
}

/// No more states can be memoized than the table holds.
pub proof fn lemma_count_le_len(s: Seq<Option<i32>>)
    ensures
        count_some(s) <= s.len(),
    decreases s.len(),
{
    if s.len() > 0 {
        lemma_count_le_len(s.drop_last());
    }
}

/// Memoizing a fresh state raises the count by exactly one.
pub proof fn lemma_count_update(s: Seq<Option<i32>>, i: int, v: i32)
    requires
        0 <= i < s.len(),
        s[i] is None,
    ensures
        count_some(s.update(i, Some(v))) == count_some(s) + 1,
    decreases s.len(),
{
    let t = s.update(i, Some(v));
    if i == s.len() - 1 {
        assert(t.drop_last() =~= s.drop_last());
        assert(t.last() == Some(v));
    } else {
        assert(t.drop_last() =~= s.drop_last().update(i, Some(v)));
        assert(t.last() == s.last());
        lemma_count_update(s.drop_last(), i, v);
    }
}

/// A memoized state makes the count positive.
pub proof fn lemma_count_pos(s: Seq<Option<i32>>, i: int)
    requires
        0 <= i < s.len(),
        s[i].is_some(),
    ensures
        count_some(s) >= 1,
    decreases s.len(),
{
    if i < s.len() - 1 {
        lemma_count_pos(s.drop_last(), i);
    }
}

/// The state tables fit comfortably in memory for any accepted `n`.
pub proof fn lemma_table_size_small(n: usize)
    requires
        n <= 20,
    ensures
        0 <= table_size(n) <= 20971520,
{
    assert((1usize << n) <= 0x100000usize) by (bit_vector)
        requires
            n <= 20usize,
    ;
    let w = (1usize << n) as int;
    assert(n * w <= 20971520 && 0 <= n * w) by (nonlinear_arith)
        requires
            n <= 20usize,
            0 <= w <= 0x100000,
    ;
}

/// Every state along the recorded optimal route from `(mask, pos)` has been
/// memoized, so the route can be replayed from the tables.
pub open spec fn chain_memoized(
    memo: Seq<Option<i32>>,
    dist: Seq<Seq<i32>>,
    n: usize,
    mask: usize,
    pos: usize,
) -> bool
    decreases unvisited_count(mask, n),
    via chain_memoized_dec
{
    if !state_ok(dist, n, mask, pos) || mask == full_mask(n) {
        true
    } else {
        let c = scan_pick(dist, n, mask, pos, n);
        &&& memo[table_index(mask, pos, n)].is_some()
        &&& chain_memoized(memo, dist, n, with_bit(mask, c), c)
    }
}

#[via_fn]
proof fn chain_memoized_dec(
    memo: Seq<Option<i32>>,
    dist: Seq<Seq<i32>>,
    n: usize,
    mask: usize,
    pos: usize,
) {
    if state_ok(dist, n, mask, pos) && mask != full_mask(n) {
        crate::cost::lemma_pick_valid(dist, n, mask, pos);
        lemma_unvisited_with_bit(mask, scan_pick(dist, n, mask, pos, n), n);
    }
}

/// Memoizing more states never breaks an existing replayable route.
pub proof fn lemma_chain_monotone(
    m1: Seq<Option<i32>>,
    m2: Seq<Option<i32>>,
    dist: Seq<Seq<i32>>,
    n: usize,
    mask: usize,
    pos: usize,
)
    requires
        m1.len() == m2.len(),
        table_size(n) <= m1.len(),
        forall|i: int| 0 <= i < m1.len() && m1[i].is_some() ==> #[trigger] m2[i].is_some(),
        chain_memoized(m1, dist, n, mask, pos),
    ensures
        chain_memoized(m2, dist, n, mask, pos),
    decreases unvisited_count(mask, n),
{
    if state_ok(dist, n, mask, pos) && mask != full_mask(n) {
        let c = scan_pick(dist, n, mask, pos, n);
        crate::cost::lemma_pick_valid(dist, n, mask, pos);
        lemma_unvisited_with_bit(mask, c, n);
        lemma_with_bit_lt(mask, c, n);
        lemma_table_index_bounds(mask, pos, n);
        lemma_chain_monotone(m1, m2, dist, n, with_bit(mask, c), c);
    }
}

impl TSPSolver {
    /// The solver's cost matrix as a mathematical value.
    pub open spec fn m(&self) -> Seq<Seq<i32>> {
        matrix_view(self.dist@)
    }

    /// What a single table entry may hold: nothing, or exactly the completion
    /// cost and recorded pick of its state, with the state's route replayable.
    pub open spec fn entry_ok(&self, mask: usize, pos: usize) -> bool {
        let i = table_index(mask, pos, self.n);
        &&& (self.memo@[i].is_some() <==> self.parent@[i].is_some())
        &&& (self.memo@[i].is_some() ==> {
            &&& mask != full_mask(self.n)
            &&& self.memo@[i].unwrap() as int == complete_cost(self.m(), self.n, mask, pos)
            &&& self.parent@[i] == Some(scan_pick(self.m(), self.n, mask, pos, self.n))
            &&& chain_memoized(self.memo@, self.m(), self.n, mask, pos)
        })
    }

    /// The solver's invariant: a well-formed matrix, tables of the right
    /// size, an accurate entry count, and only correct memoized entries.
    pub open spec fn wf(&self) -> bool {
        &&& matrix_ok(self.m(), self.n)
        &&& self.memo@.len() == table_size(self.n)
        &&& self.parent@.len() == table_size(self.n)
        &&& self.memo_entries == count_some(self.memo@)
        &&& forall|mask: usize, pos: usize|
            mask < (1usize << self.n) && pos < self.n ==> #[trigger] self.entry_ok(mask, pos)
    }

    /// Whether a matrix meets the solver's input contract: square, between
    /// one and `MAX_CITIES` cities, every cost within `MAX_EDGE_COST`.
    pub fn check_matrix(matrix: &Vec<Vec<i32>>) -> (ok: bool)
        ensures
            ok == matrix_ok(matrix_view(matrix@), matrix@.len() as usize),
    {
        let n = matrix.len();
        if n < 1 || n > MAX_CITIES {
            return false;
        }
        let mut i: usize = 0;
        while i < n
            invariant
                n == matrix@.len(),
                1 <= n <= MAX_CITIES,
                i <= n,
                forall|r: int| 0 <= r < i ==> (#[trigger] matrix_view(matrix@)[r]).len() == n,
                forall|r: int, c: int|
                    0 <= r < i && 0 <= c < n ==> -MAX_EDGE_COST <= #[trigger] matrix_view(
                        matrix@,
                    )[r][c] <= MAX_EDGE_COST,
            decreases n - i,
        {
            let row = &matrix[i];
            if row.len() != n {
                assert(matrix_view(matrix@)[i as int] == row@);
                return false;
            }
            let mut j: usize = 0;
            while j < n
                invariant
                    n == matrix@.len(),
                    i < n,
                    j <= n,
                    row == matrix@[i as int],
                    row@.len() == n,
                    forall|c: int|
                        0 <= c < j ==> -MAX_EDGE_COST <= #[trigger] row@[c] <= MAX_EDGE_COST,
                decreases n - j,
            {
                let v = row[j];
                if v < -MAX_EDGE_COST || v > MAX_EDGE_COST {
                    assert(matrix_view(matrix@)[i as int][j as int] == v);
                    return false;
                }
                j += 1;
            }
            assert forall|c: int|
                0 <= c < n implies -MAX_EDGE_COST <= #[trigger] matrix_view(matrix@)[i as int][c]
                <= MAX_EDGE_COST by {
                assert(matrix_view(matrix@)[i as int] == row@);
            }
            i += 1;
        }
        true
    }

    /// Build a solver for the given matrix, with all states unevaluated.
    pub fn new(distance_matrix: Vec<Vec<i32>>) -> (solver: TSPSolver)
        requires
            matrix_ok(matrix_view(distance_matrix@), distance_matrix@.len() as usize),
        ensures
            solver.wf(),
            solver.n == distance_matrix@.len(),
            solver.m() == matrix_view(distance_matrix@),
            solver.memo_entries == 0,
            forall|i: int| 0 <= i < solver.memo@.len() ==> (#[trigger] solver.memo@[i]) is None,
    {
        let ghost dm = distance_matrix@;
        let n = distance_matrix.len();
        proof {
            lemma_table_size_small(n);
        }
        let width = 1usize << n;
        let slots = n * width;
        let mut memo: Vec<Option<i32>> = Vec::new();
        let mut parent: Vec<Option<usize>> = Vec::new();
        let mut i: usize = 0;
        while i < slots
            invariant
                i <= slots,
                memo@.len() == i,
                parent@.len() == i,
                forall|k: int| 0 <= k < i ==> (#[trigger] memo@[k]) is None,
                forall|k: int| 0 <= k < i ==> (#[trigger] parent@[k]) is None,
                count_some(memo@) == 0,
            decreases slots - i,
        {
            proof {
                assert(memo@.push(None).drop_last() =~= memo@);
                assert(count_some(memo@.push(None)) == count_some(memo@));
            }
            memo.push(None);
            parent.push(None);
            i += 1;
        }
        let solver = TSPSolver { n, dist: distance_matrix, memo, parent, memo_entries: 0 };
        proof {
            assert(solver.m() =~= matrix_view(dm));
            assert forall|mask: usize, pos: usize|
                mask < (1usize << solver.n) && pos < solver.n implies #[trigger] solver.entry_ok(
                mask,
                pos,
            ) by {
                lemma_table_index_bounds(mask, pos, solver.n);
            }
        }
        solver
    }

    /// The Held–Karp recursion: the minimum cost to finish the tour from
    /// `pos` with `mask` already visited.  Already-memoized states are read
    /// back; every newly evaluated state is memoized together with its
    /// optimal next city, and memoized states are never overwritten.
    pub fn dp(&mut self, mask: usize, pos: usize) -> (cost: i32)
        requires
            old(self).wf(),
            pos < old(self).n,
            mask < (1usize << old(self).n),
        ensures
            final(self).wf(),
            final(self).n == old(self).n,
            final(self).dist == old(self).dist,
            cost as int == complete_cost(old(self).m(), old(self).n, mask, pos),
            chain_memoized(final(self).memo@, old(self).m(), old(self).n, mask, pos),
            forall|i: int|
                0 <= i < old(self).memo@.len() && old(self).memo@[i].is_some()
                    ==> #[trigger] final(self).memo@[i] == old(self).memo@[i],
            forall|i: int|
                0 <= i < old(self).parent@.len() && old(self).parent@[i].is_some()
                    ==> #[trigger] final(self).parent@[i] == old(self).parent@[i],
            forall|m2: usize, p2: usize|
                m2 < (1usize << old(self).n) && p2 < old(self).n
                    && (#[trigger] final(self).memo@[table_index(m2, p2, old(self).n)]).is_some()
                    ==> old(self).memo@[table_index(m2, p2, old(self).n)].is_some()
                        || unvisited_count(m2, old(self).n) < unvisited_count(mask, old(self).n)
                        || (m2 == mask && p2 == pos),
        decreases unvisited_count(mask, old(self).n),
    {
        let ghost d = self.m();
        let ghost memo0 = self.memo@;
        let ghost parent0 = self.parent@;
        let n = self.n;
        let full = (1usize << n) - 1;
        proof {
            assert(full == full_mask(n));
            assert(matrix_view(self.dist@)[pos as int] == self.dist@[pos as int]@);
        }
        if mask == full {
            return self.dist[pos][0];
        }
        proof {
            lemma_table_index_bounds(mask, pos, n);
            lemma_table_size_small(n);
        }
        let idx = mask * n + pos;
        let entry = self.memo[idx];
        if let Some(c) = entry {
            proof {
                assert(self.entry_ok(mask, pos));
            }
            return c;
        }
        let mut min_cost: i32 = i32::MAX;
        let mut best_next: usize = 0;
        let mut next: usize = 0;
        while next < n
            invariant
                self.wf(),
                self.n == n,
                n == old(self).n,
                self.m() == d,
                self.dist == old(self).dist,
                memo0.len() == table_size(n),
                parent0.len() == table_size(n),
                matrix_ok(d, n),
                pos < n,
                mask < (1usize << n),
                mask != full_mask(n),
                next <= n,
                self.memo@[table_index(mask, pos, n)] is None,
                min_cost as int == scan_best(d, n, mask, pos, next),
                best_next == scan_pick(d, n, mask, pos, next),
                min_cost as int != no_candidate() ==> (best_next < n && !bit_set(mask, best_next)
                    && (with_bit(mask, best_next) == full_mask(n) || self.memo@[table_index(
                    with_bit(mask, best_next),
                    best_next,
                    n,
                )].is_some())),
                forall|i: int|
                    0 <= i < memo0.len() && memo0[i].is_some() ==> #[trigger] self.memo@[i]
                        == memo0[i],
                forall|i: int|
                    0 <= i < parent0.len() && parent0[i].is_some() ==> #[trigger] self.parent@[i]
                        == parent0[i],
                forall|m2: usize, p2: usize|
                    m2 < (1usize << n) && p2 < n && (#[trigger] self.memo@[table_index(
                        m2,
                        p2,
                        n,
                    )]).is_some() ==> memo0[table_index(m2, p2, n)].is_some() || unvisited_count(
                        m2,
                        n,
                    ) < unvisited_count(mask, n),
            decreases n - next,
        {
            if mask & (1usize << next) == 0 {
                proof {
                    lemma_with_bit_lt(mask, next, n);
                    lemma_unvisited_with_bit(mask, next, n);
                }
                let new_mask = mask | (1usize << next);
                let sub_cost = self.dp(new_mask, next);
                proof {
                    crate::cost::lemma_complete_cost_bound(d, n, new_mask, next);
                    lemma_unvisited_le(mask, n);
                    let u2 = unvisited_count(new_mask, n) as int;
                    let m = MAX_EDGE_COST as int;
                    assert((u2 + 1) * m <= 20 * m) by (nonlinear_arith)
                        requires
                            0 <= u2,
                            u2 + 1 <= 20,
                            0 < m,
                    ;
                    assert(matrix_view(self.dist@)[pos as int] == self.dist@[pos as int]@);
                    assert(self.memo@[table_index(mask, pos, n)] is None) by {
                        lemma_unvisited_with_bit(mask, next, n);
                    }
                }
                let candidate = self.dist[pos][next] + sub_cost;
                proof {
                    assert(candidate as int == step_cost(d, n, mask, pos, next));
                    if new_mask != full_mask(n) {
                        assert(self.memo@[table_index(new_mask, next, n)].is_some());
                    }
                }
                if candidate < min_cost {
                    min_cost = candidate;
                    best_next = next;
                }
            }
            proof {
                if min_cost != i32::MAX {
                    lemma_with_bit_lt(mask, best_next, n);
                    lemma_table_index_bounds(with_bit(mask, best_next), best_next, n);
                }
            }
            next += 1;
        }
        proof {
            lemma_nonfull_has_unvisited(mask, n);
            crate::cost::lemma_scan(d, n, mask, pos, n);
            assert(min_cost as int == complete_cost(d, n, mask, pos));
            lemma_count_le_len(self.memo@);
            lemma_table_size_small(n);
            lemma_table_index_bounds(mask, pos, n);
            assert(memo0[table_index(mask, pos, n)] is None) by {
                if memo0[table_index(mask, pos, n)].is_some() {
                    assert(self.memo@[table_index(mask, pos, n)] == memo0[table_index(
                        mask,
                        pos,
                        n,
                    )]);
                }
            }
            assert(old(self).entry_ok(mask, pos));
            assert(parent0[table_index(mask, pos, n)] is None);
        }
        let ghost pre_memo = self.memo@;
        let ghost pre_parent = self.parent@;
        let ghost pre_self = *self;
        self.memo[idx] = Some(min_cost);
        self.parent[idx] = Some(best_next);
        self.memo_entries = self.memo_entries + 1;
        proof {
            lemma_count_update(pre_memo, idx as int, min_cost);
            let c = best_next;
            let sub = with_bit(mask, c);
            lemma_unvisited_with_bit(mask, c, n);
            lemma_with_bit_lt(mask, c, n);
            if sub != full_mask(n) {
                lemma_table_index_bounds(sub, c, n);
                assert(pre_memo[table_index(sub, c, n)].is_some());
                assert(pre_self.entry_ok(sub, c));
                assert(chain_memoized(pre_memo, d, n, sub, c));
                lemma_chain_monotone(pre_memo, self.memo@, d, n, sub, c);
            } else {
                assert(chain_memoized(self.memo@, d, n, sub, c));
            }
            assert(self.memo@[table_index(mask, pos, n)] == Some(min_cost));
            assert(chain_memoized(self.memo@, d, n, mask, pos));
            assert forall|m2: usize, p2: usize|
                m2 < (1usize << n) && p2 < n implies #[trigger] self.entry_ok(m2, p2) by {
                lemma_table_index_bounds(m2, p2, n);
                let i2 = table_index(m2, p2, n);
                if m2 == mask && p2 == pos {
                    assert(self.memo@[i2] == Some(min_cost));
                    assert(self.parent@[i2] == Some(best_next));
                } else {
                    if i2 == table_index(mask, pos, n) {
                        lemma_table_index_injective(m2, p2, mask, pos, n);
                    }
                    assert(self.memo@[i2] == pre_memo[i2]);
                    assert(self.parent@[i2] == pre_parent[i2]);
                    assert(pre_self.entry_ok(m2, p2));
                    if pre_memo[i2].is_some() {
                        lemma_chain_monotone(pre_memo, self.memo@, d, n, m2, p2);
                    }
                }
            }
            assert forall|m2: usize, p2: usize|
                m2 < (1usize << n) && p2 < n && (#[trigger] self.memo@[table_index(
                    m2,
                    p2,
                    n,
                )]).is_some() implies memo0[table_index(m2, p2, n)].is_some() || unvisited_count(
                m2,
                n,
            ) < unvisited_count(mask, n) || (m2 == mask && p2 == pos) by {
                lemma_table_index_bounds(m2, p2, n);
                if table_index(m2, p2, n) == table_index(mask, pos, n) {
                    lemma_table_index_injective(m2, p2, mask, pos, n);
                } else {
                    assert(self.memo@[table_index(m2, p2, n)] == pre_memo[table_index(m2, p2, n)]);
                }
            }
            assert(self.wf());
        }
        min_cost
    }

    /// Replay the recorded optimal next cities from the initial state,
    /// closing the tour with the return to city 0.  When the tables hold
    /// the replayed route — as they do after `dp(1, 0)` — the result is
    /// exactly the recorded tour; a gap in the tables stops the replay
    /// early, which callers can detect by a path shorter than `n + 1`.
    pub fn reconstruct_path(&self) -> (path: Vec<usize>)
        requires
            self.wf(),
        ensures
            path@.len() >= 2,
            path@[0] == 0usize,
            path@[path@.len() - 1] == 0usize,
            chain_memoized(self.memo@, self.m(), self.n, 1usize, 0usize) ==> path@
                == crate::cost::optimal_tour(self.m(), self.n),
    {
        let ghost d = self.m();
        let n = self.n;
        proof {
            assert(1usize < (1usize << n)) by (bit_vector)
                requires
                    1 <= n <= 20usize,
            ;
        }
        let full = (1usize << n) - 1;
        let ghost chain0 = chain_memoized(self.memo@, d, n, 1usize, 0usize);
        let mut path: Vec<usize> = Vec::new();
        path.push(0);
        let mut mask: usize = 1;
        let mut pos: usize = 0;
        let mut stopped = false;
        while mask != full && !stopped
            invariant
                self.wf(),
                n == self.n,
                d == self.m(),
                full == full_mask(n),
                1 <= n <= MAX_CITIES,
                mask < (1usize << n),
                pos < n,
                path@.len() >= 1,
                path@[0] == 0usize,
                path@[path@.len() - 1] == pos,
                chain0 == chain_memoized(self.memo@, d, n, 1usize, 0usize),
                stopped ==> !chain0,
                chain0 ==> (chain_memoized(self.memo@, d, n, mask, pos) && path@ + tour_suffix(
                    d,
                    n,
                    mask,
                    pos,
                ) == seq![0usize] + tour_suffix(d, n, 1usize, 0usize)),
            decreases unvisited_count(mask, n), (if stopped { 0int } else { 1int }),
        {
            proof {
                lemma_table_index_bounds(mask, pos, n);
                lemma_table_size_small(n);
            }
            let idx = mask * n + pos;
            let entry = self.parent[idx];
            if let Some(next) = entry {
                proof {
                    assert(self.entry_ok(mask, pos));
                    crate::cost::lemma_pick_valid(d, n, mask, pos);
                    lemma_unvisited_with_bit(mask, next, n);
                    lemma_with_bit_lt(mask, next, n);
                    if chain0 {
                        assert(tour_suffix(d, n, mask, pos) == seq![next] + tour_suffix(
                            d,
                            n,
                            with_bit(mask, next),
                            next,
                        ));
                        assert((path@ + seq![next]) + tour_suffix(d, n, with_bit(mask, next), next)
                            =~= path@ + tour_suffix(d, n, mask, pos));
                    }
                }
                path.push(next);
                mask = mask | (1usize << next);
                pos = next;
            } else {
                proof {
                    if chain0 {
                        assert(chain_memoized(self.memo@, d, n, mask, pos));
                        assert(self.memo@[table_index(mask, pos, n)].is_some());
                        assert(self.entry_ok(mask, pos));
                    }
                }
                stopped = true;
            }
        }
        proof {
            if chain0 {
                assert(mask == full_mask(n));
                assert(tour_suffix(d, n, mask, pos) == seq![0usize]);
                assert(path@.push(0usize) =~= path@ + seq![0usize]);
                assert((path@ + seq![0usize]) =~= seq![0usize] + tour_suffix(d, n, 1usize, 0usize));
            }
        }
        path.push(0);
        path
    }

    /// Run the complete solve: the Held–Karp recursion from the initial
    /// state, then the reconstruction of the recorded optimal tour.
    pub fn solve(&mut self) -> (result: TSPResult)
        requires
            old(self).wf(),
        ensures
            final(self).wf(),
            final(self).n == old(self).n,
            final(self).dist == old(self).dist,
            result.min_cost as int == complete_cost(old(self).m(), old(self).n, 1usize, 0usize),
            result.path@ == crate::cost::optimal_tour(old(self).m(), old(self).n),
            count_some(final(self).memo@) <= table_size(old(self).n),
            old(self).n >= 2 ==> count_some(final(self).memo@) >= 1,
            final(self).memo_entries == count_some(final(self).memo@),
    {
        let ghost d = self.m();
        let n = self.n;
        proof {
            assert(1usize < (1usize << n)) by (bit_vector)
                requires
                    1 <= n <= 20usize,
            ;
        }
        let min_cost = self.dp(1, 0);
        proof {
            lemma_count_le_len(self.memo@);
            if n >= 2 {
                assert(1usize != ((1usize << n) - 1) as usize) by (bit_vector)
                    requires
                        2 <= n <= 20usize,
                ;
                assert(self.memo@[table_index(1usize, 0usize, n)].is_some());
                lemma_table_index_bounds(1usize, 0usize, n);
                lemma_count_pos(self.memo@, table_index(1usize, 0usize, n));
            }
        }
        let path = self.reconstruct_path();
        TSPResult { min_cost, path }
    }

    /// Number of states the solver has evaluated and memoized.
    pub fn memo_len(&self) -> (len: usize)
        requires
            self.wf(),
        ensures
            len == count_some(self.memo@),
    {
        self.memo_entries
    }
}

} // verus!
