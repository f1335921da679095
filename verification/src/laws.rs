//! The solver's guarantees, stated over the whole answer.
//!
//! These lemmas relate the reported minimum cost and the reported tour:
//! the tour is a closed walk through every city exactly once, its summed
//! edge cost is exactly the minimum cost, no other such tour costs less,
//! and the whole answer is a function of the matrix alone.

use vstd::prelude::*;

use crate::cost::complete_cost;
use crate::cost::lemma_complete_eq_path;
use crate::cost::lemma_complete_is_minimal;
use crate::cost::lemma_remaining_eq_path;
use crate::cost::lemma_tour_suffix_props;
use crate::cost::matrix_ok;
use crate::cost::optimal_tour;
use crate::cost::path_cost;
use crate::cost::tour_suffix;
use crate::masks::bit_set;
use crate::masks::lemma_unvisited_origin;
use crate::solver::TSPResult;

verus! {

/// The initial state — only the origin visited — is a valid state.
proof fn lemma_initial_state(n: usize)
    requires
        1 <= n <= 20,
    ensures
        1usize < (1usize << n),
        bit_set(1usize, 0usize),
{
    assert(1usize < (1usize << n)) by (bit_vector)
        requires
            1 <= n <= 20usize,
    ;
    assert(1usize & (1usize << 0usize) != 0) by (bit_vector);
}

/// The reported minimum cost is exactly the summed edge cost of the
/// reported tour.
pub proof fn lemma_min_cost_is_path_cost(dist: Seq<Seq<i32>>, n: usize)
    requires
        matrix_ok(dist, n),
    ensures
        complete_cost(dist, n, 1usize, 0usize) == path_cost(dist, optimal_tour(dist, n)),
{
    lemma_initial_state(n);
    lemma_complete_eq_path(dist, n, 1usize, 0usize);
}

/// The reported tour starts and ends at the origin, has `n + 1` entries,
/// and visits every city exactly once: its first `n` entries are distinct
/// cities below `n`.
pub proof fn lemma_tour_is_permutation(dist: Seq<Seq<i32>>, n: usize)
    requires
        matrix_ok(dist, n),
    ensures
        optimal_tour(dist, n).len() == n + 1,
        optimal_tour(dist, n)[0] == 0usize,
        optimal_tour(dist, n)[n as int] == 0usize,
        forall|i: int| 0 <= i <= n ==> #[trigger] optimal_tour(dist, n)[i] < n,
        forall|i: int, j: int|
            0 <= i < j < n ==> optimal_tour(dist, n)[i] != optimal_tour(dist, n)[j],
{
    lemma_initial_state(n);
    lemma_unvisited_origin(n);
    lemma_tour_suffix_props(dist, n, 1usize, 0usize);
    let s = tour_suffix(dist, n, 1usize, 0usize);
    let p = optimal_tour(dist, n);
    assert(p.len() == n + 1);
    assert(p[n as int] == s[n - 1]);
    assert forall|i: int| 0 <= i <= n implies #[trigger] p[i] < n by {
        if i > 0 {
            assert(p[i] == s[i - 1]);
        }
    }
    assert forall|i: int, j: int| 0 <= i < j < n implies p[i] != p[j] by {
        assert(p[j] == s[j - 1]);
        if i == 0 {
            assert(!bit_set(1usize, s[j - 1]));
        } else {
            assert(p[i] == s[i - 1]);
        }
    }
}

/// Optimality: no closed tour that starts and ends at the origin and visits
/// every city exactly once costs less than the reported minimum.
pub proof fn lemma_minimum_is_optimal(dist: Seq<Seq<i32>>, n: usize, q: Seq<usize>)
    requires
        matrix_ok(dist, n),
        q.len() == n + 1,
        q[0] == 0usize,
        q[n as int] == 0usize,
        forall|i: int| 0 <= i < n ==> #[trigger] q[i] < n,
        forall|i: int, j: int| 0 <= i < j < n ==> q[i] != q[j],
    ensures
        complete_cost(dist, n, 1usize, 0usize) <= path_cost(dist, q),
{
    lemma_initial_state(n);
    lemma_unvisited_origin(n);
    let s = q.subrange(1, n as int);
    assert forall|i: int| 0 <= i < s.len() implies (#[trigger] s[i] < n && !bit_set(
        1usize,
        s[i],
    )) by {
        assert(s[i] == q[i + 1]);
        assert(q[i + 1] != q[0]);
        let c = s[i];
        assert(1usize & (1usize << c) == 0) by (bit_vector)
            requires
                c != 0usize,
                c < 32usize,
        ;
    }
    assert forall|i: int, j: int| 0 <= i < j < s.len() implies s[i] != s[j] by {
        assert(s[i] == q[i + 1] && s[j] == q[j + 1]);
    }
    lemma_complete_is_minimal(dist, n, 1usize, 0usize, s);
    lemma_remaining_eq_path(dist, 0usize, s);
    assert(seq![0usize] + s + seq![0usize] =~= q);
}

/// Determinism: any two answers that meet the solver's contract for the
/// same matrix are identical, so solving the same matrix twice reports the
/// same cost and the same tour.
pub proof fn lemma_solve_deterministic(dist: Seq<Seq<i32>>, n: usize, r1: TSPResult, r2: TSPResult)
    requires
        r1.min_cost as int == complete_cost(dist, n, 1usize, 0usize),
        r1.path@ == optimal_tour(dist, n),
        r2.min_cost as int == complete_cost(dist, n, 1usize, 0usize),
        r2.path@ == optimal_tour(dist, n),
    ensures
        r1.min_cost == r2.min_cost,
        r1.path@ == r2.path@,
{
}

} // verus!
