//! The mathematical model of the Held–Karp recursion.
//!
//! `complete_cost` is the minimum cost to visit every remaining city and
//! return to the origin.  `scan_best` and `scan_pick` mirror the solver's
//! left-to-right scan over candidate next cities: the minimum step cost seen
//! so far, and the city that first achieved it (ties go to the lowest index,
//! because only a strict improvement updates the pick).

use vstd::prelude::*;

use crate::masks::bit_set;
use crate::masks::full_mask;
use crate::masks::lemma_all_set_is_full;
use crate::masks::lemma_all_set_unvisited_zero;
use crate::masks::lemma_full_mask_bits;
use crate::masks::lemma_with_bit;
use crate::masks::lemma_nonfull_has_unvisited;
use crate::masks::lemma_unvisited_le;
use crate::masks::lemma_unvisited_with_bit;
use crate::masks::lemma_unvisited_zero_all_set;
use crate::masks::unvisited_count;
use crate::masks::with_bit;

verus! {

/// Largest number of cities the solver accepts; keeps the state tables and
/// every intermediate cost within machine bounds.
pub const MAX_CITIES: usize = 20;

/// Largest magnitude of a single travel cost; keeps every tour cost within
/// `i32` bounds, since a tour has at most `MAX_CITIES + 1` edges.
pub const MAX_EDGE_COST: i32 = 1000000;

/// Sentinel standing for "no candidate next city was available".
pub open spec fn no_candidate() -> int {
    i32::MAX as int
}

/// A well-formed input: a square matrix of bounded costs for `n` cities.
pub open spec fn matrix_ok(dist: Seq<Seq<i32>>, n: usize) -> bool {
    &&& 1 <= n <= MAX_CITIES
    &&& dist.len() == n
    &&& forall|i: int| 0 <= i < n ==> (#[trigger] dist[i]).len() == n
    &&& forall|i: int, j: int|
        0 <= i < n && 0 <= j < n ==> -MAX_EDGE_COST <= #[trigger] dist[i][j] <= MAX_EDGE_COST
}

/// Whether a state is inside the solver's state space.
pub open spec fn state_ok(dist: Seq<Seq<i32>>, n: usize, mask: usize, pos: usize) -> bool {
    &&& matrix_ok(dist, n)
    &&& pos < n
    &&& mask < (1usize << n)
}

/// Minimum cost to leave `pos`, visit every city not in `mask`, and return
/// to city 0; when every city is visited it is the cost of the closing edge.
pub open spec fn complete_cost(dist: Seq<Seq<i32>>, n: usize, mask: usize, pos: usize) -> int
    decreases unvisited_count(mask, n), n + 1int, 0int,
{
    if mask == full_mask(n) {
        dist[pos as int][0] as int
    } else {
        scan_best(dist, n, mask, pos, n)
    }
}

/// Cost of continuing the tour through the unvisited city `next`.
pub open spec fn step_cost(dist: Seq<Seq<i32>>, n: usize, mask: usize, pos: usize, next: usize) -> int
    decreases unvisited_count(mask, n), 0int, 0int,
    via step_cost_dec
{
    if next < n && n <= MAX_CITIES && !bit_set(mask, next) {
        dist[pos as int][next as int] as int + complete_cost(dist, n, with_bit(mask, next), next)
    } else {
        0
    }
}

#[via_fn]
proof fn step_cost_dec(dist: Seq<Seq<i32>>, n: usize, mask: usize, pos: usize, next: usize) {
    if next < n && n <= MAX_CITIES && !bit_set(mask, next) {
        lemma_unvisited_with_bit(mask, next, n);
    }
}

/// Minimum step cost among the unvisited cities below `k`, scanned in
/// ascending order; the sentinel when none is below `k`.
pub open spec fn scan_best(dist: Seq<Seq<i32>>, n: usize, mask: usize, pos: usize, k: usize) -> int
    decreases unvisited_count(mask, n), k, 1int,
{
    if k == 0 {
        no_candidate()
    } else {
        let j = (k - 1) as usize;
        let prev = scan_best(dist, n, mask, pos, j);
        if !bit_set(mask, j) && step_cost(dist, n, mask, pos, j) < prev {
            step_cost(dist, n, mask, pos, j)
        } else {
            prev
        }
    }
}

/// The city recorded by the same scan: it changes exactly when the step cost
/// strictly improves, so the first city achieving the minimum wins ties.
pub open spec fn scan_pick(dist: Seq<Seq<i32>>, n: usize, mask: usize, pos: usize, k: usize) -> usize
    decreases unvisited_count(mask, n), k, 2int,
{
    if k == 0 {
        0
    } else {
        let j = (k - 1) as usize;
        if !bit_set(mask, j) && step_cost(dist, n, mask, pos, j) < scan_best(dist, n, mask, pos, j) {
            j
        } else {
            scan_pick(dist, n, mask, pos, j)
        }
    }
}

/// The completion cost stays within `(unvisited + 1)` edges' worth of cost.
pub proof fn lemma_complete_cost_bound(dist: Seq<Seq<i32>>, n: usize, mask: usize, pos: usize)
    requires
        state_ok(dist, n, mask, pos),
    ensures
        -((unvisited_count(mask, n) + 1) * (MAX_EDGE_COST as int)) <= complete_cost(
            dist,
            n,
            mask,
            pos,
        ) <= (unvisited_count(mask, n) + 1) * (MAX_EDGE_COST as int),
    decreases unvisited_count(mask, n), n + 1int,
{
    let m = MAX_EDGE_COST as int;
    let u = unvisited_count(mask, n) as int;
    assert(m <= (u + 1) * m && -((u + 1) * m) <= -m) by (nonlinear_arith)
        requires
            0 <= u,
            0 < m,
    ;
    if mask == full_mask(n) {
    } else {
        lemma_nonfull_has_unvisited(mask, n);
        lemma_scan(dist, n, mask, pos, n);
        let c = scan_pick(dist, n, mask, pos, n);
        assert(step_cost(dist, n, mask, pos, c) == scan_best(dist, n, mask, pos, n));
        lemma_unvisited_with_bit(mask, c, n);
        crate::masks::lemma_with_bit_lt(mask, c, n);
        lemma_complete_cost_bound(dist, n, with_bit(mask, c), c);
        assert(complete_cost(dist, n, mask, pos) == dist[pos as int][c as int] as int
            + complete_cost(dist, n, with_bit(mask, c), c));
    }
}

/// What the scan up to `k` guarantees: the recorded minimum is a lower bound
/// on every candidate, and when a candidate exists the recorded pick is an
/// unvisited city achieving exactly that minimum.
pub proof fn lemma_scan(dist: Seq<Seq<i32>>, n: usize, mask: usize, pos: usize, k: usize)
    requires
        state_ok(dist, n, mask, pos),
        mask != full_mask(n),
        k <= n,
    ensures
        forall|j: usize|
            j < k && !bit_set(mask, j) ==> scan_best(dist, n, mask, pos, k) <= #[trigger] step_cost(
                dist,
                n,
                mask,
                pos,
                j,
            ),
        scan_best(dist, n, mask, pos, k) <= no_candidate(),
        (exists|j: usize| j < k && !(#[trigger] bit_set(mask, j))) ==> (scan_pick(
            dist,
            n,
            mask,
            pos,
            k,
        ) < k && !bit_set(mask, scan_pick(dist, n, mask, pos, k)) && step_cost(
            dist,
            n,
            mask,
            pos,
            scan_pick(dist, n, mask, pos, k),
        ) == scan_best(dist, n, mask, pos, k) && scan_best(dist, n, mask, pos, k) < no_candidate()),
        (forall|j: usize| j < k ==> #[trigger] bit_set(mask, j)) ==> (scan_best(dist, n, mask, pos, k)
            == no_candidate() && scan_pick(dist, n, mask, pos, k) == 0),
        forall|j: usize|
            j < scan_pick(dist, n, mask, pos, k) && !bit_set(mask, j) ==> #[trigger] step_cost(
                dist,
                n,
                mask,
                pos,
                j,
            ) > scan_best(dist, n, mask, pos, k),
    decreases unvisited_count(mask, n), k,
{
    let m = MAX_EDGE_COST as int;
    if k == 0 {
    } else {
        let j = (k - 1) as usize;
        lemma_scan(dist, n, mask, pos, j);
        if !bit_set(mask, j) {
            lemma_unvisited_with_bit(mask, j, n);
            crate::masks::lemma_with_bit_lt(mask, j, n);
            lemma_complete_cost_bound(dist, n, with_bit(mask, j), j);
            lemma_unvisited_le(mask, n);
            let u2 = unvisited_count(with_bit(mask, j), n) as int;
            assert((u2 + 1) * m <= (n as int) * m && -((n as int) * m) <= -((u2 + 1) * m))
                by (nonlinear_arith)
                requires
                    0 <= u2,
                    u2 + 1 <= n as int,
                    0 < m,
            ;
            assert(step_cost(dist, n, mask, pos, j) <= m + (n as int) * m);
            assert(m + (n as int) * m < no_candidate()) by (nonlinear_arith)
                requires
                    m == 1000000,
                    n <= 20,
            ;
        }
    }
}

/// The pick at a reachable, not-yet-complete state: a valid unvisited city
/// whose step cost is exactly the state's completion cost.
pub proof fn lemma_pick_valid(dist: Seq<Seq<i32>>, n: usize, mask: usize, pos: usize)
    requires
        state_ok(dist, n, mask, pos),
        mask != full_mask(n),
    ensures
        scan_pick(dist, n, mask, pos, n) < n,
        !bit_set(mask, scan_pick(dist, n, mask, pos, n)),
        step_cost(dist, n, mask, pos, scan_pick(dist, n, mask, pos, n)) == complete_cost(
            dist,
            n,
            mask,
            pos,
        ),
        complete_cost(dist, n, mask, pos) < no_candidate(),
        complete_cost(dist, n, mask, pos) == dist[pos as int][scan_pick(dist, n, mask, pos, n) as int]
            as int + complete_cost(
            dist,
            n,
            with_bit(mask, scan_pick(dist, n, mask, pos, n)),
            scan_pick(dist, n, mask, pos, n),
        ),
{
    lemma_nonfull_has_unvisited(mask, n);
    lemma_scan(dist, n, mask, pos, n);
}

/// The tie-break rule: among the unvisited cities whose step cost achieves
/// the minimum, the recorded pick is the one with the lowest index, because
/// the scan runs in ascending order and only a strict improvement replaces
/// the pick.
pub proof fn lemma_pick_breaks_ties_low(dist: Seq<Seq<i32>>, n: usize, mask: usize, pos: usize)
    requires
        state_ok(dist, n, mask, pos),
        mask != full_mask(n),
    ensures
        forall|j: usize|
            j < scan_pick(dist, n, mask, pos, n) && !bit_set(mask, j) ==> #[trigger] step_cost(
                dist,
                n,
                mask,
                pos,
                j,
            ) > complete_cost(dist, n, mask, pos),
{
    lemma_scan(dist, n, mask, pos, n);
}

/// The rest of the tour read off from the recorded optimal picks, ending
/// with the return to the origin.
pub open spec fn tour_suffix(dist: Seq<Seq<i32>>, n: usize, mask: usize, pos: usize) -> Seq<usize>
    decreases unvisited_count(mask, n),
    via tour_suffix_dec
{
    if !state_ok(dist, n, mask, pos) || mask == full_mask(n) {
        seq![0usize]
    } else {
        let c = scan_pick(dist, n, mask, pos, n);
        seq![c] + tour_suffix(dist, n, with_bit(mask, c), c)
    }
}

#[via_fn]
proof fn tour_suffix_dec(dist: Seq<Seq<i32>>, n: usize, mask: usize, pos: usize) {
    if state_ok(dist, n, mask, pos) && mask != full_mask(n) {
        let c = scan_pick(dist, n, mask, pos, n);
        lemma_pick_valid(dist, n, mask, pos);
        lemma_unvisited_with_bit(mask, c, n);
    }
}

/// The tour the solver reports: the origin, the recorded optimal picks in
/// order, and the closing return to the origin.
pub open spec fn optimal_tour(dist: Seq<Seq<i32>>, n: usize) -> Seq<usize> {
    seq![0usize] + tour_suffix(dist, n, 1usize, 0usize)
}

/// Sum of the edge costs along consecutive pairs of `p`.
pub open spec fn path_cost(dist: Seq<Seq<i32>>, p: Seq<usize>) -> int
    decreases p.len(),
{
    if p.len() <= 1 {
        0
    } else {
        dist[p[0] as int][p[1] as int] as int + path_cost(dist, p.drop_first())
    }
}

/// Cost of finishing the tour from `pos` by visiting the cities of `s` in
/// order and then returning to the origin.
pub open spec fn remaining_cost(dist: Seq<Seq<i32>>, pos: usize, s: Seq<usize>) -> int
    decreases s.len(),
{
    if s.len() == 0 {
        dist[pos as int][0] as int
    } else {
        dist[pos as int][s[0] as int] as int + remaining_cost(dist, s[0], s.drop_first())
    }
}

/// The recorded tour suffix visits exactly the unvisited cities, each once,
/// and ends with the origin.
pub proof fn lemma_tour_suffix_props(dist: Seq<Seq<i32>>, n: usize, mask: usize, pos: usize)
    requires
        state_ok(dist, n, mask, pos),
    ensures
        tour_suffix(dist, n, mask, pos).len() == unvisited_count(mask, n) + 1,
        tour_suffix(dist, n, mask, pos).last() == 0usize,
        forall|i: int|
            0 <= i < unvisited_count(mask, n) ==> (#[trigger] tour_suffix(dist, n, mask, pos)[i] < n
                && !bit_set(mask, tour_suffix(dist, n, mask, pos)[i])),
        forall|i: int, j: int|
            0 <= i < j < unvisited_count(mask, n) ==> tour_suffix(dist, n, mask, pos)[i]
                != tour_suffix(dist, n, mask, pos)[j],
    decreases unvisited_count(mask, n),
{
    let s = tour_suffix(dist, n, mask, pos);
    if mask == full_mask(n) {
        assert forall|j: usize| j < n implies #[trigger] bit_set(mask, j) by {
            lemma_full_mask_bits(n, j);
        }
        lemma_all_set_unvisited_zero(mask, n);
    } else {
        let c = scan_pick(dist, n, mask, pos, n);
        lemma_pick_valid(dist, n, mask, pos);
        lemma_unvisited_with_bit(mask, c, n);
        crate::masks::lemma_with_bit_lt(mask, c, n);
        let m2 = with_bit(mask, c);
        lemma_tour_suffix_props(dist, n, m2, c);
        let s2 = tour_suffix(dist, n, m2, c);
        assert(s == seq![c] + s2);
        assert forall|i: int|
            0 <= i < unvisited_count(mask, n) implies (#[trigger] s[i] < n && !bit_set(
            mask,
            s[i],
        )) by {
            if i > 0 {
                assert(s[i] == s2[i - 1]);
                assert(!bit_set(m2, s2[i - 1]));
                lemma_with_bit(mask, c, s2[i - 1]);
            }
        }
        assert forall|i: int, j: int|
            0 <= i < j < unvisited_count(mask, n) implies s[i] != s[j] by {
            if i > 0 {
                assert(s[i] == s2[i - 1] && s[j] == s2[j - 1]);
            } else {
                assert(s[0] == c && s[j] == s2[j - 1]);
                assert(!bit_set(m2, s2[j - 1]));
                lemma_with_bit(mask, c, s2[j - 1]);
            }
        }
    }
}

/// The completion cost is exactly the summed cost of the recorded tour.
pub proof fn lemma_complete_eq_path(dist: Seq<Seq<i32>>, n: usize, mask: usize, pos: usize)
    requires
        state_ok(dist, n, mask, pos),
    ensures
        complete_cost(dist, n, mask, pos) == path_cost(
            dist,
            seq![pos] + tour_suffix(dist, n, mask, pos),
        ),
    decreases unvisited_count(mask, n),
{
    let s = tour_suffix(dist, n, mask, pos);
    let p = seq![pos] + s;
    if mask == full_mask(n) {
        assert(p =~= seq![pos, 0usize]);
        assert(p.drop_first() =~= seq![0usize]);
        assert(path_cost(dist, seq![0usize]) == 0);
    } else {
        let c = scan_pick(dist, n, mask, pos, n);
        lemma_pick_valid(dist, n, mask, pos);
        lemma_unvisited_with_bit(mask, c, n);
        crate::masks::lemma_with_bit_lt(mask, c, n);
        let m2 = with_bit(mask, c);
        lemma_complete_eq_path(dist, n, m2, c);
        let s2 = tour_suffix(dist, n, m2, c);
        assert(s == seq![c] + s2);
        assert(p.drop_first() =~= seq![c] + s2);
        assert(p[0] == pos && p[1] == c);
        lemma_tour_suffix_props(dist, n, m2, c);
    }
}

/// No order of visiting the remaining cities beats the completion cost.
pub proof fn lemma_complete_is_minimal(
    dist: Seq<Seq<i32>>,
    n: usize,
    mask: usize,
    pos: usize,
    s: Seq<usize>,
)
    requires
        state_ok(dist, n, mask, pos),
        s.len() == unvisited_count(mask, n),
        forall|i: int| 0 <= i < s.len() ==> (#[trigger] s[i] < n && !bit_set(mask, s[i])),
        forall|i: int, j: int| 0 <= i < j < s.len() ==> s[i] != s[j],
    ensures
        complete_cost(dist, n, mask, pos) <= remaining_cost(dist, pos, s),
    decreases s.len(),
{
    if s.len() == 0 {
        lemma_unvisited_zero_all_set(mask, n);
        lemma_all_set_is_full(mask, n);
    } else {
        let c0 = s[0];
        lemma_unvisited_pos_not_full(dist, n, mask, pos, c0);
        lemma_scan(dist, n, mask, pos, n);
        lemma_unvisited_with_bit(mask, c0, n);
        crate::masks::lemma_with_bit_lt(mask, c0, n);
        let m2 = with_bit(mask, c0);
        let s2 = s.drop_first();
        assert forall|i: int|
            0 <= i < s2.len() implies (#[trigger] s2[i] < n && !bit_set(m2, s2[i])) by {
            assert(s2[i] == s[i + 1]);
            assert(s[i + 1] != c0);
            lemma_with_bit(mask, c0, s[i + 1]);
        }
        assert forall|i: int, j: int| 0 <= i < j < s2.len() implies s2[i] != s2[j] by {
            assert(s2[i] == s[i + 1] && s2[j] == s[j + 1]);
        }
        lemma_complete_is_minimal(dist, n, m2, c0, s2);
        assert(complete_cost(dist, n, mask, pos) <= step_cost(dist, n, mask, pos, c0));
        assert(step_cost(dist, n, mask, pos, c0) == dist[pos as int][c0 as int] as int
            + complete_cost(dist, n, m2, c0));
    }
}

/// A state with an unvisited city is not the full mask.
proof fn lemma_unvisited_pos_not_full(dist: Seq<Seq<i32>>, n: usize, mask: usize, pos: usize, c: usize)
    requires
        state_ok(dist, n, mask, pos),
        c < n,
        !bit_set(mask, c),
    ensures
        mask != full_mask(n),
{
    if mask == full_mask(n) {
        lemma_full_mask_bits(n, c);
    }
}

/// Finishing from `pos` through the cities of `s` costs exactly the summed
/// edge costs of the corresponding closed walk.
pub proof fn lemma_remaining_eq_path(dist: Seq<Seq<i32>>, pos: usize, s: Seq<usize>)
    ensures
        remaining_cost(dist, pos, s) == path_cost(dist, seq![pos] + s + seq![0usize]),
    decreases s.len(),
{
    let p = seq![pos] + s + seq![0usize];
    assert(p.len() == s.len() + 2);
    assert(p[0] == pos);
    if s.len() == 0 {
        assert(p =~= seq![pos, 0usize]);
        assert(p.drop_first() =~= seq![0usize]);
        assert(path_cost(dist, seq![0usize]) == 0);
    } else {
        lemma_remaining_eq_path(dist, s[0], s.drop_first());
        assert(p.drop_first() =~= seq![s[0]] + s.drop_first() + seq![0usize]);
        assert(p[0] == pos && p[1] == s[0]);
    }
}

} // verus!
