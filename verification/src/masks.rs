//! Visited sets as bitmasks.
//!
//! A set of visited cities is an integer whose bit `i` says whether city `i`
//! has been visited.  This module defines the spec-level reading of such
//! masks and the lemmas about them that the solver's proofs rely on.

use vstd::prelude::*;

verus! {

/// City `i` is in the visited set encoded by `mask`.
pub open spec fn bit_set(mask: usize, i: usize) -> bool {
    mask & (1usize << i) != 0
}

/// The visited set `mask` with city `i` added.
pub open spec fn with_bit(mask: usize, i: usize) -> usize {
    mask | (1usize << i)
}

/// The mask in which every one of the `n` cities is visited.
pub open spec fn full_mask(n: usize) -> usize {
    ((1usize << n) - 1) as usize
}

/// How many of the cities `0 .. n` are not yet visited in `mask`.
pub open spec fn unvisited_count(mask: usize, n: usize) -> nat
    decreases n,
{
    if n == 0 {
        0
    } else {
        unvisited_count(mask, (n - 1) as usize) + if bit_set(mask, (n - 1) as usize) {
            0nat
        } else {
            1nat
        }
    }
}

/// Position of state `(mask, pos)` in a flat table of `n * 2^n` entries.
pub open spec fn table_index(mask: usize, pos: usize, n: usize) -> int {
    mask * n + pos
}

/// Adding city `i` sets exactly bit `i` and leaves every other bit alone.
pub proof fn lemma_with_bit(mask: usize, i: usize, j: usize)
    requires
        i < 32,
        j < 32,
    ensures
        bit_set(with_bit(mask, i), j) <==> (bit_set(mask, j) || i == j),
{
    assert(((mask | (1usize << i)) & (1usize << j) != 0) <==> ((mask & (1usize << j) != 0)
        || i == j)) by (bit_vector)
        requires
            i < 32usize,
            j < 32usize,
    ;
}

/// Adding a city below `n` keeps the mask below `2^n`.
pub proof fn lemma_with_bit_lt(mask: usize, i: usize, n: usize)
    requires
        i < n,
        n <= 30,
        mask < (1usize << n),
    ensures
        with_bit(mask, i) < (1usize << n),
{
    assert((mask | (1usize << i)) < (1usize << n)) by (bit_vector)
        requires
            i < n,
            n <= 30usize,
            mask < (1usize << n),
    ;
}

/// Masks that agree on every bit below `n` leave the same cities unvisited.
pub proof fn lemma_unvisited_congruence(a: usize, b: usize, n: usize)
    requires
        forall|j: usize| j < n ==> (#[trigger] bit_set(a, j) <==> bit_set(b, j)),
    ensures
        unvisited_count(a, n) == unvisited_count(b, n),
    decreases n,
{
    if n > 0 {
        lemma_unvisited_congruence(a, b, (n - 1) as usize);
    }
}

/// Visiting one more city decreases the number of unvisited cities by one.
pub proof fn lemma_unvisited_with_bit(mask: usize, i: usize, n: usize)
    requires
        i < n,
        n <= 30,
        !bit_set(mask, i),
    ensures
        unvisited_count(with_bit(mask, i), n) == unvisited_count(mask, n) - 1,
    decreases n,
{
    let m2 = with_bit(mask, i);
    let k = (n - 1) as usize;
    if i == k {
        assert forall|j: usize| j < k implies (#[trigger] bit_set(mask, j) <==> bit_set(m2, j)) by {
            lemma_with_bit(mask, i, j);
        }
        lemma_unvisited_congruence(mask, m2, k);
        lemma_with_bit(mask, i, k);
    } else {
        lemma_unvisited_with_bit(mask, i, k);
        lemma_with_bit(mask, i, k);
    }
}

/// At most `n` cities are unvisited.
pub proof fn lemma_unvisited_le(mask: usize, n: usize)
    ensures
        unvisited_count(mask, n) <= n,
    decreases n,
{
    if n > 0 {
        lemma_unvisited_le(mask, (n - 1) as usize);
    }
}

/// With only the origin visited, `n - 1` cities remain.
pub proof fn lemma_unvisited_origin(n: usize)
    requires
        1 <= n <= 30,
    ensures
        unvisited_count(1usize, n) == n - 1,
    decreases n,
{
    let k = (n - 1) as usize;
    if n == 1 {
        assert(1usize & (1usize << 0usize) != 0) by (bit_vector);
        assert(bit_set(1usize, 0usize));
        assert(unvisited_count(1usize, 0usize) == 0);
        assert(unvisited_count(1usize, 1usize) == 0);
    } else {
        lemma_unvisited_origin(k);
        assert(1usize & (1usize << k) == 0) by (bit_vector)
            requires
                1 <= k < 32usize,
        ;
        assert(!bit_set(1usize, k));
        assert(unvisited_count(1usize, n) == unvisited_count(1usize, k) + 1);
    }
}

/// Every city below `n` is visited in the full mask.
pub proof fn lemma_full_mask_bits(n: usize, j: usize)
    requires
        n <= 30,
        j < n,
    ensures
        bit_set(full_mask(n), j),
{
    assert((((1usize << n) - 1) as usize) & (1usize << j) != 0) by (bit_vector)
        requires
            j < n,
            n <= 30usize,
    ;
}

/// When every city is visited, no city is unvisited.
pub proof fn lemma_all_set_unvisited_zero(mask: usize, n: usize)
    requires
        forall|j: usize| j < n ==> #[trigger] bit_set(mask, j),
    ensures
        unvisited_count(mask, n) == 0,
    decreases n,
{
    if n > 0 {
        lemma_all_set_unvisited_zero(mask, (n - 1) as usize);
    }
}

/// When no city is unvisited, every city below `n` is visited.
pub proof fn lemma_unvisited_zero_all_set(mask: usize, n: usize)
    requires
        unvisited_count(mask, n) == 0,
    ensures
        forall|j: usize| j < n ==> #[trigger] bit_set(mask, j),
    decreases n,
{
    if n > 0 {
        lemma_unvisited_zero_all_set(mask, (n - 1) as usize);
    }
}

/// A mask below `2^n` with every city below `n` visited is the full mask.
pub proof fn lemma_all_set_is_full(mask: usize, n: usize)
    requires
        n <= 30,
        mask < (1usize << n),
        forall|j: usize| j < n ==> #[trigger] bit_set(mask, j),
    ensures
        mask == full_mask(n),
    decreases n,
{
    if n == 0 {
        assert(mask == ((1usize << 0usize) - 1) as usize) by (bit_vector)
            requires
                mask < (1usize << 0usize),
        ;
    } else {
        let k = (n - 1) as usize;
        let low = (mask & ((1usize << k) - 1) as usize) as usize;
        assert(low < (1usize << k)) by (bit_vector)
            requires
                low == (mask & ((1usize << k) - 1) as usize) as usize,
                k < 31usize,
        ;
        assert forall|j: usize| j < k implies #[trigger] bit_set(low, j) by {
            assert(bit_set(mask, j));
            assert((mask & ((1usize << k) - 1) as usize) as usize & (1usize << j) != 0)
                by (bit_vector)
                requires
                    mask & (1usize << j) != 0,
                    j < k,
                    k < 31usize,
            ;
        }
        lemma_all_set_is_full(low, k);
        assert(bit_set(mask, k));
        assert(mask == ((1usize << n) - 1) as usize) by (bit_vector)
            requires
                n <= 30usize,
                k == (n - 1) as usize,
                mask < (1usize << n),
                mask & (1usize << k) != 0,
                (mask & ((1usize << k) - 1) as usize) as usize == ((1usize << k) - 1) as usize,
        ;
    }
}

/// A mask below `2^n` that is not full leaves some city unvisited.
pub proof fn lemma_nonfull_has_unvisited(mask: usize, n: usize)
    requires
        n <= 30,
        mask < (1usize << n),
        mask != full_mask(n),
    ensures
        exists|j: usize| j < n && !bit_set(mask, j),
{
    if forall|j: usize| j < n ==> #[trigger] bit_set(mask, j) {
        lemma_all_set_is_full(mask, n);
    }
}

/// Table indices lie inside a table of `n * 2^n` entries.
pub proof fn lemma_table_index_bounds(mask: usize, pos: usize, n: usize)
    requires
        pos < n,
        mask < (1usize << n),
    ensures
        0 <= table_index(mask, pos, n) < n * (1usize << n),
{
    let p = (1usize << n) as int;
    assert(mask * n + pos < n * p && 0 <= mask * n + pos) by (nonlinear_arith)
        requires
            0 <= mask,
            mask < p,
            0 <= pos < n,
    ;
}

/// Distinct states occupy distinct table entries.
pub proof fn lemma_table_index_injective(m1: usize, p1: usize, m2: usize, p2: usize, n: usize)
    requires
        p1 < n,
        p2 < n,
        table_index(m1, p1, n) == table_index(m2, p2, n),
    ensures
        m1 == m2 && p1 == p2,
{
    assert(m1 == m2 && p1 == p2) by (nonlinear_arith)
        requires
            0 <= p1 < n,
            0 <= p2 < n,
            0 <= m1,
            0 <= m2,
            m1 * n + p1 == m2 * n + p2,
    ;
}

} // verus!
