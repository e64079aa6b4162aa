//! Mathematical model of the automaton: torus geometry, the evolution rule,
//! and the lemmas about them that the executable engine relies on.

use vstd::prelude::*;

verus! {

/// A grid side length the engine accepts: positive, and small enough that
/// every cell index `row * size + col` fits in a `u32`.
pub open spec fn valid_size(size: int) -> bool {
    1 <= size && size * size <= u32::MAX as int
}

/// Decrement a row or column coordinate, wrapping from 0 to `size - 1`.
pub open spec fn wrap_dec(size: int, x: int) -> int {
    if x == 0 {
        size - 1
    } else {
        x - 1
    }
}

/// Increment a row or column coordinate, wrapping from `size - 1` to 0.
pub open spec fn wrap_inc(size: int, x: int) -> int {
    if x == size - 1 {
        0
    } else {
        x + 1
    }
}

pub open spec fn row_of(size: int, i: int) -> int {
    i / size
}

pub open spec fn col_of(size: int, i: int) -> int {
    i % size
}

/// Flat index of the cell at row `r`, column `c`.
pub open spec fn index_at(size: int, r: int, c: int) -> int {
    r * size + c
}

/// The `k`-th of the 8 toroidal neighbors of cell `i`, in row-major order:
/// NW, N, NE, W, E, SW, S, SE.
pub open spec fn nbr(size: int, i: int, k: int) -> int {
    let r0 = row_of(size, i);
    let c0 = col_of(size, i);
    let rp = wrap_dec(size, r0);
    let rn = wrap_inc(size, r0);
    let cp = wrap_dec(size, c0);
    let cn = wrap_inc(size, c0);
    if k == 0 {
        index_at(size, rp, cp)
    } else if k == 1 {
        index_at(size, rp, c0)
    } else if k == 2 {
        index_at(size, rp, cn)
    } else if k == 3 {
        index_at(size, r0, cp)
    } else if k == 4 {
        index_at(size, r0, cn)
    } else if k == 5 {
        index_at(size, rn, cp)
    } else if k == 6 {
        index_at(size, rn, c0)
    } else {
        index_at(size, rn, cn)
    }
}

pub open spec fn bool_to_count(b: bool) -> int {
    if b {
        1
    } else {
        0
    }
}

/// Number of alive cells among the 8 neighbors of cell `i`.
pub open spec fn neighbor_count(g: Seq<bool>, size: int, i: int) -> int {
    bool_to_count(g[nbr(size, i, 0)]) + bool_to_count(g[nbr(size, i, 1)]) + bool_to_count(
        g[nbr(size, i, 2)],
    ) + bool_to_count(g[nbr(size, i, 3)]) + bool_to_count(g[nbr(size, i, 4)]) + bool_to_count(
        g[nbr(size, i, 5)],
    ) + bool_to_count(g[nbr(size, i, 6)]) + bool_to_count(g[nbr(size, i, 7)])
}

/// The standard rule: 3 alive neighbors make the cell alive, 2 keep its
/// state, anything else kills it.
pub open spec fn next_cell(g: Seq<bool>, size: int, i: int) -> bool {
    let cnt = neighbor_count(g, size, i);
    if cnt == 3 {
        true
    } else if cnt == 2 {
        g[i]
    } else {
        false
    }
}

/// One synchronous step of the whole grid: every cell evaluated against the
/// same snapshot `g`.
pub open spec fn step_spec(g: Seq<bool>, size: int) -> Seq<bool> {
    Seq::new(g.len(), |i: int| next_cell(g, size, i))
}

/// `count` synchronous steps.
pub open spec fn step_n(g: Seq<bool>, size: int, count: nat) -> Seq<bool>
    decreases count,
{
    if count == 0 {
        g
    } else {
        step_spec(step_n(g, size, (count - 1) as nat), size)
    }
}

/// `x` occurs among the first `w` elements of `s`.
pub open spec fn in_prefix(s: Seq<u32>, w: int, x: u32) -> bool {
    exists|p: int| 0 <= p < w && s[p] == x
}

/// Taking one more element extends prefix membership by exactly that
/// element.
pub proof fn lemma_in_prefix_extend(s: Seq<u32>, w: int, x: u32)
    requires
        0 <= w < s.len(),
    ensures
        in_prefix(s, w + 1, x) <==> (in_prefix(s, w, x) || s[w] == x),
{
    if in_prefix(s, w + 1, x) {
        let p = choose|p: int| 0 <= p < w + 1 && s[p] == x;
        if p < w {
            assert(in_prefix(s, w, x));
        }
    }
    if in_prefix(s, w, x) {
        let p = choose|p: int| 0 <= p < w && s[p] == x;
        assert(0 <= p < w + 1 && s[p] == x);
        assert(in_prefix(s, w + 1, x));
    }
    if s[w] == x {
        assert(0 <= w < w + 1 && s[w] == x);
        assert(in_prefix(s, w + 1, x));
    }
}

/// Membership in the whole prefix is plain membership.
pub proof fn lemma_in_prefix_full(s: Seq<u32>, x: u32)
    ensures
        in_prefix(s, s.len() as int, x) <==> s.contains(x),
{
    if in_prefix(s, s.len() as int, x) {
        let p = choose|p: int| 0 <= p < s.len() && s[p] == x;
        assert(s[p] == x);
    }
    if s.contains(x) {
        let p = choose|p: int| 0 <= p < s.len() && s[p] == x;
        assert(in_prefix(s, s.len() as int, x));
    }
}

/// Ascending with no duplicates.
pub open spec fn strictly_increasing(s: Seq<u32>) -> bool {
    forall|a: int, b: int| 0 <= a < b < s.len() ==> s[a] < s[b]
}

/// Row and column of a valid index are themselves valid coordinates, and
/// recombine to the index.
pub proof fn lemma_div_mod_bounds(size: int, i: int)
    requires
        1 <= size,
        0 <= i < size * size,
    ensures
        0 <= row_of(size, i) < size,
        0 <= col_of(size, i) < size,
        index_at(size, row_of(size, i), col_of(size, i)) == i,
{
    assert(0 <= i / size < size && 0 <= i % size < size && (i / size) * size + i % size == i)
        by (nonlinear_arith)
        requires
            1 <= size,
            0 <= i < size * size,
    ;
}

/// `index_at` is the inverse of `(row_of, col_of)` on valid coordinates.
pub proof fn lemma_index_at_inverse(size: int, r: int, c: int)
    requires
        1 <= size,
        0 <= r < size,
        0 <= c < size,
    ensures
        0 <= index_at(size, r, c) < size * size,
        row_of(size, index_at(size, r, c)) == r,
        col_of(size, index_at(size, r, c)) == c,
{
    assert(0 <= r * size + c < size * size && (r * size + c) / size == r && (r * size + c) % size
        == c) by (nonlinear_arith)
        requires
            1 <= size,
            0 <= r < size,
            0 <= c < size,
    ;
}

/// The flat index of a valid coordinate pair is a valid index, whichever
/// way the product is written.
pub proof fn lemma_flat_bound(size: int, r: int, c: int)
    requires
        1 <= size,
        0 <= r < size,
        0 <= c < size,
    ensures
        0 <= size * r + c < size * size,
        size * r + c == index_at(size, r, c),
{
    assert(0 <= size * r + c < size * size && size * r + c == r * size + c) by (nonlinear_arith)
        requires
            1 <= size,
            0 <= r < size,
            0 <= c < size,
    ;
}

/// Every neighbor of a valid cell is a valid cell.
pub proof fn lemma_nbr_in_range(size: int, i: int, k: int)
    requires
        1 <= size,
        0 <= i < size * size,
        0 <= k < 8,
    ensures
        0 <= nbr(size, i, k) < size * size,
{
    lemma_div_mod_bounds(size, i);
    let r0 = row_of(size, i);
    let c0 = col_of(size, i);
    lemma_index_at_inverse(size, wrap_dec(size, r0), wrap_dec(size, c0));
    lemma_index_at_inverse(size, wrap_dec(size, r0), c0);
    lemma_index_at_inverse(size, wrap_dec(size, r0), wrap_inc(size, c0));
    lemma_index_at_inverse(size, r0, wrap_dec(size, c0));
    lemma_index_at_inverse(size, r0, wrap_inc(size, c0));
    lemma_index_at_inverse(size, wrap_inc(size, r0), wrap_dec(size, c0));
    lemma_index_at_inverse(size, wrap_inc(size, r0), c0);
    lemma_index_at_inverse(size, wrap_inc(size, r0), wrap_inc(size, c0));
}

/// The neighbor relation is involutive offset by offset: the `k`-th neighbor
/// of `i` has `i` as its `(7 - k)`-th neighbor (NW pairs with SE, N with S,
/// and so on).
pub proof fn lemma_nbr_symmetric(size: int, i: int, k: int)
    requires
        1 <= size,
        0 <= i < size * size,
        0 <= k < 8,
    ensures
        0 <= nbr(size, i, k) < size * size,
        nbr(size, nbr(size, i, k), 7 - k) == i,
{
    lemma_nbr_in_range(size, i, k);
    lemma_div_mod_bounds(size, i);
    let r0 = row_of(size, i);
    let c0 = col_of(size, i);
    let rp = wrap_dec(size, r0);
    let rn = wrap_inc(size, r0);
    let cp = wrap_dec(size, c0);
    let cn = wrap_inc(size, c0);
    assert(wrap_inc(size, rp) == r0);
    assert(wrap_dec(size, rn) == r0);
    assert(wrap_inc(size, cp) == c0);
    assert(wrap_dec(size, cn) == c0);
    let j = nbr(size, i, k);
    if k == 0 {
        lemma_index_at_inverse(size, rp, cp);
        assert(nbr(size, j, 7) == index_at(size, wrap_inc(size, rp), wrap_inc(size, cp)));
    } else if k == 1 {
        lemma_index_at_inverse(size, rp, c0);
        assert(nbr(size, j, 6) == index_at(size, wrap_inc(size, rp), c0));
    } else if k == 2 {
        lemma_index_at_inverse(size, rp, cn);
        assert(nbr(size, j, 5) == index_at(size, wrap_inc(size, rp), wrap_dec(size, cn)));
    } else if k == 3 {
        lemma_index_at_inverse(size, r0, cp);
        assert(nbr(size, j, 4) == index_at(size, r0, wrap_inc(size, cp)));
    } else if k == 4 {
        lemma_index_at_inverse(size, r0, cn);
        assert(nbr(size, j, 3) == index_at(size, r0, wrap_dec(size, cn)));
    } else if k == 5 {
        lemma_index_at_inverse(size, rn, cp);
        assert(nbr(size, j, 2) == index_at(size, wrap_dec(size, rn), wrap_inc(size, cp)));
    } else if k == 6 {
        lemma_index_at_inverse(size, rn, c0);
        assert(nbr(size, j, 1) == index_at(size, wrap_dec(size, rn), c0));
    } else {
        lemma_index_at_inverse(size, rn, cn);
        assert(nbr(size, j, 0) == index_at(size, wrap_dec(size, rn), wrap_dec(size, cn)));
    }
    assert(index_at(size, r0, c0) == i);
}

/// A cell's next state depends only on its own flag and its 8 neighbors'
/// flags.
pub proof fn lemma_next_cell_local(g1: Seq<bool>, g2: Seq<bool>, size: int, i: int)
    requires
        g1[i] == g2[i],
        forall|k: int| 0 <= k < 8 ==> g1[#[trigger] nbr(size, i, k)] == g2[nbr(size, i, k)],
    ensures
        next_cell(g1, size, i) == next_cell(g2, size, i),
{
    assert(g1[nbr(size, i, 0)] == g2[nbr(size, i, 0)]);
    assert(g1[nbr(size, i, 1)] == g2[nbr(size, i, 1)]);
    assert(g1[nbr(size, i, 2)] == g2[nbr(size, i, 2)]);
    assert(g1[nbr(size, i, 3)] == g2[nbr(size, i, 3)]);
    assert(g1[nbr(size, i, 4)] == g2[nbr(size, i, 4)]);
    assert(g1[nbr(size, i, 5)] == g2[nbr(size, i, 5)]);
    assert(g1[nbr(size, i, 6)] == g2[nbr(size, i, 6)]);
    assert(g1[nbr(size, i, 7)] == g2[nbr(size, i, 7)]);
}

/// Frontier completeness is preserved across a step: if `f` contains every
/// cell that changed in the step from `g`, together with all 8 neighbors of
/// each such cell, then every cell that can change on the *following* step
/// is already in `f`.
pub proof fn lemma_frontier_preserved(g: Seq<bool>, size: int, f: Seq<u32>)
    requires
        valid_size(size),
        g.len() == size * size,
        forall|j: int|
            0 <= j < size * size && #[trigger] step_spec(g, size)[j] != g[j] ==> f.contains(
                j as u32,
            ) && (forall|k: int| 0 <= k < 8 ==> f.contains(#[trigger] nbr(size, j, k) as u32)),
    ensures
        forall|i: int|
            0 <= i < size * size && #[trigger] next_cell(step_spec(g, size), size, i) != step_spec(
                g,
                size,
            )[i] ==> f.contains(i as u32),
{
    let g2 = step_spec(g, size);
    assert forall|i: int|
        0 <= i < size * size && #[trigger] next_cell(g2, size, i) != g2[i] implies f.contains(
        i as u32,
    ) by {
        if !f.contains(i as u32) {
            // `i` itself did not change in the step from `g`.
            assert(g2[i] == g[i]);
            if exists|k: int| 0 <= k < 8 && g2[#[trigger] nbr(size, i, k)] != g[nbr(size, i, k)] {
                // Some neighbor of `i` changed; by symmetry `i` is a neighbor
                // of that changed cell, so it would be in `f`.
                let k = choose|k: int|
                    0 <= k < 8 && g2[#[trigger] nbr(size, i, k)] != g[nbr(size, i, k)];
                let j = nbr(size, i, k);
                lemma_nbr_symmetric(size, i, k);
                assert(g2[j] != g[j]);
                assert(f.contains(nbr(size, j, 7 - k) as u32));
                assert(false);
            } else {
                // Neither `i` nor any neighbor changed, so its next state is
                // the same as it was from `g` -- and `i` did not change.
                assert forall|k: int| 0 <= k < 8 implies g2[#[trigger] nbr(size, i, k)] == g[nbr(
                    size,
                    i,
                    k,
                )] by {}
                lemma_next_cell_local(g2, g, size, i);
                assert(next_cell(g2, size, i) == next_cell(g, size, i));
                assert(next_cell(g, size, i) == g2[i]);
                assert(false);
            }
        }
    }
}

/// A fully dead grid is a fixed point of the rule.
pub proof fn lemma_dead_grid_fixed(g: Seq<bool>, size: int)
    requires
        valid_size(size),
        g.len() == size * size,
        forall|i: int| 0 <= i < g.len() ==> !g[i],
    ensures
        step_spec(g, size) == g,
{
    assert forall|i: int| 0 <= i < g.len() implies step_spec(g, size)[i] == g[i] by {
        lemma_nbr_in_range(size, i, 0);
        lemma_nbr_in_range(size, i, 1);
        lemma_nbr_in_range(size, i, 2);
        lemma_nbr_in_range(size, i, 3);
        lemma_nbr_in_range(size, i, 4);
        lemma_nbr_in_range(size, i, 5);
        lemma_nbr_in_range(size, i, 6);
        lemma_nbr_in_range(size, i, 7);
        assert(neighbor_count(g, size, i) == 0);
    }
    assert(step_spec(g, size) =~= g);
}

/// A fully dead grid stays fully dead for any number of steps.
pub proof fn lemma_dead_grid_stable(g: Seq<bool>, size: int, count: nat)
    requires
        valid_size(size),
        g.len() == size * size,
        forall|i: int| 0 <= i < g.len() ==> !g[i],
    ensures
        step_n(g, size, count) == g,
    decreases count,
{
    if count > 0 {
        lemma_dead_grid_stable(g, size, (count - 1) as nat);
        lemma_dead_grid_fixed(g, size);
    }
}

} // verus!
