//! Grid state: the flat alive/dead flag array, toroidal neighbor lookups,
//! and the full-scan reference step used as a correctness baseline.

use vstd::prelude::*;

use crate::model::{
    bool_to_count, index_at, lemma_div_mod_bounds, lemma_flat_bound, nbr, next_cell, step_spec,
    strictly_increasing, valid_size, wrap_dec, wrap_inc,
};

verus! {

/// Alive flags summed over a sequence of cell indices, last index first.
pub open spec fn count_alive(g: Seq<bool>, idxs: Seq<u32>) -> int
    decreases idxs.len(),
{
    if idxs.len() == 0 {
        0
    } else {
        count_alive(g, idxs.drop_last()) + bool_to_count(g[idxs.last() as int])
    }
}

/// The square grid of alive/dead flags, stored flat: cell `(row, col)` is
/// `cells[row * size + col]`, `1` for alive and `0` for dead.
pub struct Grid {
    pub size: u32,
    pub cells: Vec<u8>,
}

impl Grid {
    /// The grid as a sequence of booleans, `true` for alive.
    pub open spec fn seq(self) -> Seq<bool> {
        self.cells@.map_values(|b: u8| b == 1)
    }

    pub open spec fn area(self) -> int {
        self.size * self.size
    }

    pub open spec fn wf(self) -> bool {
        &&& valid_size(self.size as int)
        &&& self.cells@.len() == self.area()
        &&& forall|i: int| 0 <= i < self.cells@.len() ==> self.cells@[i] == 0 || self.cells@[i] == 1
    }

    /// Allocate a `size x size` grid, all dead, then set each index in
    /// `starting` alive. Rejects a zero size and any out-of-range index.
    pub fn new(size: u32, starting: &Vec<u32>) -> (r: Result<Grid, crate::engine::EngineError>)
        requires
            size * size <= u32::MAX,
        ensures
            r is Ok <==> (size >= 1 && forall|m: int|
                0 <= m < starting@.len() ==> starting@[m] < size * size),
            r matches Ok(g) ==> {
                &&& g.wf()
                &&& g.size == size
                &&& forall|i: int|
                    0 <= i < g.area() ==> (g.seq()[i] <==> starting@.contains(i as u32))
            },
    {
        if size == 0 {
            return Err(crate::engine::EngineError::InvalidConfiguration);
        }
        let n = size * size;
        let mut m: usize = 0;
        // Validate every starting index before allocating anything.
        while m < starting.len()
            invariant
                n == size * size,
                size >= 1,
                m <= starting@.len(),
                forall|p: int| 0 <= p < m ==> starting@[p] < n,
            decreases starting.len() - m,
        {
            if starting[m] >= n {
                proof {
                    assert(!(starting@[m as int] < size * size));
                }
                return Err(crate::engine::EngineError::InvalidConfiguration);
            }
            m += 1;
        }
        let mut cells: Vec<u8> = Vec::new();
        let mut i: u32 = 0;
        while i < n
            invariant
                cells@.len() == i,
                i <= n,
                forall|p: int| 0 <= p < i ==> cells@[p] == 0,
            decreases n - i,
        {
            cells.push(0);
            i += 1;
        }
        let mut g = Grid { size, cells };
        let mut m: usize = 0;
        while m < starting.len()
            invariant
                g.size == size,
                n == size * size,
                size >= 1,
                m <= starting@.len(),
                g.cells@.len() == n,
                forall|p: int| 0 <= p < starting@.len() ==> starting@[p] < n,
                forall|p: int|
                    0 <= p < g.cells@.len() ==> g.cells@[p] == 0 || g.cells@[p] == 1,
                forall|i: int|
                    0 <= i < g.cells@.len() ==> ((g.cells@[i] == 1) <==> in_seq_prefix(
                        starting@,
                        m as int,
                        i,
                    )),
            decreases starting.len() - m,
        {
            let idx = starting[m];
            g.cells[idx as usize] = 1;
            m += 1;
            proof {
                assert forall|i: int|
                    0 <= i < g.cells@.len() implies ((g.cells@[i] == 1) <==> in_seq_prefix(
                    starting@,
                    m as int,
                    i,
                )) by {
                    if i == idx as int {
                        assert(starting@[m - 1] == idx);
                    }
                }
            }
        }
        proof {
            assert forall|i: int|
                0 <= i < g.area() implies (g.seq()[i] <==> starting@.contains(i as u32)) by {
                assert(g.seq()[i] == (g.cells@[i] == 1));
                if in_seq_prefix(starting@, starting@.len() as int, i) {
                    let p = choose|p: int|
                        0 <= p < starting@.len() && starting@[p] == i as u32;
                    assert(starting@.contains(i as u32));
                }
                if starting@.contains(i as u32) {
                    let p = choose|p: int|
                        0 <= p < starting@.len() && starting@[p] == i as u32;
                    assert(in_seq_prefix(starting@, starting@.len() as int, i));
                }
            }
        }
        Ok(g)
    }

    /// Whether the cell at `index` is alive.
    pub fn alive(&self, index: u32) -> (r: bool)
        requires
            self.wf(),
            index < self.area(),
        ensures
            r == self.seq()[index as int],
    {
        self.cells[index as usize] == 1
    }

    /// Alive cells among the given indices; used with the 8 neighbors of a
    /// cell, so the count is at most 8.
    pub fn alive_count(&self, indices: &Vec<u32>) -> (r: u32)
        requires
            self.wf(),
            indices@.len() <= 8,
            forall|m: int| 0 <= m < indices@.len() ==> indices@[m] < self.area(),
        ensures
            r == count_alive(self.seq(), indices@),
    {
        let mut acc: u32 = 0;
        let mut m: usize = 0;
        while m < indices.len()
            invariant
                self.wf(),
                m <= indices@.len(),
                indices@.len() <= 8,
                forall|p: int| 0 <= p < indices@.len() ==> indices@[p] < self.area(),
                acc <= m,
                acc == count_alive(self.seq(), indices@.take(m as int)),
            decreases indices.len() - m,
        {
            proof {
                assert(indices@.take(m + 1).drop_last() =~= indices@.take(m as int));
                assert(indices@.take(m + 1).last() == indices@[m as int]);
            }
            if self.cells[indices[m] as usize] == 1 {
                acc += 1;
            }
            m += 1;
        }
        proof {
            assert(indices@.take(indices@.len() as int) =~= indices@);
        }
        acc
    }

    /// Write one flag; used only during the commit phase of a step.
    pub fn set(&mut self, index: u32, alive: bool)
        requires
            old(self).wf(),
            index < old(self).area(),
        ensures
            final(self).wf(),
            final(self).size == old(self).size,
            final(self).seq() == old(self).seq().update(index as int, alive),
    {
        self.cells[index as usize] = if alive {
            1
        } else {
            0
        };
        proof {
            assert(final(self).seq() =~= old(self).seq().update(index as int, alive));
        }
    }

    /// All alive indices, ascending.
    pub fn alive_list(&self) -> (r: Vec<u32>)
        requires
            self.wf(),
        ensures
            strictly_increasing(r@),
            forall|m: int| 0 <= m < r@.len() ==> r@[m] < self.area(),
            forall|i: int| 0 <= i < self.area() ==> (r@.contains(i as u32) <==> self.seq()[i]),
    {
        let n = self.size * self.size;
        let mut r: Vec<u32> = Vec::new();
        let mut i: u32 = 0;
        while i < n
            invariant
                self.wf(),
                n == self.area(),
                i <= n,
                strictly_increasing(r@),
                forall|m: int| 0 <= m < r@.len() ==> r@[m] < i,
                forall|j: int| 0 <= j < i ==> (r@.contains(j as u32) <==> self.seq()[j]),
            decreases n - i,
        {
            if self.cells[i as usize] == 1 {
                let ghost old_r = r@;
                r.push(i);
                proof {
                    assert forall|j: int| 0 <= j < i + 1 implies (r@.contains(j as u32)
                        <==> self.seq()[j]) by {
                        lemma_push_contains(old_r, i, j as u32);
                    }
                }
            } else {
                proof {
                    assert forall|j: int| 0 <= j < i + 1 implies (r@.contains(j as u32)
                        <==> self.seq()[j]) by {
                        if j == i as int && r@.contains(j as u32) {
                            let p = choose|p: int| 0 <= p < r@.len() && r@[p] == j as u32;
                            assert(r@[p] < i);
                        }
                    }
                }
            }
            i += 1;
        }
        r
    }
}

/// `x == s[p]` for some `p < w`, compared as cell indices.
pub open spec fn in_seq_prefix(s: Seq<u32>, w: int, x: int) -> bool {
    exists|p: int| 0 <= p < w && s[p] == x as u32
}

/// Pushing an element extends sequence membership by exactly that element.
pub proof fn lemma_push_contains(s: Seq<u32>, c: u32, x: u32)
    ensures
        s.push(c).contains(x) <==> (s.contains(x) || x == c),
{
    if s.contains(x) {
        let p = choose|p: int| 0 <= p < s.len() && s[p] == x;
        assert(s.push(c)[p] == x);
    }
    if x == c {
        assert(s.push(c)[s.len() as int] == x);
    }
    if s.push(c).contains(x) {
        let p = choose|p: int| 0 <= p < s.push(c).len() && s.push(c)[p] == x;
        if p < s.len() {
            assert(s[p] == x);
        }
    }
}

/// The 8 toroidal neighbors of `index`, in the fixed row-major order
/// NW, N, NE, W, E, SW, S, SE.
pub fn get_neighbors(size: u32, index: u32) -> (r: Vec<u32>)
    requires
        valid_size(size as int),
        index < size * size,
    ensures
        r@.len() == 8,
        forall|k: int| 0 <= k < 8 ==> r@[k] == nbr(size as int, index as int, k),
        forall|k: int| 0 <= k < 8 ==> r@[k] < size * size,
{
    proof {
        lemma_div_mod_bounds(size as int, index as int);
    }
    let max = size - 1;
    let row = index / size;
    let col = index % size;
    let row_prev = if row == 0 {
        max
    } else {
        row - 1
    };
    let row_next = if row == max {
        0
    } else {
        row + 1
    };
    let col_prev = if col == 0 {
        max
    } else {
        col - 1
    };
    let col_next = if col == max {
        0
    } else {
        col + 1
    };
    proof {
        assert(row_prev == wrap_dec(size as int, row as int));
        assert(row_next == wrap_inc(size as int, row as int));
        assert(col_prev == wrap_dec(size as int, col as int));
        assert(col_next == wrap_inc(size as int, col as int));
        lemma_flat_bound(size as int, row_prev as int, col_prev as int);
        lemma_flat_bound(size as int, row_prev as int, col as int);
        lemma_flat_bound(size as int, row_prev as int, col_next as int);
        lemma_flat_bound(size as int, row as int, col_prev as int);
        lemma_flat_bound(size as int, row as int, col_next as int);
        lemma_flat_bound(size as int, row_next as int, col_prev as int);
        lemma_flat_bound(size as int, row_next as int, col as int);
        lemma_flat_bound(size as int, row_next as int, col_next as int);
    }
    let mut arr: Vec<u32> = Vec::new();
    arr.push(size * row_prev + col_prev);
    arr.push(size * row_prev + col);
    arr.push(size * row_prev + col_next);
    arr.push(size * row + col_prev);
    arr.push(size * row + col_next);
    arr.push(size * row_next + col_prev);
    arr.push(size * row_next + col);
    arr.push(size * row_next + col_next);
    proof {
        assert(arr@[0] == nbr(size as int, index as int, 0));
        assert(arr@[1] == nbr(size as int, index as int, 1));
        assert(arr@[2] == nbr(size as int, index as int, 2));
        assert(arr@[3] == nbr(size as int, index as int, 3));
        assert(arr@[4] == nbr(size as int, index as int, 4));
        assert(arr@[5] == nbr(size as int, index as int, 5));
        assert(arr@[6] == nbr(size as int, index as int, 6));
        assert(arr@[7] == nbr(size as int, index as int, 7));
    }
    arr
}

/// One step of the full-scan reference implementation: every cell of the
/// grid re-evaluated against the snapshot `g`. Kept as the baseline the
/// incremental engine is measured against.
pub fn full_step(g: &Grid) -> (r: Grid)
    requires
        g.wf(),
    ensures
        r.wf(),
        r.size == g.size,
        r.seq() == step_spec(g.seq(), g.size as int),
{
    let n = g.size * g.size;
    let mut cells: Vec<u8> = Vec::new();
    let mut i: u32 = 0;
    while i < n
        invariant
            g.wf(),
            n == g.area(),
            i <= n,
            cells@.len() == i,
            forall|j: int| 0 <= j < i ==> (cells@[j] == 0 || cells@[j] == 1),
            forall|j: int|
                0 <= j < i ==> ((cells@[j] == 1) == next_cell(g.seq(), g.size as int, j)),
        decreases n - i,
    {
        let neighbors = get_neighbors(g.size, i);
        let cnt = g.alive_count(&neighbors);
        proof {
            lemma_count8(g.seq(), g.size as int, i as int, neighbors@);
        }
        let was_alive = g.alive(i);
        let is_alive = if cnt == 3 {
            true
        } else if cnt == 2 {
            was_alive
        } else {
            false
        };
        cells.push(if is_alive {
            1
        } else {
            0
        });
        i += 1;
    }
    let r = Grid { size: g.size, cells };
    proof {
        assert(r.seq() =~= step_spec(g.seq(), g.size as int));
    }
    r
}

/// Summing the alive flags over the 8 neighbor indices of `i` computes the
/// model's `neighbor_count`.
pub proof fn lemma_count8(g: Seq<bool>, size: int, i: int, idxs: Seq<u32>)
    requires
        idxs.len() == 8,
        forall|k: int| 0 <= k < 8 ==> idxs[k] == nbr(size, i, k),
    ensures
        count_alive(g, idxs) == crate::model::neighbor_count(g, size, i),
{
    let s7 = idxs.drop_last();
    let s6 = s7.drop_last();
    let s5 = s6.drop_last();
    let s4 = s5.drop_last();
    let s3 = s4.drop_last();
    let s2 = s3.drop_last();
    let s1 = s2.drop_last();
    let s0 = s1.drop_last();
    assert(s0.len() == 0);
    assert(count_alive(g, s0) == 0);
    assert(s1.last() == idxs[0]);
    assert(s2.last() == idxs[1]);
    assert(s3.last() == idxs[2]);
    assert(s4.last() == idxs[3]);
    assert(s5.last() == idxs[4]);
    assert(s6.last() == idxs[5]);
    assert(s7.last() == idxs[6]);
    assert(idxs.last() == idxs[7]);
    assert(count_alive(g, s1) == count_alive(g, s0) + bool_to_count(g[idxs[0] as int]));
    assert(count_alive(g, s2) == count_alive(g, s1) + bool_to_count(g[idxs[1] as int]));
    assert(count_alive(g, s3) == count_alive(g, s2) + bool_to_count(g[idxs[2] as int]));
    assert(count_alive(g, s4) == count_alive(g, s3) + bool_to_count(g[idxs[3] as int]));
    assert(count_alive(g, s5) == count_alive(g, s4) + bool_to_count(g[idxs[4] as int]));
    assert(count_alive(g, s6) == count_alive(g, s5) + bool_to_count(g[idxs[5] as int]));
    assert(count_alive(g, s7) == count_alive(g, s6) + bool_to_count(g[idxs[6] as int]));
    assert(count_alive(g, idxs) == count_alive(g, s7) + bool_to_count(g[idxs[7] as int]));
    assert(idxs[0] as int == nbr(size, i, 0));
    assert(idxs[1] as int == nbr(size, i, 1));
    assert(idxs[2] as int == nbr(size, i, 2));
    assert(idxs[3] as int == nbr(size, i, 3));
    assert(idxs[4] as int == nbr(size, i, 4));
    assert(idxs[5] as int == nbr(size, i, 5));
    assert(idxs[6] as int == nbr(size, i, 6));
    assert(idxs[7] as int == nbr(size, i, 7));
}

} // verus!
