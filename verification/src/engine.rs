//! The incremental engine: frontier-driven stepping with a two-phase
//! read-then-commit step.

use vstd::prelude::*;

use crate::frontier::Frontier;
use crate::grid::{get_neighbors, lemma_count8, lemma_push_contains, Grid};
use crate::model::{
    in_prefix, lemma_frontier_preserved, lemma_in_prefix_extend, lemma_in_prefix_full,
    lemma_nbr_in_range, lemma_nbr_symmetric, nbr, next_cell, step_n, step_spec,
    strictly_increasing,
};

verus! {

/// The one failure the engine can report: a bad construction argument
/// (zero grid size, or a starting index outside the grid).
#[derive(Clone, Copy, Debug, PartialEq, Eq, Structural)]
pub enum EngineError {
    InvalidConfiguration,
}

/// What one step reported: the cells that went dead-to-alive, the cells
/// that went alive-to-dead, and every cell alive once the step committed.
/// All three are ascending and duplicate-free.
pub struct StepResult {
    pub born: Vec<u32>,
    pub died: Vec<u32>,
    pub alive: Vec<u32>,
}

impl StepResult {
    /// The result is exactly the diff (and final alive set) of one
    /// synchronous step from grid snapshot `g`.
    pub open spec fn describes(self, g: Seq<bool>, size: int) -> bool {
        &&& strictly_increasing(self.born@)
        &&& strictly_increasing(self.died@)
        &&& strictly_increasing(self.alive@)
        &&& forall|m: int| 0 <= m < self.born@.len() ==> self.born@[m] < size * size
        &&& forall|m: int| 0 <= m < self.died@.len() ==> self.died@[m] < size * size
        &&& forall|m: int| 0 <= m < self.alive@.len() ==> self.alive@[m] < size * size
        &&& forall|i: int|
            0 <= i < size * size ==> (#[trigger] self.born@.contains(i as u32) <==> (!g[i]
                && step_spec(g, size)[i]))
        &&& forall|i: int|
            0 <= i < size * size ==> (#[trigger] self.died@.contains(i as u32) <==> (g[i]
                && !step_spec(g, size)[i]))
        &&& forall|i: int|
            0 <= i < size * size ==> (#[trigger] self.alive@.contains(i as u32) <==> step_spec(
                g,
                size,
            )[i])
    }

    /// The indices born this step, ascending.
    pub fn born(&self) -> (r: &Vec<u32>)
        ensures
            r@ == self.born@,
    {
        &self.born
    }

    /// The indices that died this step, ascending.
    pub fn died(&self) -> (r: &Vec<u32>)
        ensures
            r@ == self.died@,
    {
        &self.died
    }
}

/// `x` belongs to the seeded frontier of a starting configuration: it is
/// a starting cell, or one of the 8 neighbors of a starting cell.
pub open spec fn seeded(starting: Seq<u32>, size: int, x: u32) -> bool {
    starting.contains(x) || exists|p: int, k: int|
        0 <= p < starting.len() && 0 <= k < 8 && x == nbr(size, starting[p] as int, k) as u32
}

/// Evaluating worklist cell `p` against snapshot `g` schedules `x` for the
/// following step: the cell itself when it changes or ends the step alive,
/// and each of its 8 neighbors when it changes.
pub open spec fn scheduled_by(g: Seq<bool>, size: int, wl: Seq<u32>, p: int, x: u32) -> bool {
    ||| (wl[p] == x && (next_cell(g, size, wl[p] as int) != g[wl[p] as int] || next_cell(
        g,
        size,
        wl[p] as int,
    )))
    ||| (next_cell(g, size, wl[p] as int) != g[wl[p] as int] && exists|k: int|
        0 <= k < 8 && x == nbr(size, wl[p] as int, k) as u32)
}

/// Some cell among the first `w` worklist entries schedules `x`.
pub open spec fn scheduled_in_prefix(
    g: Seq<bool>,
    size: int,
    wl: Seq<u32>,
    w: int,
    x: u32,
) -> bool {
    exists|p: int| 0 <= p < w && scheduled_by(g, size, wl, p, x)
}

/// Taking one more worklist entry extends the scheduled set by exactly
/// what that entry schedules.
proof fn lemma_scheduled_extend(g: Seq<bool>, size: int, wl: Seq<u32>, w: int, x: u32)
    requires
        0 <= w,
    ensures
        scheduled_in_prefix(g, size, wl, w + 1, x) <==> (scheduled_in_prefix(g, size, wl, w, x)
            || scheduled_by(g, size, wl, w, x)),
{
    if scheduled_in_prefix(g, size, wl, w + 1, x) {
        let p = choose|p: int| 0 <= p < w + 1 && scheduled_by(g, size, wl, p, x);
        if p < w {
            assert(scheduled_in_prefix(g, size, wl, w, x));
        }
    }
    if scheduled_in_prefix(g, size, wl, w, x) {
        let p = choose|p: int| 0 <= p < w && scheduled_by(g, size, wl, p, x);
        assert(0 <= p < w + 1 && scheduled_by(g, size, wl, p, x));
        assert(scheduled_in_prefix(g, size, wl, w + 1, x));
    }
    if scheduled_by(g, size, wl, w, x) {
        assert(0 <= w < w + 1 && scheduled_by(g, size, wl, w, x));
        assert(scheduled_in_prefix(g, size, wl, w + 1, x));
    }
}

/// The incremental simulator: grid state plus the frontier of cells to
/// re-evaluate on the next step.
pub struct GameEngine {
    pub grid: Grid,
    pub to_check: Frontier,
}

impl GameEngine {
    pub open spec fn size_spec(self) -> int {
        self.grid.size as int
    }

    pub open spec fn area(self) -> int {
        self.grid.area()
    }

    pub open spec fn cells_seq(self) -> Seq<bool> {
        self.grid.seq()
    }

    /// Engine invariant: valid grid, sorted duplicate-free in-range
    /// frontier, and frontier completeness -- every cell whose state would
    /// change on the next step is already scheduled. Over-inclusion is
    /// tolerated; under-inclusion would lose transitions.
    pub open spec fn wf(self) -> bool {
        &&& self.grid.wf()
        &&& self.to_check.wf()
        &&& forall|m: int|
            0 <= m < self.to_check.items@.len() ==> self.to_check.items@[m] < self.area()
        &&& forall|i: int|
            0 <= i < self.area() && #[trigger] next_cell(self.cells_seq(), self.size_spec(), i)
                != self.cells_seq()[i] ==> self.to_check.items@.contains(i as u32)
    }

    /// Build an engine: a `size x size` grid with the given cells alive,
    /// and a frontier seeded with every starting cell and its 8 neighbors.
    pub fn new(size: u32, starting_data: Vec<u32>) -> (r: Result<GameEngine, EngineError>)
        requires
            size * size <= u32::MAX,
        ensures
            r is Ok <==> (size >= 1 && forall|m: int|
                0 <= m < starting_data@.len() ==> starting_data@[m] < size * size),
            r matches Ok(e) ==> {
                &&& e.wf()
                &&& e.grid.size == size
                &&& forall|i: int|
                    0 <= i < e.area() ==> (e.cells_seq()[i] <==> starting_data@.contains(i as u32))
                &&& forall|x: u32|
                    #[trigger] e.to_check.items@.contains(x) <==> seeded(
                        starting_data@,
                        size as int,
                        x,
                    )
            },
    {
        let grid = match Grid::new(size, &starting_data) {
            Ok(g) => g,
            Err(err) => {
                return Err(err);
            },
        };
        let ghost s = size as int;
        // Seed the frontier: each starting cell and all its neighbors may
        // change on the first step.
        let mut seed: Vec<u32> = Vec::new();
        let mut m: usize = 0;
        while m < starting_data.len()
            invariant
                size >= 1,
                size * size <= u32::MAX,
                s == size as int,
                m <= starting_data@.len(),
                forall|p: int| 0 <= p < starting_data@.len() ==> starting_data@[p] < size * size,
                forall|q: int| 0 <= q < seed@.len() ==> seed@[q] < size * size,
                forall|p: int|
                    0 <= p < m ==> seed@.contains(#[trigger] starting_data@[p]),
                forall|p: int, k: int|
                    0 <= p < m && 0 <= k < 8 ==> seed@.contains(
                        #[trigger] nbr(s, starting_data@[p] as int, k) as u32,
                    ),
                forall|q: int| 0 <= q < seed@.len() ==> seeded(starting_data@, s, #[trigger] seed@[q]),
            decreases starting_data@.len() - m,
        {
            let ghost seed_outer = seed@;
            let c = starting_data[m];
            let neighbors = get_neighbors(size, c);
            let mut k: usize = 0;
            while k < 8
                invariant
                    k <= 8,
                    s == size as int,
                    m < starting_data@.len(),
                    c == starting_data@[m as int],
                    neighbors@.len() == 8,
                    forall|j: int| 0 <= j < 8 ==> neighbors@[j] < size * size,
                    forall|j: int| 0 <= j < 8 ==> neighbors@[j] == nbr(s, c as int, j),
                    forall|q: int| 0 <= q < seed@.len() ==> seed@[q] < size * size,
                    forall|q: int|
                        0 <= q < seed@.len() ==> seeded(starting_data@, s, #[trigger] seed@[q]),
                    forall|x: u32| seed_outer.contains(x) ==> #[trigger] seed@.contains(x),
                    forall|j: int| 0 <= j < k ==> seed@.contains(#[trigger] neighbors@[j]),
                decreases 8 - k,
            {
                let ghost seed_before = seed@;
                seed.push(neighbors[k]);
                proof {
                    assert forall|x: u32| seed_before.contains(x) implies seed@.contains(x) by {
                        lemma_push_contains(seed_before, neighbors@[k as int], x);
                    }
                    assert(seed@[seed@.len() - 1] == neighbors@[k as int]);
                    assert(seed@.contains(neighbors@[k as int]));
                    assert forall|j: int|
                        0 <= j < k + 1 implies seed@.contains(#[trigger] neighbors@[j]) by {
                        if j < k {
                            assert(seed_before.contains(neighbors@[j]));
                        }
                    }
                    assert forall|x: u32|
                        seed_outer.contains(x) implies #[trigger] seed@.contains(x) by {
                        assert(seed_before.contains(x));
                    }
                    assert(neighbors@[k as int] == nbr(
                        s,
                        starting_data@[m as int] as int,
                        k as int,
                    ) as u32);
                    assert(seeded(starting_data@, s, neighbors@[k as int]));
                    assert forall|q: int|
                        0 <= q < seed@.len() implies seeded(
                        starting_data@,
                        s,
                        #[trigger] seed@[q],
                    ) by {
                        if q < seed@.len() - 1 {
                            assert(seed@[q] == seed_before[q]);
                        }
                    }
                }
                k += 1;
            }
            let ghost seed_mid = seed@;
            seed.push(c);
            m += 1;
            proof {
                assert forall|x: u32| seed_mid.contains(x) implies seed@.contains(x) by {
                    lemma_push_contains(seed_mid, c, x);
                }
                assert(seed@[seed@.len() - 1] == c);
                assert(seed@.contains(c));
                assert forall|p: int|
                    0 <= p < m implies seed@.contains(#[trigger] starting_data@[p]) by {
                    if p < m - 1 {
                        assert(seed_outer.contains(starting_data@[p]));
                        assert(seed_mid.contains(starting_data@[p]));
                    }
                }
                assert forall|p: int, k2: int|
                    0 <= p < m && 0 <= k2 < 8 implies seed@.contains(
                    #[trigger] nbr(s, starting_data@[p] as int, k2) as u32,
                ) by {
                    if p < m - 1 {
                        assert(seed_outer.contains(nbr(s, starting_data@[p] as int, k2) as u32));
                        assert(seed_mid.contains(nbr(s, starting_data@[p] as int, k2) as u32));
                    } else {
                        assert(neighbors@[k2] == nbr(s, c as int, k2));
                        assert(seed_mid.contains(neighbors@[k2]));
                    }
                }
                assert(starting_data@[m - 1] == c);
                assert(starting_data@.contains(c));
                assert(seeded(starting_data@, s, c));
                assert forall|q: int|
                    0 <= q < seed@.len() implies seeded(starting_data@, s, #[trigger] seed@[q]) by {
                    if q < seed@.len() - 1 {
                        assert(seed@[q] == seed_mid[q]);
                        assert(seeded(starting_data@, s, seed_mid[q]));
                    }
                }
            }
        }
        let mut to_check = Frontier::empty();
        to_check.merge(seed);
        let engine = GameEngine { grid, to_check };
        proof {
            let g = engine.cells_seq();
            let n = s * s;
            assert forall|x: u32|
                #[trigger] engine.to_check.items@.contains(x) <==> seed@.contains(x) by {
                assert(engine.to_check.has(x) <==> seed@.contains(x));
            }
            assert forall|x: u32|
                #[trigger] engine.to_check.items@.contains(x) <==> seeded(
                starting_data@,
                s,
                x,
            ) by {
                if seed@.contains(x) {
                    let q = choose|q: int| 0 <= q < seed@.len() && seed@[q] == x;
                    assert(seeded(starting_data@, s, seed@[q]));
                }
                if seeded(starting_data@, s, x) {
                    if starting_data@.contains(x) {
                        let p = choose|p: int|
                            0 <= p < starting_data@.len() && starting_data@[p] == x;
                        assert(seed@.contains(starting_data@[p]));
                    } else {
                        let (p, k) = choose|p: int, k: int|
                            0 <= p < starting_data@.len() && 0 <= k < 8 && x == nbr(
                                s,
                                starting_data@[p] as int,
                                k,
                            ) as u32;
                        assert(seed@.contains(nbr(s, starting_data@[p] as int, k) as u32));
                    }
                }
            }
            assert forall|m2: int|
                0 <= m2 < engine.to_check.items@.len() implies engine.to_check.items@[m2]
                < engine.area() by {
                let x = engine.to_check.items@[m2];
                assert(engine.to_check.items@.contains(x));
                assert(seed@.contains(x));
                let q = choose|q: int| 0 <= q < seed@.len() && seed@[q] == x;
                assert(seed@[q] < size * size);
            }
            assert forall|i: int|
                0 <= i < engine.area() && #[trigger] next_cell(g, s, i) != g[i]
                implies engine.to_check.items@.contains(i as u32) by {
                if !seed@.contains(i as u32) {
                    // `i` is not a starting cell (those are all in the
                    // seed), so it starts dead ...
                    assert(!starting_data@.contains(i as u32));
                    assert(!g[i]);
                    // ... and none of its neighbors is a starting cell
                    // either, since the seed holds every neighbor of every
                    // starting cell and the neighbor relation is symmetric.
                    assert forall|k: int| 0 <= k < 8 implies !g[#[trigger] nbr(s, i, k)] by {
                        lemma_nbr_in_range(s, i, k);
                        lemma_nbr_symmetric(s, i, k);
                        let j = nbr(s, i, k);
                        if g[j] {
                            assert(starting_data@.contains(j as u32));
                            let p = choose|p: int|
                                0 <= p < starting_data@.len() && starting_data@[p] == j as u32;
                            assert(seed@.contains(
                                nbr(s, starting_data@[p] as int, 7 - k) as u32,
                            ));
                            assert(nbr(s, j, 7 - k) == i);
                            assert(false);
                        }
                    }
                    assert(!g[nbr(s, i, 0)]);
                    assert(!g[nbr(s, i, 1)]);
                    assert(!g[nbr(s, i, 2)]);
                    assert(!g[nbr(s, i, 3)]);
                    assert(!g[nbr(s, i, 4)]);
                    assert(!g[nbr(s, i, 5)]);
                    assert(!g[nbr(s, i, 6)]);
                    assert(!g[nbr(s, i, 7)]);
                    assert(crate::model::neighbor_count(g, s, i) == 0);
                    assert(next_cell(g, s, i) == g[i]);
                    assert(false);
                }
            }
        }
        Ok(engine)
    }

    /// One simulation step. The frontier is drained into a worklist; every
    /// worklist cell is evaluated against the pre-step snapshot; the
    /// observed transitions are committed only after all reads are done;
    /// the new frontier is rebuilt from the transitions (each changed cell
    /// with its 8 neighbors, plus every evaluated cell that stays alive).
    ///
    /// The grid advances exactly one synchronous step of the rule, and the
    /// result reports the exact diff: frontier completeness guarantees no
    /// changing cell is missed even though only frontier cells are read.
    pub fn next(&mut self) -> (res: StepResult)
        requires
            old(self).wf(),
        ensures
            final(self).wf(),
            final(self).grid.size == old(self).grid.size,
            final(self).cells_seq() == step_spec(old(self).cells_seq(), old(self).size_spec()),
            res.describes(old(self).cells_seq(), old(self).size_spec()),
            forall|i: int|
                0 <= i < old(self).area() && #[trigger] step_spec(
                    old(self).cells_seq(),
                    old(self).size_spec(),
                )[i] != old(self).cells_seq()[i] ==> final(self).to_check.items@.contains(i as u32),
            forall|i: int, k: int|
                0 <= i < old(self).area() && 0 <= k < 8 && step_spec(
                    old(self).cells_seq(),
                    old(self).size_spec(),
                )[i] != old(self).cells_seq()[i] ==> final(self).to_check.items@.contains(
                    #[trigger] nbr(old(self).size_spec(), i, k) as u32,
                ),
            forall|i: int|
                0 <= i < old(self).area() && old(self).to_check.items@.contains(i as u32)
                    && #[trigger] step_spec(old(self).cells_seq(), old(self).size_spec())[i]
                    ==> final(self).to_check.items@.contains(i as u32),
            forall|x: u32|
                #[trigger] final(self).to_check.items@.contains(x) <==> scheduled_in_prefix(
                    old(self).cells_seq(),
                    old(self).size_spec(),
                    old(self).to_check.items@,
                    old(self).to_check.items@.len() as int,
                    x,
                ),
    {
        let ghost g = old(self).cells_seq();
        let ghost s = old(self).size_spec();
        let ghost n = old(self).area();
        let worklist = self.to_check.drain();
        let ghost wl = worklist@;
        let mut born: Vec<u32> = Vec::new();
        let mut died: Vec<u32> = Vec::new();
        let mut w: usize = 0;
        while w < worklist.len()
            invariant
                self.grid == old(self).grid,
                self.grid.wf(),
                g == self.grid.seq(),
                s == self.grid.size as int,
                n == s * s,
                n <= u32::MAX,
                wl == worklist@,
                w <= wl.len(),
                strictly_increasing(wl),
                forall|m: int| 0 <= m < wl.len() ==> wl[m] < n,
                forall|i: int|
                    0 <= i < n && #[trigger] next_cell(g, s, i) != g[i] ==> wl.contains(i as u32),
                self.to_check.wf(),
                forall|m: int|
                    0 <= m < self.to_check.items@.len() ==> self.to_check.items@[m] < n,
                strictly_increasing(born@),
                strictly_increasing(died@),
                forall|q: int| 0 <= q < born@.len() ==> in_prefix(wl, w as int, #[trigger] born@[q]),
                forall|q: int| 0 <= q < died@.len() ==> in_prefix(wl, w as int, #[trigger] died@[q]),
                forall|q: int| 0 <= q < born@.len() ==> born@[q] < n,
                forall|q: int| 0 <= q < died@.len() ==> died@[q] < n,
                forall|i: int|
                    0 <= i < n ==> (#[trigger] born@.contains(i as u32) <==> (in_prefix(
                        wl,
                        w as int,
                        i as u32,
                    ) && !g[i] && next_cell(g, s, i))),
                forall|i: int|
                    0 <= i < n ==> (#[trigger] died@.contains(i as u32) <==> (in_prefix(
                        wl,
                        w as int,
                        i as u32,
                    ) && g[i] && !next_cell(g, s, i))),
                forall|p: int|
                    0 <= p < w && next_cell(g, s, (#[trigger] wl[p]) as int) != g[wl[p] as int]
                        ==> self.to_check.items@.contains(wl[p]),
                forall|p: int, k: int|
                    0 <= p < w && 0 <= k < 8 && next_cell(g, s, wl[p] as int) != g[wl[p] as int]
                        ==> self.to_check.items@.contains(#[trigger] nbr(s, wl[p] as int, k) as u32),
                forall|p: int|
                    0 <= p < w && next_cell(g, s, (#[trigger] wl[p]) as int)
                        ==> self.to_check.items@.contains(wl[p]),
                forall|x: u32|
                    #[trigger] self.to_check.items@.contains(x) <==> scheduled_in_prefix(
                        g,
                        s,
                        wl,
                        w as int,
                        x,
                    ),
            decreases wl.len() - w,
        {
            let index = worklist[w];
            let neighbors = get_neighbors(self.grid.size, index);
            let cnt = self.grid.alive_count(&neighbors);
            let was_alive = self.grid.alive(index);
            proof {
                lemma_count8(g, s, index as int, neighbors@);
            }
            let is_alive = if cnt == 3 {
                true
            } else if cnt == 2 {
                was_alive
            } else {
                false
            };
            proof {
                assert(is_alive == next_cell(g, s, index as int));
                assert(was_alive == g[index as int]);
                assert(wl[w as int] == index);
            }
            if is_alive != was_alive {
                let ghost born0 = born@;
                let ghost died0 = died@;
                if is_alive {
                    born.push(index);
                } else {
                    died.push(index);
                }
                proof {
                    assert forall|i: int|
                        0 <= i < n implies (#[trigger] born@.contains(i as u32) <==> (in_prefix(
                        wl,
                        w + 1,
                        i as u32,
                    ) && !g[i] && next_cell(g, s, i))) by {
                        lemma_in_prefix_extend(wl, w as int, i as u32);
                        if is_alive {
                            lemma_push_contains(born0, index, i as u32);
                        }
                        if i as u32 == index {
                            assert(i == index as int);
                        }
                    }
                    assert forall|i: int|
                        0 <= i < n implies (#[trigger] died@.contains(i as u32) <==> (in_prefix(
                        wl,
                        w + 1,
                        i as u32,
                    ) && g[i] && !next_cell(g, s, i))) by {
                        lemma_in_prefix_extend(wl, w as int, i as u32);
                        if !is_alive {
                            lemma_push_contains(died0, index, i as u32);
                        }
                        if i as u32 == index {
                            assert(i == index as int);
                        }
                    }
                    assert forall|q: int|
                        0 <= q < born@.len() implies in_prefix(wl, w + 1, #[trigger] born@[q]) by {
                        if q < born0.len() {
                            assert(in_prefix(wl, w as int, born0[q]));
                            lemma_in_prefix_extend(wl, w as int, born0[q]);
                        } else {
                            lemma_in_prefix_extend(wl, w as int, index);
                        }
                    }
                    assert forall|q: int|
                        0 <= q < died@.len() implies in_prefix(wl, w + 1, #[trigger] died@[q]) by {
                        if q < died0.len() {
                            assert(in_prefix(wl, w as int, died0[q]));
                            lemma_in_prefix_extend(wl, w as int, died0[q]);
                        } else {
                            lemma_in_prefix_extend(wl, w as int, index);
                        }
                    }
                    assert forall|a: int, b: int|
                        0 <= a < b < born@.len() implies born@[a] < born@[b] by {
                        if b == born@.len() - 1 && born@.len() > born0.len() {
                            assert(in_prefix(wl, w as int, born0[a]));
                            let p = choose|p: int| 0 <= p < w && wl[p] == born0[a];
                            assert(wl[p] < wl[w as int]);
                        }
                    }
                    assert forall|a: int, b: int|
                        0 <= a < b < died@.len() implies died@[a] < died@[b] by {
                        if b == died@.len() - 1 && died@.len() > died0.len() {
                            assert(in_prefix(wl, w as int, died0[a]));
                            let p = choose|p: int| 0 <= p < w && wl[p] == died0[a];
                            assert(wl[p] < wl[w as int]);
                        }
                    }
                }
                let mut batch: Vec<u32> = Vec::new();
                batch.push(index);
                batch.push(neighbors[0]);
                batch.push(neighbors[1]);
                batch.push(neighbors[2]);
                batch.push(neighbors[3]);
                batch.push(neighbors[4]);
                batch.push(neighbors[5]);
                batch.push(neighbors[6]);
                batch.push(neighbors[7]);
                let ghost fr0 = self.to_check.items@;
                let ghost batch_view = batch@;
                self.to_check.merge(batch);
                proof {
                    assert forall|x: u32|
                        self.to_check.items@.contains(x) <==> (fr0.contains(x)
                            || batch_view.contains(x)) by {
                        assert(self.to_check.has(x) <==> (fr0.contains(x) || batch_view.contains(
                            x,
                        )));
                    }
                    assert(batch_view[0] == index);
                    assert(batch_view[1] == neighbors@[0]);
                    assert(batch_view[2] == neighbors@[1]);
                    assert(batch_view[3] == neighbors@[2]);
                    assert(batch_view[4] == neighbors@[3]);
                    assert(batch_view[5] == neighbors@[4]);
                    assert(batch_view[6] == neighbors@[5]);
                    assert(batch_view[7] == neighbors@[6]);
                    assert(batch_view[8] == neighbors@[7]);
                    assert(batch_view.contains(index));
                    assert(self.to_check.items@.contains(index));
                    assert forall|k: int|
                        0 <= k < 8 implies batch_view.contains(
                        #[trigger] nbr(s, index as int, k) as u32,
                    ) by {
                        assert(batch_view[k + 1] == neighbors@[k]);
                        assert(neighbors@[k] == nbr(s, index as int, k));
                    }
                    assert forall|m2: int|
                        0 <= m2 < self.to_check.items@.len() implies self.to_check.items@[m2]
                        < n by {
                        let x = self.to_check.items@[m2];
                        assert(self.to_check.items@.contains(x));
                        if fr0.contains(x) {
                            let q = choose|q: int| 0 <= q < fr0.len() && fr0[q] == x;
                        } else {
                            let q = choose|q: int|
                                0 <= q < batch_view.len() && batch_view[q] == x;
                            if q > 0 {
                                assert(batch_view[q] == neighbors@[q - 1]);
                            }
                        }
                    }
                    assert forall|p: int|
                        0 <= p < w + 1 && next_cell(g, s, (#[trigger] wl[p]) as int) != g[wl[p] as int]
                        implies self.to_check.items@.contains(wl[p]) by {
                        if p < w {
                            assert(fr0.contains(wl[p]));
                        }
                    }
                    assert forall|p: int, k: int|
                        0 <= p < w + 1 && 0 <= k < 8 && next_cell(g, s, wl[p] as int) != g[wl[p] as int]
                        implies self.to_check.items@.contains(
                        #[trigger] nbr(s, wl[p] as int, k) as u32,
                    ) by {
                        if p < w {
                            assert(fr0.contains(nbr(s, wl[p] as int, k) as u32));
                        } else {
                            assert(batch_view.contains(nbr(s, index as int, k) as u32));
                        }
                    }
                    assert forall|p: int|
                        0 <= p < w + 1 && next_cell(g, s, (#[trigger] wl[p]) as int)
                        implies self.to_check.items@.contains(wl[p]) by {
                        if p < w {
                            assert(fr0.contains(wl[p]));
                        }
                    }
                    assert forall|x: u32|
                        #[trigger] self.to_check.items@.contains(x) <==> scheduled_in_prefix(
                        g,
                        s,
                        wl,
                        w + 1,
                        x,
                    ) by {
                        assert(fr0.contains(x) <==> scheduled_in_prefix(g, s, wl, w as int, x));
                        lemma_scheduled_extend(g, s, wl, w as int, x);
                        if batch_view.contains(x) {
                            let q = choose|q: int|
                                0 <= q < batch_view.len() && batch_view[q] == x;
                            if q == 0 {
                                assert(wl[w as int] == x);
                                assert(scheduled_by(g, s, wl, w as int, x));
                            } else {
                                assert(batch_view[q] == neighbors@[q - 1]);
                                assert(neighbors@[q - 1] == nbr(s, index as int, q - 1));
                                assert(x == nbr(s, wl[w as int] as int, q - 1) as u32);
                                assert(scheduled_by(g, s, wl, w as int, x));
                            }
                        }
                        if scheduled_by(g, s, wl, w as int, x) {
                            if wl[w as int] == x {
                                assert(batch_view[0] == x);
                                assert(batch_view.contains(x));
                            } else {
                                let k2 = choose|k: int|
                                    0 <= k < 8 && x == nbr(s, wl[w as int] as int, k) as u32;
                                assert(neighbors@[k2] == nbr(s, index as int, k2));
                                assert(batch_view[k2 + 1] == neighbors@[k2]);
                                assert(batch_view.contains(x));
                            }
                        }
                    }
                }
            } else {
                if is_alive {
                    let mut single: Vec<u32> = Vec::new();
                    single.push(index);
                    let ghost fr0 = self.to_check.items@;
                    let ghost single_view = single@;
                    self.to_check.merge(single);
                    proof {
                        assert forall|x: u32|
                            self.to_check.items@.contains(x) <==> (fr0.contains(x)
                                || single_view.contains(x)) by {
                            assert(self.to_check.has(x) <==> (fr0.contains(x)
                                || single_view.contains(x)));
                        }
                        assert(single_view[0] == index);
                        assert(single_view.contains(index));
                        assert(self.to_check.items@.contains(index));
                        assert forall|m2: int|
                            0 <= m2 < self.to_check.items@.len() implies self.to_check.items@[m2]
                            < n by {
                            let x = self.to_check.items@[m2];
                            assert(self.to_check.items@.contains(x));
                            if fr0.contains(x) {
                                let q = choose|q: int| 0 <= q < fr0.len() && fr0[q] == x;
                            } else {
                                let q = choose|q: int|
                                    0 <= q < single_view.len() && single_view[q] == x;
                            }
                        }
                        assert forall|p: int|
                            0 <= p < w + 1 && next_cell(g, s, (#[trigger] wl[p]) as int) != g[wl[p] as int]
                            implies self.to_check.items@.contains(wl[p]) by {
                            if p < w {
                                assert(fr0.contains(wl[p]));
                            }
                        }
                        assert forall|p: int, k: int|
                            0 <= p < w + 1 && 0 <= k < 8 && next_cell(g, s, wl[p] as int) != g[wl[p] as int]
                            implies self.to_check.items@.contains(
                            #[trigger] nbr(s, wl[p] as int, k) as u32,
                        ) by {
                            if p < w {
                                assert(fr0.contains(nbr(s, wl[p] as int, k) as u32));
                            }
                        }
                        assert forall|p: int|
                            0 <= p < w + 1 && next_cell(g, s, (#[trigger] wl[p]) as int)
                            implies self.to_check.items@.contains(wl[p]) by {
                            if p < w {
                                assert(fr0.contains(wl[p]));
                            }
                        }
                        assert forall|x: u32|
                            #[trigger] self.to_check.items@.contains(x) <==> scheduled_in_prefix(
                            g,
                            s,
                            wl,
                            w + 1,
                            x,
                        ) by {
                            assert(fr0.contains(x) <==> scheduled_in_prefix(
                                g,
                                s,
                                wl,
                                w as int,
                                x,
                            ));
                            lemma_scheduled_extend(g, s, wl, w as int, x);
                            if single_view.contains(x) {
                                let q = choose|q: int|
                                    0 <= q < single_view.len() && single_view[q] == x;
                                assert(wl[w as int] == x);
                                assert(scheduled_by(g, s, wl, w as int, x));
                            }
                            if scheduled_by(g, s, wl, w as int, x) {
                                assert(next_cell(g, s, wl[w as int] as int) == g[wl[w as int] as int]);
                                assert(wl[w as int] == x);
                                assert(single_view.contains(x));
                            }
                        }
                    }
                } else {
                    proof {
                        assert forall|x: u32|
                            #[trigger] self.to_check.items@.contains(x) <==> scheduled_in_prefix(
                            g,
                            s,
                            wl,
                            w + 1,
                            x,
                        ) by {
                            assert(self.to_check.items@.contains(x) <==> scheduled_in_prefix(
                                g,
                                s,
                                wl,
                                w as int,
                                x,
                            ));
                            lemma_scheduled_extend(g, s, wl, w as int, x);
                            assert(!scheduled_by(g, s, wl, w as int, x));
                        }
                    }
                }
                proof {
                    assert forall|i: int|
                        0 <= i < n implies (#[trigger] born@.contains(i as u32) <==> (in_prefix(
                        wl,
                        w + 1,
                        i as u32,
                    ) && !g[i] && next_cell(g, s, i))) by {
                        lemma_in_prefix_extend(wl, w as int, i as u32);
                        if i as u32 == index {
                            assert(i == index as int);
                        }
                    }
                    assert forall|i: int|
                        0 <= i < n implies (#[trigger] died@.contains(i as u32) <==> (in_prefix(
                        wl,
                        w + 1,
                        i as u32,
                    ) && g[i] && !next_cell(g, s, i))) by {
                        lemma_in_prefix_extend(wl, w as int, i as u32);
                        if i as u32 == index {
                            assert(i == index as int);
                        }
                    }
                    assert forall|q: int|
                        0 <= q < born@.len() implies in_prefix(wl, w + 1, #[trigger] born@[q]) by {
                        assert(in_prefix(wl, w as int, born@[q]));
                        lemma_in_prefix_extend(wl, w as int, born@[q]);
                    }
                    assert forall|q: int|
                        0 <= q < died@.len() implies in_prefix(wl, w + 1, #[trigger] died@[q]) by {
                        assert(in_prefix(wl, w as int, died@[q]));
                        lemma_in_prefix_extend(wl, w as int, died@[q]);
                    }
                }
            }
            w += 1;
        }
        // Commit phase: all reads are done; write the transitions.
        let ghost fr_final = self.to_check;
        let mut bi: usize = 0;
        while bi < born.len()
            invariant
                self.grid.wf(),
                s == self.grid.size as int,
                n == s * s,
                self.to_check == fr_final,
                bi <= born@.len(),
                forall|q: int| 0 <= q < born@.len() ==> born@[q] < n,
                forall|i: int|
                    0 <= i < n ==> (self.grid.seq()[i] <==> (g[i] || in_prefix(
                        born@,
                        bi as int,
                        i as u32,
                    ))),
            decreases born@.len() - bi,
        {
            let idx = born[bi];
            let ghost seq0 = self.grid.seq();
            let ghost b0 = bi as int;
            self.grid.set(idx, true);
            bi += 1;
            proof {
                assert(born@[b0] == idx);
                assert forall|i: int|
                    0 <= i < n implies (self.grid.seq()[i] <==> (g[i] || in_prefix(
                    born@,
                    bi as int,
                    i as u32,
                ))) by {
                    assert(seq0[i] <==> (g[i] || in_prefix(born@, b0, i as u32)));
                    lemma_in_prefix_extend(born@, b0, i as u32);
                    assert(in_prefix(born@, bi as int, i as u32) == (in_prefix(born@, b0, i as u32)
                        || born@[b0] == i as u32));
                    if i == idx as int {
                        assert(self.grid.seq()[i]);
                    } else {
                        assert(self.grid.seq()[i] == seq0[i]);
                        if idx == i as u32 {
                            assert(i == idx as int);
                        }
                    }
                }
            }
        }
        proof {
            assert forall|i: int|
                0 <= i < n implies (self.grid.seq()[i] <==> ((g[i] || born@.contains(i as u32))
                    && !in_prefix(died@, 0, i as u32))) by {
                lemma_in_prefix_full(born@, i as u32);
            }
        }
        let mut di: usize = 0;
        while di < died.len()
            invariant
                self.grid.wf(),
                s == self.grid.size as int,
                n == s * s,
                self.to_check == fr_final,
                di <= died@.len(),
                forall|q: int| 0 <= q < died@.len() ==> died@[q] < n,
                forall|i: int|
                    0 <= i < n ==> (self.grid.seq()[i] <==> ((g[i] || born@.contains(i as u32))
                        && !in_prefix(died@, di as int, i as u32))),
            decreases died@.len() - di,
        {
            let idx = died[di];
            let ghost seq0 = self.grid.seq();
            let ghost d0 = di as int;
            self.grid.set(idx, false);
            di += 1;
            proof {
                assert(died@[d0] == idx);
                assert forall|i: int|
                    0 <= i < n implies (self.grid.seq()[i] <==> ((g[i] || born@.contains(i as u32))
                        && !in_prefix(died@, di as int, i as u32))) by {
                    assert(seq0[i] <==> ((g[i] || born@.contains(i as u32)) && !in_prefix(
                        died@,
                        d0,
                        i as u32,
                    )));
                    lemma_in_prefix_extend(died@, d0, i as u32);
                    assert(in_prefix(died@, di as int, i as u32) == (in_prefix(died@, d0, i as u32)
                        || died@[d0] == i as u32));
                    if i == idx as int {
                        assert(!self.grid.seq()[i]);
                    } else {
                        assert(self.grid.seq()[i] == seq0[i]);
                        if idx == i as u32 {
                            assert(i == idx as int);
                        }
                    }
                }
            }
        }
        proof {
            let g2 = step_spec(g, s);
            assert forall|i: int|
                0 <= i < n implies (#[trigger] born@.contains(i as u32) <==> (!g[i] && g2[i])) by {
                assert(g2[i] == next_cell(g, s, i));
                if !g[i] && next_cell(g, s, i) {
                    assert(next_cell(g, s, i) != g[i]);
                    assert(wl.contains(i as u32));
                    lemma_in_prefix_full(wl, i as u32);
                }
            }
            assert forall|i: int|
                0 <= i < n implies (#[trigger] died@.contains(i as u32) <==> (g[i] && !g2[i])) by {
                assert(g2[i] == next_cell(g, s, i));
                if g[i] && !next_cell(g, s, i) {
                    assert(next_cell(g, s, i) != g[i]);
                    assert(wl.contains(i as u32));
                    lemma_in_prefix_full(wl, i as u32);
                }
            }
            assert forall|i: int| 0 <= i < n implies self.grid.seq()[i] == g2[i] by {
                lemma_in_prefix_full(died@, i as u32);
                assert(self.grid.seq()[i] <==> ((g[i] || born@.contains(i as u32))
                    && !died@.contains(i as u32)));
                assert(g2[i] == next_cell(g, s, i));
                if born@.contains(i as u32) {
                    assert(!g[i] && g2[i]);
                } else if died@.contains(i as u32) {
                    assert(g[i] && !g2[i]);
                } else {
                    if next_cell(g, s, i) != g[i] {
                        assert(wl.contains(i as u32));
                        lemma_in_prefix_full(wl, i as u32);
                        assert(false);
                    }
                }
            }
            assert(self.grid.seq() =~= g2);
            assert forall|j: int|
                0 <= j < n && #[trigger] g2[j] != g[j] implies self.to_check.items@.contains(
                j as u32,
            ) && (forall|k: int|
                0 <= k < 8 ==> self.to_check.items@.contains(#[trigger] nbr(s, j, k) as u32)) by {
                assert(g2[j] == next_cell(g, s, j));
                assert(next_cell(g, s, j) != g[j]);
                assert(wl.contains(j as u32));
                let p = choose|p: int| 0 <= p < wl.len() && wl[p] == j as u32;
                assert(wl[p] as int == j);
                assert(next_cell(g, s, wl[p] as int) != g[wl[p] as int]);
                assert(self.to_check.items@.contains(wl[p]));
                assert forall|k: int|
                    0 <= k < 8 implies self.to_check.items@.contains(
                    #[trigger] nbr(s, j, k) as u32,
                ) by {
                    assert(self.to_check.items@.contains(nbr(s, wl[p] as int, k) as u32));
                }
            }
            lemma_frontier_preserved(g, s, self.to_check.items@);
            // An evaluated cell that ends the step alive stays scheduled:
            // a later neighbor death could still flip it.
            assert forall|i: int|
                0 <= i < n && wl.contains(i as u32) && #[trigger] g2[i]
                implies self.to_check.items@.contains(i as u32) by {
                let p = choose|p: int| 0 <= p < wl.len() && wl[p] == i as u32;
                assert(wl[p] as int == i);
                assert(next_cell(g, s, wl[p] as int));
            }
        }
        let alive = self.grid.alive_list();
        StepResult { born, died, alive }
    }

    /// Run `count` steps and return their results in order.
    pub fn next_batch(&mut self, count: usize) -> (results: Vec<StepResult>)
        requires
            old(self).wf(),
        ensures
            final(self).wf(),
            final(self).grid.size == old(self).grid.size,
            results@.len() == count,
            final(self).cells_seq() == step_n(
                old(self).cells_seq(),
                old(self).size_spec(),
                count as nat,
            ),
            forall|t: int|
                0 <= t < count ==> #[trigger] results@[t].describes(
                    step_n(old(self).cells_seq(), old(self).size_spec(), t as nat),
                    old(self).size_spec(),
                ),
    {
        let ghost g0 = old(self).cells_seq();
        let ghost s = old(self).size_spec();
        let mut results: Vec<StepResult> = Vec::new();
        let mut t: usize = 0;
        while t < count
            invariant
                self.wf(),
                self.grid.size == old(self).grid.size,
                s == old(self).size_spec(),
                g0 == old(self).cells_seq(),
                t <= count,
                results@.len() == t,
                self.cells_seq() == step_n(g0, s, t as nat),
                forall|u: int|
                    0 <= u < t ==> #[trigger] results@[u].describes(step_n(g0, s, u as nat), s),
            decreases count - t,
        {
            let r = self.next();
            results.push(r);
            t += 1;
            proof {
                assert(step_n(g0, s, t as nat) == step_spec(step_n(g0, s, (t - 1) as nat), s));
            }
        }
        results
    }

    /// The full grid state: one flag per cell, `1` for alive.
    pub fn cells(&self) -> (r: &Vec<u8>)
        ensures
            r@ == self.grid.cells@,
    {
        &self.grid.cells
    }
}

/// A fully dead grid stays dead and reports nothing: any step result that
/// describes a step from an all-dead grid has empty `born`, `died` and
/// `alive` lists.
pub proof fn lemma_dead_grid_reports_empty(res: StepResult, g: Seq<bool>, size: int)
    requires
        crate::model::valid_size(size),
        g.len() == size * size,
        forall|i: int| 0 <= i < g.len() ==> !g[i],
        res.describes(g, size),
    ensures
        res.born@.len() == 0,
        res.died@.len() == 0,
        res.alive@.len() == 0,
{
    crate::model::lemma_dead_grid_fixed(g, size);
    if res.born@.len() > 0 {
        let x = res.born@[0];
        assert(res.born@.contains(x));
        assert(x < size * size);
        assert(res.born@.contains((x as int) as u32));
        assert(step_spec(g, size)[x as int]);
        assert(false);
    }
    if res.died@.len() > 0 {
        let x = res.died@[0];
        assert(res.died@.contains(x));
        assert(x < size * size);
        assert(res.died@.contains((x as int) as u32));
        assert(g[x as int]);
        assert(false);
    }
    if res.alive@.len() > 0 {
        let x = res.alive@[0];
        assert(res.alive@.contains(x));
        assert(x < size * size);
        assert(res.alive@.contains((x as int) as u32));
        assert(step_spec(g, size)[x as int]);
        assert(false);
    }
}

} // verus!
