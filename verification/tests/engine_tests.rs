use life_engine::engine::{EngineError, GameEngine};
use life_engine::grid::{full_step, get_neighbors, Grid};

fn alive_indices(cells: &Vec<u8>) -> Vec<u32> {
    let mut out: Vec<u32> = Vec::new();
    let mut i: usize = 0;
    while i < cells.len() {
        if cells[i] == 1 {
            out.push(i as u32);
        }
        i += 1;
    }
    out
}

#[test]
fn construct_rejects_zero_size() {
    let r = GameEngine::new(0, vec![]);
    assert!(r.is_err());
    assert_eq!(r.err().unwrap(), EngineError::InvalidConfiguration);
}

#[test]
fn construct_rejects_out_of_range_index() {
    let r = GameEngine::new(3, vec![0, 9]);
    assert!(r.is_err());
    assert_eq!(r.err().unwrap(), EngineError::InvalidConfiguration);
}

#[test]
fn construct_accepts_edge_index() {
    let e = GameEngine::new(3, vec![0, 8]).unwrap();
    assert_eq!(alive_indices(e.cells()), vec![0, 8]);
}

#[test]
fn construct_tolerates_duplicate_starting_indices() {
    let e = GameEngine::new(3, vec![4, 4, 4]).unwrap();
    assert_eq!(alive_indices(e.cells()), vec![4]);
}

#[test]
fn neighbors_of_origin_wrap_to_far_corner() {
    // Cell 0 of a 3x3 grid must see the bottom-right cell (index 8) among
    // its neighbors; order is NW, N, NE, W, E, SW, S, SE.
    let ns = get_neighbors(3, 0);
    assert_eq!(ns, vec![8, 6, 7, 2, 1, 5, 3, 4]);
    assert!(ns.contains(&8));
}

#[test]
fn neighbors_of_center_cell() {
    let ns = get_neighbors(3, 4);
    assert_eq!(ns, vec![0, 1, 2, 3, 5, 6, 7, 8]);
}

#[test]
fn lone_corner_cell_dies_by_wrap_rule() {
    let mut e = GameEngine::new(3, vec![0]).unwrap();
    let r = e.next();
    assert_eq!(*r.born(), Vec::<u32>::new());
    assert_eq!(*r.died(), vec![0]);
    assert_eq!(alive_indices(e.cells()), Vec::<u32>::new());
}

#[test]
fn one_by_one_grid_is_its_own_neighborhood() {
    // On a 1x1 torus every one of the 8 neighbor slots wraps back to the
    // cell itself, so a lone alive cell counts 8 and dies.
    assert_eq!(get_neighbors(1, 0), vec![0, 0, 0, 0, 0, 0, 0, 0]);
    let mut e = GameEngine::new(1, vec![0]).unwrap();
    let r = e.next();
    assert_eq!(r.died, vec![0]);
    assert!(r.born.is_empty());
    assert!(r.alive.is_empty());
}

#[test]
fn full_two_by_two_torus_dies_at_once() {
    // On a 2x2 torus each cell sees the other three cells through
    // duplicated wrapped slots, for a count of 8: everything dies.
    let mut e = GameEngine::new(2, vec![0, 1, 2, 3]).unwrap();
    let r = e.next();
    assert!(r.born.is_empty());
    assert_eq!(r.died, vec![0, 1, 2, 3]);
    assert!(r.alive.is_empty());
}

#[test]
fn construction_seeds_exactly_the_cells_and_their_neighbors() {
    // Starting cell 12 on a 5x5 grid: the frontier must be exactly cell 12
    // plus its 8 neighbors, ascending and deduplicated.
    let e = GameEngine::new(5, vec![12]).unwrap();
    assert_eq!(e.to_check.items, vec![6, 7, 8, 11, 12, 13, 16, 17, 18]);
}

#[test]
fn step_rebuilds_exactly_the_scheduled_set() {
    // After the blinker's first step the new frontier is exactly the four
    // changed cells with all their neighbors, plus the three cells that
    // ended the step alive -- and nothing else.
    let mut e = GameEngine::new(5, vec![7, 12, 17]).unwrap();
    e.next();
    let expected = vec![
        1, 2, 3, 5, 6, 7, 8, 9, 10, 11, 12, 13, 14, 15, 16, 17, 18, 19, 21, 22, 23,
    ];
    assert_eq!(e.to_check.items, expected);
}

#[test]
fn dead_grid_stays_dead() {
    let mut e = GameEngine::new(4, vec![]).unwrap();
    let mut t: usize = 0;
    while t < 6 {
        let r = e.next();
        assert!(r.born.is_empty());
        assert!(r.died.is_empty());
        assert!(r.alive.is_empty());
        t += 1;
    }
    assert_eq!(alive_indices(e.cells()), Vec::<u32>::new());
}

#[test]
fn block_is_a_still_life() {
    // 2x2 block in the corner of a 4x4 grid.
    let mut e = GameEngine::new(4, vec![0, 1, 4, 5]).unwrap();
    let r = e.next();
    assert!(r.born.is_empty());
    assert!(r.died.is_empty());
    assert_eq!(r.alive, vec![0, 1, 4, 5]);
    assert_eq!(alive_indices(e.cells()), vec![0, 1, 4, 5]);
}

#[test]
fn blinker_oscillates_with_exact_diff() {
    // Vertical blinker in the middle of a 5x5 grid: cells (1,2),(2,2),(3,2).
    let mut e = GameEngine::new(5, vec![7, 12, 17]).unwrap();
    let r1 = e.next();
    assert_eq!(r1.born, vec![11, 13]);
    assert_eq!(r1.died, vec![7, 17]);
    assert_eq!(r1.alive, vec![11, 12, 13]);
    let r2 = e.next();
    assert_eq!(r2.born, vec![7, 17]);
    assert_eq!(r2.died, vec![11, 13]);
    assert_eq!(r2.alive, vec![7, 12, 17]);
}

#[test]
fn glider_translates_by_one_row_and_column_in_four_steps() {
    // Glider at the origin of an 8x8 grid:
    //   .O.
    //   ..O
    //   OOO
    let start = vec![1, 10, 16, 17, 18];
    let mut e = GameEngine::new(8, start).unwrap();
    let results = e.next_batch(4);
    assert_eq!(results.len(), 4);
    // Same shape, shifted one row down and one column right.
    let expected = vec![10, 19, 25, 26, 27];
    assert_eq!(alive_indices(e.cells()), expected);
    assert_eq!(results[3].alive, expected);
}

#[test]
fn incremental_engine_matches_full_rescan() {
    // R-pentomino on a 6x6 torus, compared step by step against the
    // full-grid-rescan baseline for 12 steps.
    let start = vec![8, 9, 13, 14, 20];
    let mut e = GameEngine::new(6, start.clone()).unwrap();
    let mut reference = Grid::new(6, &start).unwrap();
    let mut t: usize = 0;
    while t < 12 {
        let r = e.next();
        reference = full_step(&reference);
        assert_eq!(*e.cells(), reference.cells);
        assert_eq!(r.alive, alive_indices(&reference.cells));
        t += 1;
    }
}

#[test]
fn batch_of_steps_matches_single_steps() {
    let start = vec![7, 12, 17];
    let mut batch_engine = GameEngine::new(5, start.clone()).unwrap();
    let mut step_engine = GameEngine::new(5, start).unwrap();
    let results = batch_engine.next_batch(3);
    assert_eq!(results.len(), 3);
    let mut t: usize = 0;
    while t < 3 {
        let r = step_engine.next();
        assert_eq!(results[t].born, r.born);
        assert_eq!(results[t].died, r.died);
        assert_eq!(results[t].alive, r.alive);
        t += 1;
    }
    assert_eq!(*batch_engine.cells(), *step_engine.cells());
}

#[test]
fn result_getters_expose_the_diff() {
    let mut e = GameEngine::new(5, vec![7, 12, 17]).unwrap();
    let r = e.next();
    assert_eq!(*r.born(), r.born);
    assert_eq!(*r.died(), r.died);
    assert_eq!(*r.born(), vec![11, 13]);
    assert_eq!(*r.died(), vec![7, 17]);
}

#[test]
fn changed_cells_and_neighbors_are_scheduled_next() {
    // After the blinker's first step, cells 11 and 13 were born and 7 and
    // 17 died: each of them and all their neighbors must sit in the new
    // frontier, so the follow-up step sees every possible flip.
    let mut e = GameEngine::new(5, vec![7, 12, 17]).unwrap();
    let r = e.next();
    let mut changed: Vec<u32> = Vec::new();
    changed.extend(r.born.iter());
    changed.extend(r.died.iter());
    for c in changed {
        assert!(e.to_check.items.contains(&c));
        for nb in get_neighbors(5, c) {
            assert!(e.to_check.items.contains(&nb));
        }
    }
    // Cell 12 stayed alive through the step; it must stay scheduled too.
    assert!(r.alive.contains(&12));
    assert!(e.to_check.items.contains(&12));
}
