use wfc_sudoku::Grid;

#[test]
fn fresh_grid_is_full_and_unresolved() {
    let g = Grid::new();
    for idx in 0..81 {
        assert_eq!(g.candidates(idx), vec![1, 2, 3, 4, 5, 6, 7, 8, 9]);
        assert!(!g.is_propagated(idx));
    }
    assert!(!g.is_resolved());
}

#[test]
fn propagate_removes_value_from_peers() {
    let mut g = Grid::new();
    let v = g.collapse_cell_pick(0, 4);
    assert_eq!(v, 5);
    assert!(g.propagate(0).is_ok());
    g.end_propagation();
    // 1 shares the row, 9 the column, 10 the box of index 0
    for peer in [1usize, 9, 10] {
        let cands = g.candidates(peer);
        assert!(!cands.contains(&5));
        assert!(!cands.is_empty());
        assert_eq!(cands, vec![1, 2, 3, 4, 6, 7, 8, 9]);
    }
    assert_eq!(g.candidates(0), vec![5]);
    // a cell sharing no group with 0 is untouched
    assert_eq!(g.candidates(40), vec![1, 2, 3, 4, 5, 6, 7, 8, 9]);
}

#[test]
fn end_propagation_allows_a_new_pass() {
    let mut g = Grid::new();
    g.collapse_cell_pick(0, 4);
    assert!(g.propagate(0).is_ok());
    assert!(g.is_propagated(0));
    g.end_propagation();
    for idx in 0..81 {
        assert!(!g.is_propagated(idx));
    }
    // the next pass on the same singleton re-executes its cascade instead
    // of being suppressed as already visited
    assert!(g.propagate(0).is_ok());
    assert!(g.is_propagated(0));
}

#[test]
fn repeated_propagate_within_a_pass_is_suppressed() {
    let mut g = Grid::new();
    g.collapse_cell_pick(0, 4);
    assert!(g.propagate(0).is_ok());
    let before: Vec<Vec<u8>> = (0..81).map(|i| g.candidates(i)).collect();
    // without end_propagation the cell is still marked: nothing changes
    assert!(g.propagate(0).is_ok());
    let after: Vec<Vec<u8>> = (0..81).map(|i| g.candidates(i)).collect();
    assert_eq!(before, after);
}

#[test]
fn contradiction_restarts_with_a_fresh_grid() {
    let mut g = Grid::new();
    // force two row peers toward the same sole remaining candidate
    assert_eq!(g.collapse_cell_pick(0, 4), 5);
    assert_eq!(g.collapse_cell_pick(1, 4), 5);
    let r = g.propagate(0);
    assert!(r.is_err());
    // the step driver discards the grid and starts over
    g.conclude_step(r);
    for idx in 0..81 {
        assert_eq!(g.candidates(idx), vec![1, 2, 3, 4, 5, 6, 7, 8, 9]);
        assert!(!g.is_propagated(idx));
    }
    assert!(!g.is_resolved());
}

#[test]
fn conclude_step_on_success_only_clears_markers() {
    let mut g = Grid::new();
    g.collapse_cell_pick(10, 0);
    let r = g.propagate(10);
    assert!(r.is_ok());
    let before: Vec<Vec<u8>> = (0..81).map(|i| g.candidates(i)).collect();
    g.conclude_step(r);
    let after: Vec<Vec<u8>> = (0..81).map(|i| g.candidates(i)).collect();
    assert_eq!(before, after);
    for idx in 0..81 {
        assert!(!g.is_propagated(idx));
    }
}

#[test]
fn reset_restores_a_fresh_grid() {
    let mut g = Grid::new();
    g.collapse_cell_pick(3, 2);
    assert!(g.propagate(3).is_ok());
    g.reset();
    for idx in 0..81 {
        assert_eq!(g.candidates(idx), vec![1, 2, 3, 4, 5, 6, 7, 8, 9]);
        assert!(!g.is_propagated(idx));
    }
}

#[test]
fn lowest_entropy_prefers_most_constrained_cell() {
    let mut g = Grid::new();
    g.cells[7].remove_possibility(1).unwrap();
    g.cells[7].remove_possibility(2).unwrap();
    assert_eq!(g.candidate_count(7), 7);
    assert_eq!(g.min_entropy(), 7);
    assert_eq!(g.lowest_entropy_cells(), vec![7]);
    // with a single candidate cell the random tie-break has no choice
    assert_eq!(g.get_lowest_entropy_cell_idx(), 7);
}

#[test]
fn min_entropy_of_fresh_grid_is_nine() {
    let g = Grid::new();
    assert_eq!(g.min_entropy(), 9);
    assert_eq!(g.lowest_entropy_cells().len(), 81);
}

#[test]
fn one_step_from_fresh_collapses_exactly_one_cell() {
    let mut g = Grid::new();
    g.step();
    let mut singles = 0;
    let mut eights = 0;
    let mut nines = 0;
    for idx in 0..81 {
        match g.candidate_count(idx) {
            1 => singles += 1,
            8 => eights += 1,
            9 => nines += 1,
            n => panic!("unexpected candidate count {n}"),
        }
        assert!(!g.is_propagated(idx));
    }
    // one collapsed cell, its twenty distinct peers reduced by one value
    assert_eq!(singles, 1);
    assert_eq!(eights, 20);
    assert_eq!(nines, 60);
    assert!(!g.is_resolved());
}

#[test]
fn step_on_resolved_grid_does_nothing() {
    let mut g = Grid::new();
    for idx in 0..81 {
        g.collapse_cell_pick(idx, 0);
    }
    assert!(g.is_resolved());
    g.step();
    for idx in 0..81 {
        assert_eq!(g.candidates(idx), vec![1]);
    }
}
