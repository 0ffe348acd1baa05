use wfc_sudoku::Cell;

#[test]
fn fresh_cell_has_all_nine() {
    let c = Cell::new();
    assert_eq!(c.values(), vec![1, 2, 3, 4, 5, 6, 7, 8, 9]);
    assert_eq!(c.count(), 9);
    assert!(!c.is_propagated());
}

#[test]
fn collapse_pick_keeps_chosen_candidate() {
    let mut c = Cell::new();
    let v = c.collapse_pick(4);
    assert_eq!(v, 5);
    assert_eq!(c.values(), vec![5]);
    // collapsing again is a no-op returning the same value
    let v2 = c.collapse_pick(0);
    assert_eq!(v2, 5);
    assert_eq!(c.values(), vec![5]);
}

#[test]
fn collapse_draws_from_pre_collapse_set() {
    let mut c = Cell::new();
    for w in [1u8, 2, 4, 5, 6, 8, 9] {
        assert!(c.remove_possibility(w).is_ok());
    }
    assert_eq!(c.values(), vec![3, 7]);
    let v = c.collapse();
    assert!(v == 3 || v == 7);
    assert_eq!(c.values(), vec![v]);
    // idempotent: a second collapse returns the same value
    let v2 = c.collapse();
    assert_eq!(v2, v);
    assert_eq!(c.values(), vec![v]);
}

#[test]
fn remove_last_candidate_contradicts() {
    let mut c = Cell::new();
    c.collapse_pick(4);
    assert_eq!(c.values(), vec![5]);
    // removing the sole remaining candidate fails and changes nothing
    assert!(c.remove_possibility(5).is_err());
    assert_eq!(c.values(), vec![5]);
    // removing any other value succeeds and changes nothing
    assert!(c.remove_possibility(4).is_ok());
    assert_eq!(c.values(), vec![5]);
}

#[test]
fn remove_absent_value_is_a_noop() {
    let mut c = Cell::new();
    assert!(c.remove_possibility(5).is_ok());
    assert_eq!(c.values(), vec![1, 2, 3, 4, 6, 7, 8, 9]);
    assert!(c.remove_possibility(5).is_ok());
    assert_eq!(c.values(), vec![1, 2, 3, 4, 6, 7, 8, 9]);
}
