use wfc_sudoku::peers::{box_peers, col_peers, row_peers};

#[test]
fn peer_groups_of_corner() {
    assert_eq!(row_peers(0), vec![0, 1, 2, 3, 4, 5, 6, 7, 8]);
    assert_eq!(col_peers(0), vec![0, 9, 18, 27, 36, 45, 54, 63, 72]);
    assert_eq!(box_peers(0), vec![0, 1, 2, 9, 10, 11, 18, 19, 20]);
}

#[test]
fn peer_groups_encode_adjacency() {
    // 0 and 10 share a box but not a row or a column
    assert!(box_peers(0).contains(&10));
    assert!(!row_peers(0).contains(&10));
    assert!(!col_peers(0).contains(&10));
    // 0 and 9 share a column; 0 and 1 share a row
    assert!(col_peers(0).contains(&9));
    assert!(row_peers(0).contains(&1));
}

#[test]
fn peer_groups_have_nine_members_including_self() {
    for idx in [0usize, 7, 40, 44, 80] {
        for group in [row_peers(idx), col_peers(idx), box_peers(idx)] {
            assert_eq!(group.len(), 9);
            assert!(group.contains(&idx));
        }
    }
}

#[test]
fn peer_groups_of_center_and_last() {
    assert_eq!(row_peers(40), vec![36, 37, 38, 39, 40, 41, 42, 43, 44]);
    assert_eq!(col_peers(40), vec![4, 13, 22, 31, 40, 49, 58, 67, 76]);
    assert_eq!(box_peers(40), vec![30, 31, 32, 39, 40, 41, 48, 49, 50]);
    assert_eq!(row_peers(80), vec![72, 73, 74, 75, 76, 77, 78, 79, 80]);
    assert_eq!(box_peers(80), vec![60, 61, 62, 69, 70, 71, 78, 79, 80]);
}
