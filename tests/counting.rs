use chess_triangle::{chessTriangle, magicalWell};

#[test]
fn two_by_three() {
    assert_eq!(chessTriangle(2, 3), 8);
}

#[test]
fn three_by_three() {
    assert_eq!(chessTriangle(3, 3), 48);
}

#[test]
fn too_small_boards() {
    assert_eq!(chessTriangle(2, 2), 0);
    assert_eq!(chessTriangle(1, 30), 0);
}

#[test]
fn five_by_two() {
    assert_eq!(chessTriangle(5, 2), 40);
}

#[test]
fn empty_and_negative_boards() {
    assert_eq!(chessTriangle(0, 5), 0);
    assert_eq!(chessTriangle(4, 0), 0);
    assert_eq!(chessTriangle(-3, 4), 0);
}

#[test]
fn transposed_boards_agree() {
    assert_eq!(chessTriangle(3, 2), chessTriangle(2, 3));
    assert_eq!(chessTriangle(2, 5), chessTriangle(5, 2));
    assert_eq!(chessTriangle(3, 4), chessTriangle(4, 3));
    assert_eq!(chessTriangle(30, 1), 0);
}

#[test]
fn magical_well_sums() {
    assert_eq!(magicalWell(1, 2, 2), 8);
    assert_eq!(magicalWell(1, 1, 3), 14);
    assert_eq!(magicalWell(5, 7, 0), 0);
    assert_eq!(magicalWell(5, 7, -4), 0);
    assert_eq!(magicalWell(-2, 3, 3), -10);
}
