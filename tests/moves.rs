use chess_triangle::{Piece, PieceType, Point};

fn moves_of(kind: PieceType, x: i32, y: i32, w: i32, h: i32) -> Vec<Point> {
    let piece = Piece {
        p: Point(x, y),
        piece_type: kind,
    };
    piece.next_moves(&Point(w, h))
}

#[test]
fn knight_moves() {
    let p = Piece {
        p: Point(1, 1),
        piece_type: PieceType::Knight,
    };
    let board_size = Point(4, 4);
    let moves = p.next_moves(&board_size);
    let expected = vec![Point(0, 3), Point(2, 3), Point(3, 0), Point(3, 2)];
    assert_eq!(moves, expected);
}

#[test]
fn bishop_moves_simple() {
    let p = Piece {
        p: Point(0, 0),
        piece_type: PieceType::Bishop,
    };
    let board_size = Point(3, 3);
    let moves = p.next_moves(&board_size);
    let expected = vec![Point(1, 1), Point(2, 2)];
    assert_eq!(moves, expected);
}

#[test]
fn bishop_moves_middle() {
    let p = Piece {
        p: Point(2, 2),
        piece_type: PieceType::Bishop,
    };
    let board_size = Point(5, 5);
    let moves = p.next_moves(&board_size);
    let expected = vec![
        Point(1, 1),
        Point(0, 0),
        Point(1, 3),
        Point(0, 4),
        Point(3, 1),
        Point(4, 0),
        Point(3, 3),
        Point(4, 4),
    ];
    assert_eq!(moves, expected);
}

#[test]
fn rook_moves() {
    let p = Piece {
        p: Point(2, 2),
        piece_type: PieceType::Rook,
    };
    let board_size = Point(5, 5);
    let moves = p.next_moves(&board_size);
    let expected = vec![
        Point(1, 2),
        Point(0, 2),
        Point(2, 1),
        Point(2, 0),
        Point(3, 2),
        Point(4, 2),
        Point(2, 3),
        Point(2, 4),
    ];
    assert_eq!(moves, expected);
}

#[test]
fn knight_in_the_middle_has_eight_moves() {
    let moves = moves_of(PieceType::Knight, 2, 2, 5, 5);
    let expected = vec![
        Point(0, 1),
        Point(0, 3),
        Point(1, 0),
        Point(1, 4),
        Point(3, 0),
        Point(3, 4),
        Point(4, 1),
        Point(4, 3),
    ];
    assert_eq!(moves, expected);
}

#[test]
fn knight_on_small_board_has_no_moves() {
    assert!(moves_of(PieceType::Knight, 0, 0, 2, 2).is_empty());
    assert!(moves_of(PieceType::Knight, 1, 1, 3, 3).is_empty());
}

#[test]
fn sliders_on_one_wide_board() {
    assert!(moves_of(PieceType::Bishop, 0, 3, 1, 6).is_empty());
    assert_eq!(
        moves_of(PieceType::Rook, 0, 1, 1, 3),
        vec![Point(0, 0), Point(0, 2)]
    );
}

#[test]
fn rook_moves_on_non_square_board() {
    let rook = Piece::new(Point(1, 0), PieceType::Rook);
    assert_eq!(
        rook.rook_moves(&Point(3, 2)),
        vec![Point(0, 0), Point(2, 0), Point(1, 1)]
    );
}

#[test]
fn piece_off_board_has_no_moves() {
    assert!(moves_of(PieceType::Rook, -1, 7, 4, 4).is_empty());
    assert!(moves_of(PieceType::Bishop, i32::MAX, i32::MIN, 4, 4).is_empty());
    assert!(moves_of(PieceType::Knight, i32::MAX, i32::MAX, 4, 4).is_empty());
}

#[test]
fn moves_stay_on_board_without_repeats() {
    let (w, h) = (5, 3);
    for kind in [PieceType::Knight, PieceType::Bishop, PieceType::Rook] {
        for x in 0..w {
            for y in 0..h {
                let moves = moves_of(kind, x, y, w, h);
                for (i, q) in moves.iter().enumerate() {
                    assert!(q.0 >= 0 && q.0 < w && q.1 >= 0 && q.1 < h);
                    assert!(!moves[i + 1..].contains(q));
                }
            }
        }
    }
}

#[test]
fn can_attack_follows_moves() {
    let bishop = Piece::new(Point(0, 0), PieceType::Bishop);
    assert!(bishop.can_attack(&Point(2, 2), &Point(3, 3)));
    assert!(!bishop.can_attack(&Point(0, 2), &Point(3, 3)));
    assert!(!bishop.can_attack(&Point(0, 0), &Point(3, 3)));
    let rook = Piece::new(Point(0, 0), PieceType::Rook);
    assert!(rook.can_attack(&Point(0, 2), &Point(3, 3)));
    assert!(!rook.can_attack(&Point(0, 3), &Point(3, 3)));
}

#[test]
fn try_new_checks_bounds() {
    let b = Point(3, 2);
    assert_eq!(Point::try_new(2, 1, &b), Some(Point(2, 1)));
    assert_eq!(Point::try_new(3, 1, &b), None);
    assert_eq!(Point::try_new(0, 2, &b), None);
    assert_eq!(Point::try_new(-1, 0, &b), None);
    assert_eq!(Point::try_from_pt(Point(0, 0), &b), Some(Point(0, 0)));
    assert_eq!(Point::try_from_pt(Point(1, -1), &b), None);
}

#[test]
fn points_order_by_x_then_y() {
    assert!(Point(1, 5) < Point(2, 0));
    assert!(Point(2, 0) < Point(2, 1));
    assert!(Point(3, 0) > Point(2, 9));
    assert_eq!(
        Point(4, 4).partial_cmp(&Point(4, 4)),
        Some(std::cmp::Ordering::Equal)
    );
}
