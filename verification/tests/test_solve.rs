use rush::board::Board;
use rush::piece::{Orientation, Piece};
use rush::solve::bfs;

#[test]
fn test_with_one_piece() {
    let primary_piece = Piece {
        val: 'A',
        p: 0,
        row: 1,
        size: 2,
        orientation: Orientation::Horizontal,
    };
    let mut board = Board::new(4, 4, primary_piece);

    let (solved, solution) = bfs(&mut board);
    assert_eq!(solved, true);
    assert_eq!(solution, vec![(0, 2)]);
}

#[test]
fn test_with_two_pieces() {
    let primary_piece = Piece {
        val: 'A',
        p: 0,
        row: 0,
        size: 2,
        orientation: Orientation::Horizontal,
    };
    let mut board = Board::new(4, 4, primary_piece);

    let piece: Piece = Piece {
        val: 'B',
        p: 0,
        row: 3,
        size: 3,
        orientation: Orientation::Vertical,
    };
    board.add_piece(&piece);

    let (solved, solution) = bfs(&mut board);
    assert_eq!(solved, true);
    assert_eq!(solution, vec![(1, 1), (0, 2)]);
}

#[test]
fn test_solved() {
    let primary_piece = Piece {
        val: 'A',
        p: 2,
        row: 1,
        size: 2,
        orientation: Orientation::Horizontal,
    };
    let mut board = Board::new(4, 4, primary_piece);

    let (solved, solution) = bfs(&mut board);
    assert_eq!(solved, true);
    assert_eq!(solution, vec![]);
}

#[test]
fn test_unsolvable_puzzle() {
    let primary_piece = Piece {
        val: 'A',
        p: 0,
        row: 1,
        size: 2,
        orientation: Orientation::Horizontal,
    };
    let mut board = Board::new(4, 4, primary_piece);
    board.add_wall(3, 1);

    let (solved, solution) = bfs(&mut board);
    assert_eq!(solved, false);
    assert_eq!(solution, vec![]);
}

#[test]
fn test_unsolvable_puzzle_2() {
    let primary_piece = Piece {
        val: 'A',
        p: 0,
        row: 1,
        size: 2,
        orientation: Orientation::Horizontal,
    };
    let mut board = Board::new(4, 4, primary_piece);

    let piece: Piece = Piece {
        val: 'B',
        p: 2,
        row: 1,
        size: 2,
        orientation: Orientation::Horizontal,
    };
    board.add_piece(&piece);

    let (solved, solution) = bfs(&mut board);
    assert_eq!(solved, false);
    assert_eq!(solution, vec![]);
}

#[test]
fn test_piece_contains_horizontal() {
    let piece = Piece {
        val: 'A',
        p: 1,
        row: 2,
        size: 2,
        orientation: Orientation::Horizontal,
    };
    assert!(piece.is_horizontal());
    assert!(piece.contains(1, 2));
    assert!(piece.contains(2, 2));
    assert!(!piece.contains(3, 2));
    assert!(!piece.contains(0, 2));
    assert!(!piece.contains(1, 1));
}

#[test]
fn test_piece_contains_vertical() {
    let piece = Piece {
        val: 'B',
        p: 0,
        row: 3,
        size: 3,
        orientation: Orientation::Vertical,
    };
    assert!(!piece.is_horizontal());
    assert!(piece.contains(3, 0));
    assert!(piece.contains(3, 1));
    assert!(piece.contains(3, 2));
    assert!(!piece.contains(3, 3));
    assert!(!piece.contains(2, 0));
}

#[test]
fn test_solved_goal_condition() {
    let primary_piece = Piece {
        val: 'A',
        p: 1,
        row: 0,
        size: 2,
        orientation: Orientation::Horizontal,
    };
    let mut board = Board::new(4, 4, primary_piece);
    assert!(!board.solved());
    board.move_piece(0, 1);
    assert_eq!(board.get_primary_piece().p, 2);
    assert!(board.solved());
}

#[test]
fn test_movements_free_row() {
    let primary_piece = Piece {
        val: 'A',
        p: 1,
        row: 1,
        size: 2,
        orientation: Orientation::Horizontal,
    };
    let board = Board::new(4, 4, primary_piece);
    let moves = board.movements();
    assert_eq!(moves, vec![(0, -1), (0, 1)]);
}

#[test]
fn test_movements_blocked_by_wall() {
    let primary_piece = Piece {
        val: 'A',
        p: 0,
        row: 1,
        size: 2,
        orientation: Orientation::Horizontal,
    };
    let mut board = Board::new(4, 4, primary_piece);
    board.add_wall(3, 1);
    let moves = board.movements();
    assert_eq!(moves, vec![(0, 1)]);
}

#[test]
fn test_is_free() {
    let primary_piece = Piece {
        val: 'A',
        p: 0,
        row: 1,
        size: 2,
        orientation: Orientation::Horizontal,
    };
    let mut board = Board::new(4, 4, primary_piece);
    board.add_wall(3, 3);
    assert!(!board.is_free(0, 1));
    assert!(!board.is_free(1, 1));
    assert!(!board.is_free(3, 3));
    assert!(board.is_free(2, 1));
    assert!(board.is_free(0, 0));
}

#[test]
fn test_positions_and_update() {
    let primary_piece = Piece {
        val: 'A',
        p: 0,
        row: 0,
        size: 2,
        orientation: Orientation::Horizontal,
    };
    let mut board = Board::new(4, 4, primary_piece);
    let piece = Piece {
        val: 'B',
        p: 1,
        row: 3,
        size: 2,
        orientation: Orientation::Vertical,
    };
    board.add_piece(&piece);
    assert_eq!(board.positions(), vec![0, 1]);
    board.update_positions(&vec![2, 0]);
    assert_eq!(board.positions(), vec![2, 0]);
    assert_eq!(board.get_piece(1).p, 0);
}

#[test]
fn test_from_string_valid() {
    let board = Board::from_string(String::from(".AAB..B..")).unwrap();
    let primary = board.get_primary_piece();
    assert_eq!(primary.val, 'A');
    assert!(primary.is_horizontal());
    assert_eq!(primary.p, 1);
    assert_eq!(primary.row, 0);
    assert_eq!(primary.size, 2);
    let other = board.get_piece(1);
    assert_eq!(other.val, 'B');
    assert!(!other.is_horizontal());
    assert_eq!(other.p, 1);
    assert_eq!(other.row, 0);
    assert_eq!(other.size, 2);
}

#[test]
fn test_from_string_solves() {
    let mut board = Board::from_string(String::from(
        "AA..\
         x...\
         ....\
         ....",
    ))
    .unwrap();
    let (solved, solution) = bfs(&mut board);
    assert_eq!(solved, true);
    assert_eq!(solution, vec![(0, 2)]);
}

#[test]
fn test_from_string_with_walls_unsolvable() {
    let mut board = Board::from_string(String::from(
        "....\
         AA.x\
         ....\
         ....",
    ))
    .unwrap();
    let (solved, solution) = bfs(&mut board);
    assert_eq!(solved, false);
    assert_eq!(solution, vec![]);
}

#[test]
fn test_from_string_bad_length() {
    assert!(Board::from_string(String::from("AAA..")).is_err());
}

#[test]
fn test_from_string_bad_character() {
    assert!(Board::from_string(String::from("aAA.")).is_err());
}

#[test]
fn test_from_string_reused_letter() {
    assert!(Board::from_string(String::from("AABBBB..........")).is_err());
}

#[test]
fn test_from_string_size_one_piece() {
    assert!(Board::from_string(String::from("AAB......")).is_err());
}

#[test]
fn test_from_string_vertical_primary() {
    assert!(Board::from_string(String::from("A.A.")).is_err());
}

#[test]
fn test_from_string_no_primary() {
    assert!(Board::from_string(String::from("BB..")).is_err());
}

#[test]
fn test_same_move_count_on_reruns() {
    let mut board = Board::from_string(String::from(
        "AA.B\
         ...B\
         ..CC\
         ....",
    ))
    .unwrap();
    let (solved1, solution1) = bfs(&mut board);
    let (solved2, solution2) = bfs(&mut board);
    assert!(solved1 && solved2);
    assert_eq!(solution1.len(), solution2.len());
}

#[test]
fn test_moves_preserve_invariants() {
    let primary_piece = Piece {
        val: 'A',
        p: 0,
        row: 0,
        size: 2,
        orientation: Orientation::Horizontal,
    };
    let mut board = Board::new(4, 4, primary_piece);
    let piece = Piece {
        val: 'B',
        p: 0,
        row: 3,
        size: 3,
        orientation: Orientation::Vertical,
    };
    board.add_piece(&piece);
    board.add_wall(2, 2);

    for (piece_id, d) in board.movements() {
        let mut after = board.clone();
        after.move_piece(piece_id, d);
        for y in 0..4usize {
            for x in 0..4usize {
                let mut covered = 0;
                for pc in &after.pieces {
                    if pc.contains(x, y) {
                        covered += 1;
                    }
                }
                if x == 2 && y == 2 {
                    assert_eq!(covered, 0, "piece overlaps the wall at ({}, {})", x, y);
                } else {
                    assert!(covered <= 1, "pieces overlap at ({}, {})", x, y);
                }
            }
        }
        for pc in &after.pieces {
            assert!(pc.p + pc.size <= 4);
            assert!(pc.row < 4);
        }
    }
}

#[test]
fn test_from_string_records_walls() {
    let board = Board::from_string(String::from("AAxo")).unwrap();
    assert!(!board.is_free(0, 0));
    assert!(!board.is_free(1, 0));
    assert!(!board.is_free(0, 1));
    assert!(board.is_free(1, 1));
}
