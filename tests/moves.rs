use checkers_lib::position;
use checkers_lib::{Board, BoardBuilder, CheckersMove, Error, Piece, Position, RulesError};

fn pos(n: u8) -> Position {
    Position::from_notation(n).unwrap()
}

fn at(x: usize, y: usize) -> Position {
    Position::from_coords(x, y).unwrap()
}

fn board(template: [[u8; 8]; 8]) -> Board {
    BoardBuilder::try_from_template(template).unwrap().build()
}

fn fork_board() -> Board {
    board([
        [0, 0, 0, 0, 0, 0, 0, 0],
        [0, 0, 0, 0, 0, 0, 0, 0],
        [0, 2, 0, 2, 0, 2, 0, 0],
        [0, 0, 0, 0, 0, 0, 0, 0],
        [0, 0, 0, 2, 0, 0, 0, 0],
        [0, 0, 1, 0, 0, 0, 0, 0],
        [0, 0, 0, 0, 0, 0, 0, 0],
        [0, 0, 0, 0, 0, 0, 0, 0],
    ])
}

#[test]
fn forced_capture_keeps_only_captures() {
    let b = board([
        [0, 0, 0, 0, 0, 0, 0, 0],
        [0, 0, 0, 0, 0, 0, 0, 0],
        [0, 0, 0, 0, 0, 0, 0, 0],
        [0, 0, 0, 0, 0, 0, 0, 0],
        [0, 0, 0, 2, 0, 0, 0, 0],
        [0, 0, 1, 0, 0, 0, 1, 0],
        [0, 0, 0, 0, 0, 0, 0, 0],
        [0, 0, 0, 0, 0, 0, 0, 0],
    ]);
    let all = b.all_possible_moves(true);
    assert_eq!(all.len(), 3);
    let capturing = all.iter().filter(|m| !m.captures().is_empty()).count();
    assert_eq!(capturing, 1);
    let legal = b.legal_moves(true);
    assert_eq!(legal.len(), capturing);
    assert!(legal.iter().all(|m| !m.captures().is_empty()));
    assert_eq!(legal[0].captures(), &vec![at(3, 4)]);
}

#[test]
fn without_captures_all_moves_are_legal() {
    let b = BoardBuilder::default().build();
    assert_eq!(b.all_possible_moves(true).len(), 7);
    assert_eq!(b.legal_moves(true).len(), 7);
    assert_eq!(b.legal_moves(false).len(), 7);
    assert!(b.legal_moves(true).iter().all(|m| m.captures().is_empty()));
}

#[test]
fn single_capture_removes_the_jumped_man() {
    let b = board([
        [0, 0, 0, 0, 0, 0, 0, 0],
        [0, 0, 0, 0, 0, 0, 0, 0],
        [0, 0, 0, 0, 0, 0, 0, 0],
        [0, 0, 0, 0, 0, 0, 0, 0],
        [0, 0, 0, 2, 0, 0, 0, 0],
        [0, 0, 1, 0, 0, 0, 0, 0],
        [0, 0, 0, 0, 0, 0, 0, 0],
        [0, 0, 0, 0, 0, 0, 0, 0],
    ]);
    let legal = b.legal_moves(true);
    assert_eq!(legal.len(), 1);
    assert_eq!(legal[0].captures().len(), 1);
    let after = b.applied_move(&legal[0]).unwrap();
    assert_eq!(after.get_tile(at(3, 4)), None);
    assert_eq!(after.get_tile(at(2, 5)), None);
    assert_eq!(after.get_tile(at(4, 3)), Some(Piece::new(false, true, at(4, 3))));
}

#[test]
fn fork_yields_both_chains_without_repeats() {
    let moves = fork_board().legal_moves(true);
    assert_eq!(moves.len(), 2);
    let mut lengths: Vec<usize> = moves.iter().map(|m| m.captures().len()).collect();
    lengths.sort();
    assert_eq!(lengths, vec![2, 3]);
    for m in &moves {
        let caps = m.captures();
        for i in 0..caps.len() {
            for j in 0..caps.len() {
                if i != j {
                    assert_ne!(caps[i], caps[j]);
                }
            }
        }
    }
}

#[test]
fn promotion_by_simple_move() {
    let b = board([
        [0, 0, 0, 0, 0, 0, 0, 0],
        [1, 0, 0, 0, 0, 0, 0, 0],
        [0, 0, 0, 0, 0, 0, 0, 0],
        [0, 0, 0, 0, 0, 0, 0, 0],
        [0, 0, 0, 0, 0, 0, 0, 0],
        [0, 0, 0, 0, 0, 0, 0, 0],
        [0, 0, 0, 0, 0, 0, 0, 0],
        [0, 0, 0, 0, 0, 0, 0, 0],
    ]);
    let moves = b.legal_moves(true);
    assert_eq!(moves.len(), 1);
    assert_eq!(moves[0].old_piece(), Piece::new(false, true, pos(5)));
    assert_eq!(moves[0].new_piece(), Piece::new(true, true, pos(1)));
}

#[test]
fn king_slides_and_stays_king() {
    let b = board([
        [0, 0, 0, 0, 0, 0, 0, 0],
        [0, 0, 0, 0, 0, 0, 0, 0],
        [0, 0, 0, 0, 0, 0, 0, 0],
        [0, 0, 0, 0, 0, 0, 0, 0],
        [0, 0, 0, 0, 0, 0, 0, 0],
        [0, 0, 0, 0, 0, 0, 0, 0],
        [0, 0, 0, 0, 0, 0, 0, 0],
        [3, 0, 0, 0, 0, 0, 0, 0],
    ]);
    let moves = b.legal_moves(true);
    assert_eq!(moves.len(), 7);
    for (i, m) in moves.iter().enumerate() {
        assert!(m.new_piece().is_king);
        assert_eq!(m.new_piece().position, at(1 + i, 6 - i));
    }
}

#[test]
fn king_captures_from_a_distance_and_slides_on() {
    let b = board([
        [0, 0, 0, 0, 0, 0, 0, 0],
        [0, 0, 0, 0, 0, 0, 0, 0],
        [0, 0, 0, 0, 0, 0, 0, 0],
        [0, 0, 0, 0, 0, 0, 0, 0],
        [0, 0, 0, 2, 0, 0, 0, 0],
        [0, 0, 0, 0, 0, 0, 0, 0],
        [0, 0, 0, 0, 0, 0, 0, 0],
        [3, 0, 0, 0, 0, 0, 0, 0],
    ]);
    let moves = b.legal_moves(true);
    assert_eq!(moves.len(), 4);
    for (i, m) in moves.iter().enumerate() {
        assert_eq!(m.captures(), &vec![at(3, 4)]);
        assert_eq!(m.new_piece(), Piece::new(true, true, at(4 + i, 3 - i)));
    }
}

#[test]
fn step_errors_are_exact() {
    let b = board([
        [0, 0, 0, 0, 0, 0, 0, 0],
        [0, 0, 0, 0, 0, 0, 0, 0],
        [0, 0, 0, 0, 0, 0, 0, 0],
        [0, 0, 0, 0, 0, 0, 0, 0],
        [0, 1, 0, 0, 0, 0, 0, 0],
        [1, 0, 0, 0, 0, 0, 0, 0],
        [0, 0, 0, 0, 0, 0, 0, 0],
        [0, 0, 0, 0, 0, 0, 0, 0],
    ]);
    let man = b.get_tile(at(0, 5)).unwrap();
    assert_eq!(man.moves(&b, (1, 1)).unwrap_err(), Error::Rules(RulesError::NotKing(at(0, 5))));
    assert_eq!(man.moves(&b, (1, -1)).unwrap_err(), Error::Rules(RulesError::Occupied(at(1, 4))));
    assert_eq!(
        man.moves(&b, (-1, -1)).unwrap_err(),
        Error::Position(position::Error::OutOfBounds)
    );
    let other = b.get_tile(at(1, 4)).unwrap();
    let steps = other.moves(&b, (1, -1)).unwrap();
    assert_eq!(steps.len(), 1);
    assert_eq!(steps[0].new_piece().position, at(2, 3));
}

#[test]
fn capture_errors_are_exact() {
    let b = board([
        [0, 0, 0, 0, 0, 0, 0, 0],
        [0, 0, 0, 0, 0, 0, 0, 0],
        [0, 0, 0, 0, 0, 0, 0, 0],
        [0, 0, 0, 0, 2, 0, 0, 0],
        [0, 1, 0, 2, 0, 0, 0, 0],
        [0, 0, 1, 0, 0, 0, 0, 0],
        [0, 0, 0, 0, 0, 0, 0, 0],
        [0, 0, 0, 0, 0, 0, 0, 0],
    ]);
    let man = b.get_tile(at(2, 5)).unwrap();
    assert_eq!(
        man.capture_in_direction(&b, (-1, -1)).unwrap_err(),
        Error::Rules(RulesError::SameColorCapture {
            capturing_pos: at(2, 5),
            captured_pos: at(1, 4),
            is_white: true,
        })
    );
    assert_eq!(
        man.capture_in_direction(&b, (1, -1)).unwrap_err(),
        Error::Rules(RulesError::Occupied(at(4, 3)))
    );
    assert_eq!(
        man.capture_in_direction(&b, (1, 1)).unwrap_err(),
        Error::Rules(RulesError::Empty(at(3, 6)))
    );
    let edge = b.get_tile(at(1, 4)).unwrap();
    assert_eq!(
        edge.capture_in_direction(&b, (-1, -1)).unwrap_err(),
        Error::Position(position::Error::OutOfBounds)
    );
}

#[test]
fn apply_move_checks_and_leaves_board_alone_on_failure() {
    let b = fork_board();
    let m = b.legal_moves(true).into_iter().next().unwrap();
    let mut empty = BoardBuilder::empty().build();
    assert_eq!(empty.apply_move(&m), Err(RulesError::Empty(at(2, 5))));

    // The moving piece is there, a captured one is not.
    let partial = board([
        [0, 0, 0, 0, 0, 0, 0, 0],
        [0, 0, 0, 0, 0, 0, 0, 0],
        [0, 0, 0, 0, 0, 0, 0, 0],
        [0, 0, 0, 0, 0, 0, 0, 0],
        [0, 0, 0, 2, 0, 0, 0, 0],
        [0, 0, 1, 0, 0, 0, 0, 0],
        [0, 0, 0, 0, 0, 0, 0, 0],
        [0, 0, 0, 0, 0, 0, 0, 0],
    ]);
    let mut target = partial;
    assert!(matches!(target.apply_move(&m), Err(RulesError::Empty(_))));
    assert_eq!(target, partial);

    let unchecked = partial.applied_move_unchecked(&m);
    assert_eq!(unchecked.get_tile(at(2, 5)), None);
    assert_eq!(unchecked.get_tile(at(3, 4)), None);
    assert_eq!(unchecked.get_tile(m.new_piece().position), Some(m.new_piece()));
}

#[test]
fn notation_of_moves() {
    let piece = Piece { is_king: false, is_white: true, position: 29.try_into().unwrap() };
    let b = BoardBuilder::empty().try_insert(piece).unwrap().build();
    let test_move = &b.all_possible_moves(true)[0];

    assert_eq!(test_move.to_string::<u8>(false), "29-25");
    assert_eq!(test_move.to_string::<(usize, usize)>(false), "(0, 7)-(1, 6)");
    assert_eq!(test_move.to_string::<u8>(true), "29-25");

    let capture = CheckersMove::arbitrary(
        Piece::new(false, true, pos(22)),
        Piece::new(false, true, pos(15)),
        vec![pos(18)],
    );
    assert_eq!(capture.to_string::<u8>(true), "22x15");
    assert_eq!(capture.to_string::<u8>(false), "22x18x15");
    assert_eq!(capture.to_string::<(usize, usize)>(false), "(2, 5)x(3, 4)x(4, 3)");
}

#[test]
fn chain_notation_lists_captured_squares() {
    let moves = fork_board().legal_moves(true);
    let long = moves.iter().find(|m| m.captures().len() == 3).unwrap();
    assert_eq!(long.to_string::<u8>(true), "22x13");
    assert_eq!(long.to_string::<u8>(false), "22x9x10x18x13");
}

#[test]
fn move_equality_ignores_capture_order() {
    let a = CheckersMove::arbitrary(
        Piece::new(false, true, pos(22)),
        Piece::new(false, true, pos(13)),
        vec![pos(9), pos(10), pos(18)],
    );
    let b = CheckersMove::arbitrary(
        Piece::new(false, true, pos(22)),
        Piece::new(false, true, pos(13)),
        vec![pos(18), pos(9), pos(10)],
    );
    let c = CheckersMove::arbitrary(
        Piece::new(false, true, pos(22)),
        Piece::new(false, true, pos(13)),
        vec![pos(18), pos(9)],
    );
    assert_eq!(a, b);
    assert_ne!(a, c);
}

#[test]
fn board_rows_show_pieces_on_dark_squares() {
    let b = BoardBuilder::default().build();
    let rows = b.iter();
    assert_eq!(rows.len(), 8);
    assert_eq!(rows[0][1], Some(Piece::new(false, false, pos(1))));
    assert_eq!(rows[0][0], None);
    assert_eq!(rows[7][0], Some(Piece::new(false, true, pos(29))));
    assert_eq!(rows[4][1], None);
}

#[test]
fn checked_and_unchecked_application_agree() {
    let b = fork_board();
    for m in b.legal_moves(true) {
        assert_eq!(b.applied_move(&m).unwrap(), b.applied_move_unchecked(&m));
        let caps = m.captures();
        for i in 0..caps.len() {
            for j in (i + 1)..caps.len() {
                assert_ne!(caps[i], caps[j]);
            }
        }
    }
}

#[test]
fn capturing_the_starting_square_fails() {
    let b = board([
        [0, 0, 0, 0, 0, 0, 0, 0],
        [0, 0, 0, 0, 0, 0, 0, 0],
        [0, 0, 0, 0, 0, 0, 0, 0],
        [0, 0, 0, 0, 0, 0, 0, 0],
        [0, 0, 0, 2, 0, 0, 0, 0],
        [0, 0, 1, 0, 0, 0, 0, 0],
        [0, 0, 0, 0, 0, 0, 0, 0],
        [0, 0, 0, 0, 0, 0, 0, 0],
    ]);
    let m = CheckersMove::arbitrary(
        Piece::new(false, true, at(2, 5)),
        Piece::new(false, true, at(4, 3)),
        vec![at(3, 4), at(2, 5)],
    );
    let mut target = b;
    assert_eq!(target.apply_move(&m), Err(RulesError::Empty(at(2, 5))));
    assert_eq!(target, b);
}
