use std::collections::HashMap;

use samegame_sfc::{Action, ActionError, Board, Col, MaskBoard, Piece, Position, Row, Square};

fn sq_new(c: u8, r: u8) -> Square {
    Square::new(Col::from_inner(c).unwrap(), Row::from_inner(r).unwrap())
}

fn parse_board(s: &str) -> Board {
    s.parse().unwrap()
}

fn pos_do_action(pos: &Position, sq: Square) -> Position {
    let action = Action::from_board_square(pos.board(), sq).unwrap();
    pos.do_action(&action)
}

const START: &str = "\
1......2
155....2
111.4..2
12144..1
12133.51
12135551
";

#[test]
fn test_position() {
    assert_eq!(Position::new(Board::empty()).key(), 0);

    let pos_start = Position::new(parse_board(START));
    let pos = pos_do_action(&pos_start, sq_new(2, 5));
    let pos = pos_do_action(&pos, sq_new(1, 1));

    let pos_expect = Position::new(parse_board(
        "\
.....2..
.....2..
..4..2..
244..1..
233.51..
235551..
",
    ));
    assert_eq!(pos.board(), pos_expect.board());
    assert_eq!(pos.key(), pos_expect.key());
    for piece in Piece::all() {
        assert_eq!(pos.piece_count(piece), pos_expect.piece_count(piece));
    }
}

#[test]
fn test_hash() {
    let pos1 = Position::new(parse_board(START));
    let pos2 = Position::new(parse_board(
        "\
......2.
......2.
5..4..2.
2.44..1.
2.33.51.
2535551.
",
    ));
    let pos3 = Position::new(parse_board(
        "\
1......2
1......2
111.4..2
12144..1
12133.51
12135551
",
    ));

    let mut map = HashMap::<Position, u32>::default();
    map.insert(pos1.clone(), 1);
    map.insert(pos2.clone(), 2);
    map.insert(pos3.clone(), 3);

    assert_eq!(map.get(&pos1), Some(&1));
    assert_eq!(map.get(&pos2), Some(&2));
    assert_eq!(map.get(&pos3), Some(&3));
}

#[test]
fn test_position_empty_board() {
    let pos = Position::new(Board::empty());
    assert!(!pos.has_action());
    assert!(pos.actions().is_empty());
    assert!(pos.board().is_empty());
    assert_eq!(pos.gain_upper_bound(), 200);
    assert_eq!(pos.key(), 0);
    for piece in Piece::all() {
        assert_eq!(pos.piece_count(piece), 0);
    }
}

#[test]
fn test_position_isolated_singletons() {
    let pos = Position::new(parse_board(
        "\
........
........
........
........
........
12345...
",
    ));
    assert!(!pos.has_action());
    assert!(pos.actions().is_empty());
    assert!(!pos.board().is_empty());
    assert_eq!(pos.gain_upper_bound(), 0);
}

#[test]
fn test_position_gain_upper_bound_values() {
    // 14 ones, 6 twos, 3 threes, 3 fours and 6 fives: 169 + 25 + 4 + 4 + 25 + 200.
    let pos = Position::new(parse_board(START));
    assert_eq!(pos.piece_count(Piece::from_inner(1).unwrap()), 14);
    assert_eq!(pos.piece_count(Piece::from_inner(2).unwrap()), 6);
    assert_eq!(pos.piece_count(Piece::from_inner(3).unwrap()), 3);
    assert_eq!(pos.piece_count(Piece::from_inner(4).unwrap()), 3);
    assert_eq!(pos.piece_count(Piece::from_inner(5).unwrap()), 6);
    assert_eq!(pos.gain_upper_bound(), 169 + 25 + 4 + 4 + 25 + 200);

    // A lone three takes the bonus away: 1 + 1.
    let pos = Position::new(parse_board(
        "\
........
........
........
........
........
11322...
",
    ));
    assert_eq!(pos.gain_upper_bound(), 2);
}

#[test]
fn test_position_actions_order() {
    let pos = Position::new(parse_board(START));
    let actions = pos.actions();
    let listed: Vec<(u8, Square, u32)> = actions
        .iter()
        .map(|a| (a.piece().to_inner(), a.least_square(), a.square_count()))
        .collect();
    assert_eq!(
        listed,
        vec![
            (1, sq_new(1, 1), 11),
            (1, sq_new(8, 1), 3),
            (2, sq_new(2, 1), 3),
            (2, sq_new(8, 4), 3),
            (3, sq_new(4, 1), 3),
            (4, sq_new(4, 3), 3),
            (5, sq_new(2, 5), 2),
            (5, sq_new(5, 1), 4),
        ]
    );
    for action in &actions {
        assert_eq!(action.gain(), (action.square_count() - 1) * (action.square_count() - 1));
        assert_eq!(action.mask().square_count(), action.square_count());
        assert_eq!(action.mask().least_square(), Some(action.least_square()));
    }
}

#[test]
fn test_position_key_follows_any_path() {
    let start = Position::new(parse_board(START));
    let a = pos_do_action(&pos_do_action(&start, sq_new(1, 1)), sq_new(7, 4));
    let b = pos_do_action(&pos_do_action(&start, sq_new(8, 4)), sq_new(1, 1));
    assert_eq!(a.board(), b.board());
    assert_eq!(a.key(), b.key());
    assert_eq!(a, b);
    assert_eq!(a, Position::new(*a.board()));
    assert_ne!(a.key(), start.key());
}

#[test]
fn test_action_from_board_square_errors() {
    let board = parse_board(START);
    assert_eq!(
        Action::from_board_square(&board, sq_new(4, 4)),
        Err(ActionError::NoPiece)
    );
    let lone = parse_board(
        "\
........
........
........
........
.3......
1211....
",
    );
    assert_eq!(
        Action::from_board_square(&lone, sq_new(1, 1)),
        Err(ActionError::Isolated)
    );
    assert_eq!(
        Action::from_board_square(&lone, sq_new(2, 2)),
        Err(ActionError::Isolated)
    );
    assert!(Action::from_board_square(&lone, sq_new(3, 1)).is_ok());
    let action = Action::from_board_square(&board, sq_new(3, 4)).unwrap();
    assert_eq!(action.piece(), Piece::from_inner(1).unwrap());
    assert_eq!(action.square_count(), 11);
    assert_eq!(action.gain(), 100);
    assert_eq!(action.least_square(), sq_new(1, 1));
    assert_eq!(action, Action::from_board_square_unchecked(&board, sq_new(1, 6)));
    let mb: MaskBoard = "\
*.......
*.......
***.....
*.*.....
*.*.....
*.*.....
"
    .parse()
    .unwrap();
    assert_eq!(action.mask(), &mb);
    assert_eq!(action, Action::new(Piece::from_inner(1).unwrap(), mb));
}
