use samegame_sfc::solver::final_gain;
use samegame_sfc::{Action, ActionHistory, Board, Position, Solver};

fn parse_board(s: &str) -> Board {
    s.parse().unwrap()
}

/// Plays the record on the board and returns the score with the bonus, if the record
/// is a whole game.
fn replay(board: Board, history: &ActionHistory) -> Option<u32> {
    let mut pos = Position::new(board);
    let mut score = 0;
    for sq in history.as_slice() {
        let action = Action::from_board_square(pos.board(), sq).ok()?;
        assert_eq!(action.least_square(), sq);
        score += action.gain();
        pos = pos.do_action(&action);
    }
    final_gain(&pos).map(|gain| score + gain)
}

fn solve(board: &str, prune_score_max: u32) -> Option<(u32, String)> {
    let board = parse_board(board);
    let mut solver = Solver::new(prune_score_max);
    let res = solver.solve(board);
    assert_eq!(solver.prune_score_max(), prune_score_max);
    res.map(|(score, history)| {
        assert_eq!(replay(board, &history), Some(score));
        (score, history.to_string())
    })
}

#[test]
fn test_solve_two_pieces() {
    // The one move clears the board: 1 for the move and 200 for the clear board.
    let res = solve(
        "\
........
........
........
........
........
11......
",
        0,
    );
    assert_eq!(res, Some((201, "1,1".to_string())));
}

#[test]
fn test_solve_small_boards() {
    let cases = [
        (
            "\
........
........
........
........
12......
1221....
",
            208,
            "2,1 1,1",
        ),
        (
            "\
........
........
........
.1......
.21.....
1221....
",
            213,
            "2,1 1,1",
        ),
        (
            "\
........
........
........
3.......
12.3....
1223....
",
            209,
            "1,1 2,1 1,1",
        ),
        (
            "\
........
........
........
....3...
12.133..
1221311.
",
            238,
            "2,1 3,1 1,1",
        ),
        (
            "\
........
........
..2.....
..12....
.1121...
12211233
",
            247,
            "2,1 1,1 1,1 1,1",
        ),
    ];
    for (board, score, history) in cases {
        assert_eq!(solve(board, 0), Some((score, history.to_string())));
    }
}

#[test]
fn test_solve_terminal_boards() {
    // A clear board is a game of no move that scores the bonus.
    let mut solver = Solver::new(0);
    let res = solver.solve(Board::empty());
    assert_eq!(res, Some((200, ActionHistory::new())));
    // A board with no move and pieces left scores nothing: nothing is found.
    assert_eq!(
        solve(
            "\
........
........
........
........
........
12345...
",
            0
        ),
        None
    );
}

#[test]
fn test_solve_with_prune_threshold() {
    let board = "\
........
........
..2.....
..12....
.1121...
12211233
";
    // Below the best score the threshold changes nothing of the score.
    for limit in [1, 100, 200, 246] {
        let res = solve(board, limit).unwrap();
        assert_eq!(res.0, 247);
    }
    // At or above the best score nothing better than the threshold is found.
    for limit in [247, 261, 262, 1000] {
        if let Some((score, _)) = solve(board, limit) {
            assert!(score <= 247);
        }
    }
    assert_eq!(solve(board, 262), None);
}

#[test]
fn test_solver_threshold_setters() {
    let mut solver = Solver::new(10);
    assert_eq!(solver.prune_score_max(), 10);
    solver.chmax_prune_score_max(5);
    assert_eq!(solver.prune_score_max(), 10);
    solver.chmax_prune_score_max(15);
    assert_eq!(solver.prune_score_max(), 15);
    solver.set_prune_score_max(3);
    assert_eq!(solver.prune_score_max(), 3);
}

#[test]
fn test_solver_solves_board_after_board() {
    let mut solver = Solver::new(0);
    let first = parse_board("........\n........\n........\n........\n12......\n1221....\n");
    let second = parse_board("........\n........\n........\n........\n........\n11......\n");
    assert_eq!(solver.solve(first).map(|r| r.0), Some(208));
    assert_eq!(solver.solve(second).map(|r| r.0), Some(201));
    assert_eq!(solver.solve(first).map(|r| r.0), Some(208));
}

#[test]
fn test_final_gain() {
    assert_eq!(final_gain(&Position::new(Board::empty())), Some(200));
    let stuck = parse_board("........\n........\n........\n........\n........\n12345...\n");
    assert_eq!(final_gain(&Position::new(stuck)), Some(0));
    let open = parse_board("........\n........\n........\n........\n........\n11......\n");
    assert_eq!(final_gain(&Position::new(open)), None);
}

#[test]
fn test_score_bound_holds_on_games() {
    // What a game scores is never more than the bound of the position it starts from.
    let boards = [
        "........\n........\n........\n........\n12......\n1221....\n",
        "........\n........\n..2.....\n..12....\n.1121...\n12211233\n",
        "........\n........\n........\n....3...\n12.133..\n1221311.\n",
    ];
    for board in boards {
        let pos = Position::new(parse_board(board));
        let (score, _) = solve(board, 0).unwrap();
        assert!(score <= pos.gain_upper_bound());
        for action in pos.actions() {
            let child = pos.do_action(&action);
            assert!(action.gain() + child.gain_upper_bound() <= pos.gain_upper_bound());
        }
    }
}
