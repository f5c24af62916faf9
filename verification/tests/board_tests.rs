use samegame_sfc::{BitCol, Board, Col, MaskBoard, Piece, Row, Square};

fn col(n: u8) -> Col {
    Col::from_inner(n).unwrap()
}

fn row(n: u8) -> Row {
    Row::from_inner(n).unwrap()
}

fn sq_new(c: u8, r: u8) -> Square {
    Square::new(col(c), row(r))
}

fn parse_board(s: &str) -> Board {
    s.parse().unwrap()
}

fn parse_mask_board(s: &str) -> MaskBoard {
    s.parse().unwrap()
}

const START: &str = "\
1......2
155....2
111.4..2
12144..1
12133.51
12135551
";

#[test]
fn test_bit_col() {
    let mut bc = BitCol::new(0b111_110_101_100_011_010);
    bc.set(row(2), 0b000);

    assert_eq!(bc.get(row(1)), 0b010);
    assert_eq!(bc.get(row(2)), 0b000);
    assert_eq!(bc.get(row(3)), 0b100);
    assert_eq!(bc.get(row(4)), 0b101);
    assert_eq!(bc.get(row(5)), 0b110);
    assert_eq!(bc.get(row(6)), 0b111);

    assert_eq!(
        bc.enumerate(),
        vec![
            (row(1), 0b010),
            (row(2), 0b000),
            (row(3), 0b100),
            (row(4), 0b101),
            (row(5), 0b110),
            (row(6), 0b111),
        ]
    );
    assert_eq!(bc.iter(), vec![0b010, 0b000, 0b100, 0b101, 0b110, 0b111]);
}

#[test]
fn test_board_io() {
    let cases = [
        "\
........
........
........
........
........
........
",
        "\
........
........
.1......
121.....
1213....
1213....
",
        "\
12345123
51234512
45123451
34512345
23451234
12345123
",
    ];

    for s in cases {
        let board = parse_board(s);
        assert_eq!(board.to_string(), s);
    }
}

#[test]
fn test_board_piece_count() {
    for piece in Piece::all() {
        assert_eq!(Board::empty().piece_count(piece), 0);
    }
    assert_eq!(Board::empty().piece_count_total(), 0);

    let cases = [
        (
            "\
........
........
........
........
........
12345...
",
            [1, 1, 1, 1, 1],
        ),
        (
            "\
.......4
.......4
.1...5.4
.1.3.5.4
1213.5.5
12134555
",
            [6, 2, 3, 5, 7],
        ),
    ];

    for (board, counts) in cases {
        let board = parse_board(board);
        for piece in Piece::all() {
            assert_eq!(board.piece_count(piece), counts[piece.to_index()]);
        }
        assert_eq!(board.piece_count_total(), counts.into_iter().sum());
    }
}

#[test]
fn test_board_has_action() {
    assert!(!Board::empty().has_action());

    let falses = [
        "\
........
........
........
...543..
..14213.
1232121.
",
        "\
12345123
51234512
45123451
34512345
23451234
12345123
",
    ];

    let trues = [
        "\
........
........
........
1.......
1.5.....
234.....
",
        "\
........
........
........
........
.34.....
2251....
",
        "\
........
........
........
........
........
12345133
",
        "\
.......5
.......5
.......3
.......2
.......1
12345123
",
        START,
    ];

    for board in falses {
        let board = parse_board(board);
        assert!(!board.has_action());
    }
    for board in trues {
        let board = parse_board(board);
        assert!(board.has_action());
    }
}

#[test]
fn test_board_erase() {
    let cases = [
        (
            START,
            "\
*.......
*.......
***.....
*.*.....
*.*.....
*.*.....
",
            "\
......2.
......2.
5..4..2.
2.44..1.
2.33.51.
2535551.
",
        ),
        (
            START,
            "\
........
.**.....
........
........
........
........
",
            "\
1......2
1......2
111.4..2
12144..1
12133.51
12135551
",
        ),
        (
            START,
            "\
........
........
........
........
...**...
...*....
",
            "\
1......2
155....2
111....2
121.4..1
121.4.51
12145551
",
        ),
        (
            START,
            "\
........
........
........
........
......*.
....***.
",
            "\
1....2..
155..2..
111..2..
121441..
121341..
121331..
",
        ),
        (
            START,
            "\
.......*
.......*
.......*
........
........
........
",
            "\
1.......
155.....
111.4...
12144..1
12133.51
12135551
",
        ),
        (
            START,
            "\
........
........
........
.......*
.......*
.......*
",
            "\
1.......
155.....
111.4...
12144..2
12133.52
12135552
",
        ),
    ];

    for (before, mb, after) in cases {
        let before = parse_board(before);
        let mb = parse_mask_board(mb);
        let after = parse_board(after);

        assert_eq!(before.erase(&mb), after);
    }
}

#[test]
fn test_board_xor_mask() {
    assert_eq!(Board::empty().xor_mask(&Board::empty()), MaskBoard::empty());

    {
        let board = parse_board(
            "\
12345123
51234512
45123451
34512345
23451234
12345123
",
        );
        assert_eq!(board.xor_mask(&board), MaskBoard::empty());
    }

    let cases = [
        (
            START,
            "\
......2.
......2.
5..4..2.
2.44..1.
2.33.51.
2535551.
",
            "\
*.....**
***...**
*****.**
***.*.**
***.****
****..**
",
        ),
        (
            START,
            "\
1......2
1......2
111.4..2
12144..1
12133.51
12135551
",
            "\
........
.**.....
........
........
........
........
",
        ),
    ];

    for (before, after, mb) in cases {
        let before = parse_board(before);
        let after = parse_board(after);
        let mb = parse_mask_board(mb);

        assert_eq!(before.xor_mask(&after), mb);
        assert_eq!(after.xor_mask(&before), mb);
    }
}

#[test]
fn test_mask_board_io() {
    let cases = [
        "\
........
........
........
........
........
........
",
        "\
.......*
.....*.*
.*...*..
*.*....*
*.*...*.
*.*.....
",
    ];

    for s in cases {
        let mb = parse_mask_board(s);
        assert_eq!(mb.to_string(), s);
    }
}

#[test]
fn test_mask_board_squares() {
    assert_eq!(MaskBoard::empty().squares().first(), None);

    let cases = [
        (
            "\
*......*
........
........
........
........
*......*
",
            vec![sq_new(1, 1), sq_new(1, 6), sq_new(8, 1), sq_new(8, 6)],
        ),
        (
            "\
........
...**...
..*..*..
.*....*.
*......*
........
",
            vec![
                sq_new(1, 2),
                sq_new(2, 3),
                sq_new(3, 4),
                sq_new(4, 5),
                sq_new(5, 5),
                sq_new(6, 4),
                sq_new(7, 3),
                sq_new(8, 2),
            ],
        ),
    ];

    for (mb, sqs) in cases {
        let mb = parse_mask_board(mb);
        assert_eq!(mb.squares(), sqs);
    }
}

#[test]
fn test_mask_board_components() {
    assert_eq!(MaskBoard::empty().components().first(), None);

    let mb = parse_mask_board(
        "\
****...*
...*....
.***....
.*...*..
*.*...*.
*.*...**
",
    );
    let expect = [
        "\
........
........
........
........
*.......
*.......
",
        "\
****....
...*....
.***....
.*......
........
........
",
        "\
........
........
........
........
..*.....
..*.....
",
        "\
........
........
........
.....*..
........
........
",
        "\
........
........
........
........
......*.
......**
",
        "\
.......*
........
........
........
........
........
",
    ];

    let expect: Vec<MaskBoard> = expect.iter().map(|s| parse_mask_board(s)).collect();
    assert_eq!(mb.components(), expect);
}

#[test]
fn test_board_empty_is_empty() {
    let board = Board::empty();
    assert!(board.is_empty());
    assert_eq!(board.width_remain(), 0);
    assert!(board.nonempty_cols().is_empty());
    for sq in Square::all() {
        assert_eq!(board.get(sq), None);
    }
}

#[test]
fn test_board_get_and_width() {
    let board = parse_board(START);
    assert_eq!(board.width_remain(), 8);
    assert_eq!(board.nonempty_cols(), Col::all());
    assert_eq!(board.get(sq_new(1, 1)), Piece::from_inner(1));
    assert_eq!(board.get(sq_new(2, 5)), Piece::from_inner(5));
    assert_eq!(board.get(sq_new(7, 2)), Piece::from_inner(5));
    assert_eq!(board.get(sq_new(8, 6)), Piece::from_inner(2));
    assert_eq!(board.get(sq_new(4, 4)), None);
    assert!(board.same(&parse_board(START)));
    assert!(!board.same(&Board::empty()));
}

#[test]
fn test_board_erase_empty_mask_is_identity() {
    for s in [START, "........\n........\n........\n........\n........\n12345...\n"] {
        let board = parse_board(s);
        assert_eq!(board.erase(&MaskBoard::empty()), board);
    }
    assert_eq!(Board::empty().erase(&MaskBoard::empty()), Board::empty());
}

#[test]
fn test_board_erase_whole_board() {
    let board = parse_board(
        "\
........
........
........
........
11......
11......
",
    );
    let mb = board.piece_mask(Piece::from_inner(1).unwrap());
    assert_eq!(mb.square_count(), 4);
    assert_eq!(board.erase(&mb), Board::empty());
}

#[test]
fn test_board_piece_mask_and_components() {
    let board = parse_board(START);
    let ones = board.piece_mask(Piece::from_inner(1).unwrap());
    assert_eq!(
        ones.to_string(),
        "\
*.......
*.......
***.....
*.*....*
*.*....*
*.*....*
"
    );
    assert_eq!(board.occupied_mask().square_count(), board.piece_count_total());
    let comps = board.piece_components();
    let kinds: Vec<u8> = comps.iter().map(|(p, _)| p.to_inner()).collect();
    let mut sorted = kinds.clone();
    sorted.sort();
    assert_eq!(kinds, sorted);
    let total: u32 = comps.iter().map(|(_, m)| m.square_count()).sum();
    assert_eq!(total, board.piece_count_total());
}

#[test]
fn test_mask_board_set_and_test() {
    let mut mb = MaskBoard::empty();
    assert!(mb.is_empty());
    assert_eq!(mb.least_square(), None);
    assert_eq!(mb.least_nonempty_col(), None);
    mb.set(sq_new(3, 4), true);
    mb.set(sq_new(3, 2), true);
    mb.set(sq_new(7, 1), true);
    assert!(mb.test(sq_new(3, 4)));
    assert!(!mb.test(sq_new(3, 3)));
    assert_eq!(mb.square_count(), 3);
    assert_eq!(mb.nonempty_col_count(), 2);
    assert_eq!(mb.nonempty_cols(), vec![col(3), col(7)]);
    assert_eq!(mb.least_square(), Some(sq_new(3, 2)));
    assert_eq!(mb.least_nonempty_col(), Some(col(3)));
    assert!(!mb.is_single());
    mb.set(sq_new(3, 4), false);
    mb.set(sq_new(3, 2), false);
    assert!(mb.is_single());
    assert_eq!(mb, MaskBoard::single(sq_new(7, 1)));
    assert_eq!(mb.col_bits(6).inner(), 1);
}

#[test]
fn test_mask_board_subtract() {
    let a = parse_mask_board(
        "\
****...*
...*....
.***....
.*...*..
*.*...*.
*.*...**
",
    );
    let b = parse_mask_board(
        "\
****....
...*....
.***....
.*......
........
........
",
    );
    let diff = a.subtract(&b);
    assert_eq!(
        diff.to_string(),
        "\
.......*
........
........
.....*..
*.*...*.
*.*...**
"
    );
    let mut c = a;
    c.subtract_assign(&a);
    assert!(c.is_empty());
}

#[test]
fn test_mask_board_flood_fill() {
    let mb = parse_mask_board(
        "\
****...*
...*....
.***....
.*...*..
*.*...*.
*.*...**
",
    );
    let filled = mb.flood_fill(sq_new(2, 3));
    assert_eq!(
        filled.to_string(),
        "\
****....
...*....
.***....
.*......
........
........
"
    );
    let snake = parse_mask_board(
        "\
********
.......*
********
*.......
********
.......*
",
    );
    assert_eq!(snake.flood_fill(sq_new(8, 1)), snake);
    assert_eq!(snake.flood_fill_checked(sq_new(8, 5)), Some(snake));
    // A square outside the mask is refused.
    assert_eq!(snake.flood_fill_checked(sq_new(1, 1)), None);
    assert_eq!(MaskBoard::empty().flood_fill_checked(sq_new(1, 1)), None);
}

#[test]
fn test_board_is_settled() {
    assert!(Board::empty().is_settled());
    let settled = parse_board("........\n........\n.1......\n121.....\n1213....\n1213....\n");
    assert!(settled.is_settled());
    assert!(parse_board(START).is_settled());
    // In the first column a piece stands above an empty cell.
    let floating = parse_board("........\n........\n........\n1.......\n........\n12......\n");
    assert!(!floating.is_settled());
    // After an erasure of a board at rest the pieces are at rest again.
    let mb = settled.piece_mask(Piece::from_inner(2).unwrap());
    let after = settled.erase(&mb);
    assert!(after.is_settled());
    assert_eq!(after.to_string(), "........\n........\n........\n1.1.....\n1.13....\n1113....\n");
}
