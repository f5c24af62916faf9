use samegame_sfc::{Col, ColArray, ParseError, Piece, PieceArray, Row, RowArray, Square, SquareArray};

fn parse_sq(s: &str) -> Square {
    s.parse().unwrap()
}

#[test]
fn test_square_new() {
    for col in Col::all() {
        for row in Row::all() {
            let sq = Square::new(col, row);
            assert_eq!(sq.col(), col);
            assert_eq!(sq.row(), row);
        }
    }
}

#[test]
fn test_square_io() {
    for sq in Square::all() {
        let s = sq.to_string();
        assert_eq!(parse_sq(&s), sq);
    }
}

#[test]
fn test_square_numbering() {
    let c3 = Col::from_inner(3).unwrap();
    let r5 = Row::from_inner(5).unwrap();
    let sq = Square::new(c3, r5);
    assert_eq!(sq.to_inner(), 17);
    assert_eq!(sq.to_index(), 16);
    assert_eq!(sq.to_string(), "3,5");
    assert_eq!(Square::from_inner(17), Some(sq));
    assert_eq!(Square::from_index(16), Some(sq));
    assert_eq!(Square::from_inner(0), None);
    assert_eq!(Square::from_inner(49), None);
    assert_eq!(Square::from_index(48), None);
    let all = Square::all();
    assert_eq!(all.len(), 48);
    for (i, sq) in all.iter().enumerate() {
        assert_eq!(sq.to_index(), i);
        assert_eq!(sq.to_inner() as usize, i + 1);
    }
    assert_eq!(Square::NUM, 48);
    assert_eq!(Square::MIN_VALUE, 1);
    assert_eq!(Square::MAX_VALUE, 48);
}

#[test]
fn test_col_and_row() {
    assert_eq!(Col::all().len(), 8);
    assert_eq!(Row::all().len(), 6);
    assert_eq!(Col::from_inner(0), None);
    assert_eq!(Col::from_inner(9), None);
    assert_eq!(Row::from_inner(0), None);
    assert_eq!(Row::from_inner(7), None);
    assert_eq!(Col::from_index(8), None);
    assert_eq!(Row::from_index(6), None);
    let c1 = Col::from_inner(1).unwrap();
    let c2 = Col::from_inner(2).unwrap();
    let c8 = Col::from_inner(8).unwrap();
    assert_eq!(c1.prev(), None);
    assert_eq!(c1.next(), Some(c2));
    assert_eq!(c2.prev(), Some(c1));
    assert_eq!(c8.next(), None);
    assert_eq!(c2.prev_unchecked(), c1);
    assert_eq!(c1.next_unchecked(), c2);
    assert_eq!(c8.to_inner(), 8);
    assert_eq!(c8.to_index(), 7);
    assert!(c1 < c2);
    assert_eq!(c8.to_string(), "8");
    assert_eq!(Row::from_inner(6).unwrap().to_string(), "6");
    assert_eq!("4".parse::<Col>(), Ok(Col::from_inner(4).unwrap()));
    assert_eq!("+4".parse::<Col>(), Ok(Col::from_inner(4).unwrap()));
    assert_eq!("004".parse::<Row>(), Ok(Row::from_inner(4).unwrap()));
    assert_eq!("9".parse::<Col>(), Err(ParseError::OutOfRange));
    assert_eq!("0".parse::<Col>(), Err(ParseError::OutOfRange));
    assert_eq!("7".parse::<Row>(), Err(ParseError::OutOfRange));
    assert_eq!("256".parse::<Row>(), Err(ParseError::InvalidNumber));
    assert_eq!("".parse::<Col>(), Err(ParseError::InvalidNumber));
    assert_eq!("+".parse::<Col>(), Err(ParseError::InvalidNumber));
    assert_eq!("-1".parse::<Col>(), Err(ParseError::InvalidNumber));
    assert_eq!("a".parse::<Col>(), Err(ParseError::InvalidNumber));
}

#[test]
fn test_square_parse_errors() {
    assert_eq!("1".parse::<Square>(), Err(ParseError::FieldCount));
    assert_eq!("1,2,3".parse::<Square>(), Err(ParseError::FieldCount));
    assert_eq!("".parse::<Square>(), Err(ParseError::FieldCount));
    assert_eq!("x,1".parse::<Square>(), Err(ParseError::InvalidNumber));
    assert_eq!("1,".parse::<Square>(), Err(ParseError::InvalidNumber));
    assert_eq!("9,1".parse::<Square>(), Err(ParseError::OutOfRange));
    assert_eq!("1,7".parse::<Square>(), Err(ParseError::OutOfRange));
    assert_eq!("8,6".parse::<Square>(), Ok(Square::from_inner(48).unwrap()));
}

#[test]
fn test_piece() {
    let all = Piece::all();
    assert_eq!(all.len(), 5);
    for (i, piece) in all.iter().enumerate() {
        assert_eq!(piece.to_index(), i);
        assert_eq!(piece.to_inner() as usize, i + 1);
        assert_eq!(Piece::from_index(i), Some(*piece));
        assert_eq!(Piece::from_inner(i as u8 + 1), Some(*piece));
    }
    assert_eq!(Piece::from_inner(0), None);
    assert_eq!(Piece::from_inner(6), None);
    assert_eq!(Piece::from_index(5), None);
    assert_eq!(Piece::NUM, 5);
}

#[test]
fn test_arrays() {
    let c3 = Col::from_inner(3).unwrap();
    let mut cols = ColArray::from_elem(0u32);
    cols.set(c3, 7);
    assert_eq!(*cols.get(c3), 7);
    assert_eq!(cols.as_array(), &[0, 0, 7, 0, 0, 0, 0, 0]);
    let r6 = Row::from_inner(6).unwrap();
    let mut rows = RowArray::new([1u8, 2, 3, 4, 5, 6]);
    assert_eq!(*rows.get(r6), 6);
    rows.set(r6, 9);
    assert_eq!(rows.as_array(), &[1, 2, 3, 4, 5, 9]);
    let kind_two = Piece::from_inner(2).unwrap();
    let mut pieces = PieceArray::from_elem(false);
    pieces.set(kind_two, true);
    assert_eq!(pieces.as_array(), &[false, true, false, false, false]);
    assert!(*pieces.get(kind_two));
    let sq = Square::from_inner(48).unwrap();
    let mut sqs = SquareArray::from_elem(0u64);
    sqs.set(sq, 5);
    assert_eq!(*sqs.get(sq), 5);
    assert_eq!(sqs.as_array()[47], 5);
}
