use samegame_sfc::rng::PARAM_COUNT;
use samegame_sfc::{
    enumerate_all_board, enumerate_all_legal_board, GameEntropy, GameRng, ParseError, Piece,
    RandomBoardParam,
};

fn entropy(v: u8) -> GameEntropy {
    GameEntropy::from_inner(v).unwrap()
}

fn param(rng_state: u16, nmi_counter: u8, nmi_timing: usize, e: u8) -> RandomBoardParam {
    RandomBoardParam { rng_state, nmi_counter, nmi_timing, entropy: entropy(e) }
}

#[test]
fn test_rng_dead_state() {
    let mut rng = GameRng::new(0);
    assert_eq!(rng.gen(0), 0);
    assert_eq!(rng.state(), 0);
    assert_eq!(rng.gen(0), 0);
    assert_eq!(rng.state(), 0);
}

#[test]
fn test_rng_gen_values() {
    let mut rng = GameRng::new(0x1234);
    let expect = [(0x4cc4, 136), (0x1125, 52), (0x68e7, 143), (0x1f62, 125), (0xfa68, 146)];
    for (state, out) in expect {
        assert_eq!(rng.gen(0x56), out);
        assert_eq!(rng.state(), state);
    }
}

#[test]
fn test_rng_period() {
    // From a state that is not 0 the low 15 bits come back after 32767 steps, not before.
    let mut rng = GameRng::new(1);
    let mut steps = 0;
    loop {
        rng.gen(0);
        steps += 1;
        if rng.state() & 0x7fff == 1 {
            break;
        }
        assert!(steps < 40000);
    }
    assert_eq!(steps, 32767);
}

#[test]
fn test_rng_gen_piece() {
    // The random number 136 with the entropy 2: 1 + (5 * 136 + 2) / 256 = 3.
    let mut rng = GameRng::new(0x1234);
    assert_eq!(rng.gen_piece(0x56, entropy(2)), Piece::from_inner(3).unwrap());
    assert_eq!(rng.state(), 0x4cc4);
    // The largest random number with the largest entropy gives the last kind.
    for e in 0..=4 {
        let mut rng = GameRng::new(0);
        assert_eq!(rng.gen_piece(0, entropy(e)), Piece::from_inner(1).unwrap());
    }
}

#[test]
fn test_gen_board_values() {
    let cases = [
        (
            param(0x1234, 0x56, 40, 2),
            "25333433\n22352543\n53131135\n21453224\n23233354\n32333254\n",
            true,
            0xd556,
        ),
        (
            param(0, 0, 40, 0),
            "11111144\n11111111\n11111111\n11111111\n11111111\n11111111\n",
            false,
            0x57fc,
        ),
        (
            param(1, 0, 40, 0),
            "51311413\n41425142\n54534141\n44445454\n22223144\n11111222\n",
            true,
            0x4ec7,
        ),
        (
            param(0x7fff, 0xff, 48, 4),
            "22351235\n44353134\n11552231\n22432244\n53415343\n15511551\n",
            true,
            0x0fe2,
        ),
        (
            param(0xbeef, 0x10, 0, 3),
            "42523451\n53433511\n24535241\n34325525\n45322345\n22242514\n",
            true,
            0xdcda,
        ),
    ];
    for (p, text, legal, state) in cases {
        let (board, is_legal, rng_after) = p.gen_board();
        assert_eq!(board.to_string(), text);
        assert_eq!(is_legal, legal);
        assert_eq!(rng_after.state(), state);
        assert_eq!(board.width_remain(), 8);
        assert_eq!(board.piece_count_total(), 48);
        let mut rng = GameRng::new(p.rng_state);
        assert_eq!(rng.gen_board(p.nmi_counter, p.nmi_timing, p.entropy), (board, legal));
        assert_eq!(rng, rng_after);
        match p.gen_legal_board() {
            Some((b, r)) => {
                assert!(legal);
                assert_eq!((b, r), (board, rng_after));
            }
            None => assert!(!legal),
        }
    }
}

#[test]
fn test_legal_needs_fewer_than_24_of_each_kind() {
    // 46 ones: the game deals again.
    let (board, legal, _) = param(0, 0, 40, 0).gen_board();
    assert_eq!(board.piece_count(Piece::from_inner(1).unwrap()), 46);
    assert!(!legal);
}

#[test]
fn test_all_params() {
    assert_eq!(PARAM_COUNT, 32768 * 256 * 5);
    assert_eq!(RandomBoardParam::nth(0), Some(param(0, 0, 40, 0)));
    assert_eq!(RandomBoardParam::nth(1), Some(param(0, 0, 40, 1)));
    assert_eq!(RandomBoardParam::nth(5), Some(param(0, 1, 40, 0)));
    assert_eq!(RandomBoardParam::nth(1280), Some(param(1, 0, 40, 0)));
    assert_eq!(RandomBoardParam::nth(PARAM_COUNT - 1), Some(param(0x7fff, 0xff, 40, 4)));
    assert_eq!(RandomBoardParam::nth(PARAM_COUNT), None);

    let mut all = RandomBoardParam::all();
    let mut prev: Option<RandomBoardParam> = None;
    for i in 0..200_000u64 {
        let p = all.next().unwrap();
        assert_eq!(Some(p), RandomBoardParam::nth(i));
        assert_eq!(p.nmi_timing, 40);
        if let Some(q) = prev {
            let a = (q.rng_state, q.nmi_counter, q.nmi_timing, q.entropy.to_inner());
            let b = (p.rng_state, p.nmi_counter, p.nmi_timing, p.entropy.to_inner());
            assert!(a < b);
        }
        prev = Some(p);
    }
}

#[test]
fn test_enumeration_parity() {
    // The walk through the legal boards gives what the walk through all boards gives,
    // without the boards that cannot appear.
    let mut all = enumerate_all_board();
    let mut legal = enumerate_all_legal_board();
    let mut seen_illegal = 0;
    for _ in 0..3000 {
        let (p, board, is_legal, rng_after) = all.next().unwrap();
        assert_eq!(p.gen_board(), (board, is_legal, rng_after));
        if is_legal {
            assert_eq!(legal.next(), Some((p, board, rng_after)));
        } else {
            seen_illegal += 1;
        }
    }
    assert!(seen_illegal > 0);
}

#[test]
fn test_entropy() {
    assert_eq!(GameEntropy::all().len(), 5);
    assert_eq!(GameEntropy::from_inner(5), None);
    assert_eq!(GameEntropy::from_index(5), None);
    assert_eq!(entropy(3).to_inner(), 3);
    assert_eq!(entropy(3).to_index(), 3);
    assert_eq!(entropy(3).to_string(), "3");
    assert_eq!("4".parse::<GameEntropy>(), Ok(entropy(4)));
    assert_eq!("5".parse::<GameEntropy>(), Err(ParseError::OutOfRange));
    assert_eq!("x".parse::<GameEntropy>(), Err(ParseError::InvalidNumber));
}

#[test]
fn test_param_io() {
    let p = param(0x1234, 0x0f, 40, 3);
    assert_eq!(p.to_string(), "0x1234,0x0F,40,3");
    assert_eq!("0x1234,0x0F,40,3".parse::<RandomBoardParam>(), Ok(p));
    assert_eq!("0x1234,0x0f,40,3".parse::<RandomBoardParam>(), Ok(p));
    assert_eq!("4660,15,40,3".parse::<RandomBoardParam>(), Ok(p));
    assert_eq!("0b1_0010_0011_0100,0o17,40,3".parse::<RandomBoardParam>(), Ok(p));
    assert_eq!(param(0, 0, 0, 0).to_string(), "0x0000,0x00,0,0");
    assert_eq!(param(0xffff, 0xff, 48, 4).to_string(), "0xFFFF,0xFF,48,4");
    for i in [0u64, 1, 7, 1279, 1280, 99_999, 41_943_039] {
        let p = RandomBoardParam::nth(i).unwrap();
        assert_eq!(p.to_string().parse::<RandomBoardParam>(), Ok(p));
    }
}

#[test]
fn test_param_parse_errors() {
    assert_eq!("0x1234,0x0F,40".parse::<RandomBoardParam>(), Err(ParseError::FieldCount));
    assert_eq!("0x1234,0x0F,40,3,1".parse::<RandomBoardParam>(), Err(ParseError::FieldCount));
    assert_eq!("".parse::<RandomBoardParam>(), Err(ParseError::FieldCount));
    assert_eq!("0x10000,0,40,3".parse::<RandomBoardParam>(), Err(ParseError::InvalidNumber));
    assert_eq!("zz,0,40,3".parse::<RandomBoardParam>(), Err(ParseError::InvalidNumber));
    assert_eq!("-1,0,40,3".parse::<RandomBoardParam>(), Err(ParseError::InvalidNumber));
    assert_eq!("1,0x100,40,3".parse::<RandomBoardParam>(), Err(ParseError::InvalidNumber));
    assert_eq!("1,-0,40,3".parse::<RandomBoardParam>(), Err(ParseError::InvalidNumber));
    assert_eq!("1,2,forty,3".parse::<RandomBoardParam>(), Err(ParseError::InvalidNumber));
    assert_eq!("1,2,0x28,3".parse::<RandomBoardParam>(), Err(ParseError::InvalidNumber));
    assert_eq!("1,2,40,x".parse::<RandomBoardParam>(), Err(ParseError::InvalidNumber));
    assert_eq!("1,2,40,5".parse::<RandomBoardParam>(), Err(ParseError::OutOfRange));
    assert_eq!(
        RandomBoardParam::from_fields(None, Some(1), &vec!['4', '0'], &vec!['3']),
        Err(ParseError::InvalidNumber)
    );
    assert_eq!(
        RandomBoardParam::from_fields(Some(7), Some(256), &vec!['4', '0'], &vec!['3']),
        Err(ParseError::InvalidNumber)
    );
    assert_eq!(
        RandomBoardParam::from_fields(Some(7), Some(255), &vec!['4', '0'], &vec!['3']),
        Ok(param(7, 255, 40, 3))
    );
}
