use samegame_sfc::bitop::{
    u32_blsi, u32_one_indexs, u32_pext, u64_blsi, u64_one_indexs, u64_pext,
};
use samegame_sfc::text::{format_unsigned, parse_unsigned, split_chars, to_chars, Separator};
use samegame_sfc::{
    u64_hashmap_with_capacity, u64_hashset_with_capacity, ActionHistory, Board, Col, MaskBoard,
    ParseError, Row, Square, U64Hasher,
};

fn sq_new(c: u8, r: u8) -> Square {
    Square::new(Col::from_inner(c).unwrap(), Row::from_inner(r).unwrap())
}

const EMPTY: &str = "........\n........\n........\n........\n........\n........\n";

#[test]
fn test_board_parse_errors() {
    assert_eq!("".parse::<Board>(), Err(ParseError::LineCount));
    assert_eq!("........\n".parse::<Board>(), Err(ParseError::LineCount));
    assert_eq!(format!("{EMPTY}........\n").parse::<Board>(), Err(ParseError::LineCount));
    assert_eq!(format!("{EMPTY}\n").parse::<Board>(), Err(ParseError::LineCount));
    assert_eq!(
        "........\n.......\n........\n........\n........\n........\n".parse::<Board>(),
        Err(ParseError::LineLength)
    );
    assert_eq!(
        "........\n.........\n........\n........\n........\n........\n".parse::<Board>(),
        Err(ParseError::LineLength)
    );
    assert_eq!(
        "........\n........\n........\n........\n........\n6.......\n".parse::<Board>(),
        Err(ParseError::InvalidChar)
    );
    assert_eq!(
        "........\n........\n........\n........\n........\n0.......\n".parse::<Board>(),
        Err(ParseError::InvalidChar)
    );
    assert_eq!(
        "........\n........\n........\n........\n........\n*.......\n".parse::<Board>(),
        Err(ParseError::InvalidChar)
    );
    // The first line with which something is wrong decides.
    assert_eq!(
        "........\n..x.....\n.......\n........\n........\n........\n".parse::<Board>(),
        Err(ParseError::InvalidChar)
    );
    assert_eq!(
        "........\n.......\n..x.....\n........\n........\n........\n".parse::<Board>(),
        Err(ParseError::LineLength)
    );
    assert_eq!(
        "........\n........\n........\n........\n........\n.1......\n".parse::<Board>(),
        Err(ParseError::NotLeftPacked)
    );
    assert_eq!(
        "........\n........\n........\n........\n........\n1.1.....\n".parse::<Board>(),
        Err(ParseError::NotLeftPacked)
    );
}

#[test]
fn test_board_parse_line_ends() {
    let plain: Board = "........\n........\n........\n........\n12......\n1221....\n".parse().unwrap();
    let no_last: Board = "........\n........\n........\n........\n12......\n1221....".parse().unwrap();
    let crlf: Board =
        "........\r\n........\r\n........\r\n........\r\n12......\r\n1221....\r\n".parse().unwrap();
    assert_eq!(plain, no_last);
    assert_eq!(plain, crlf);
    assert_eq!(
        "........\n........\n........\n........\n12......\n1221....\r".parse::<Board>(),
        Err(ParseError::LineLength)
    );
}

#[test]
fn test_mask_parse_errors() {
    assert_eq!("".parse::<MaskBoard>(), Err(ParseError::LineCount));
    assert_eq!(
        "........\n........\n........\n........\n........\n1.......\n".parse::<MaskBoard>(),
        Err(ParseError::InvalidChar)
    );
    assert_eq!(
        "........\n........\n........\n........\n........\n**\n".parse::<MaskBoard>(),
        Err(ParseError::LineLength)
    );
    let mb: MaskBoard = "........\n........\n........\n........\n........\n.*......\n".parse().unwrap();
    assert_eq!(mb, MaskBoard::single(sq_new(2, 1)));
    assert_eq!(EMPTY.parse::<MaskBoard>(), Ok(MaskBoard::empty()));
}

#[test]
fn test_history_io() {
    let mut history = ActionHistory::new();
    assert!(history.is_empty());
    assert_eq!(history.to_string(), "");
    history.push(sq_new(2, 5));
    history.push(sq_new(1, 1));
    history.push_unchecked(sq_new(8, 6));
    assert_eq!(history.len(), 3);
    assert_eq!(history.to_string(), "2,5 1,1 8,6");
    assert_eq!(history.as_slice(), vec![sq_new(2, 5), sq_new(1, 1), sq_new(8, 6)]);
    assert_eq!(history.iter(), history.as_slice());
    assert_eq!("2,5 1,1 8,6".parse::<ActionHistory>(), Ok(history.clone()));
    assert_eq!("  2,5\t1,1\n 8,6  ".parse::<ActionHistory>(), Ok(history.clone()));
    history.remove_last();
    assert_eq!(history.to_string(), "2,5 1,1");
    history.remove_last_unchecked();
    history.remove_last();
    assert!(history.is_empty());
    history.remove_last();
    assert!(history.is_empty());
    assert_eq!("".parse::<ActionHistory>(), Ok(ActionHistory::new()));
    assert_eq!(ActionHistory::default(), ActionHistory::new());
    assert_eq!(ActionHistory::CAPACITY, 24);
}

#[test]
fn test_history_parse_errors() {
    let full = vec!["1,1"; 24].join(" ");
    let parsed: ActionHistory = full.parse().unwrap();
    assert_eq!(parsed.len(), 24);
    assert_eq!(parsed.to_string(), full);
    let over = vec!["1,1"; 25].join(" ");
    assert_eq!(over.parse::<ActionHistory>(), Err(ParseError::TooManyMoves));
    assert_eq!("1,1 2".parse::<ActionHistory>(), Err(ParseError::FieldCount));
    assert_eq!("1,1 2,x".parse::<ActionHistory>(), Err(ParseError::InvalidNumber));
    assert_eq!("1,1 9,1".parse::<ActionHistory>(), Err(ParseError::OutOfRange));
    assert_eq!("9,1 2,x".parse::<ActionHistory>(), Err(ParseError::OutOfRange));
}

#[test]
fn test_split_and_numbers() {
    let chars = to_chars("a,,b,");
    let pieces: Vec<String> =
        split_chars(&chars, Separator::Comma).iter().map(|p| p.iter().collect()).collect();
    assert_eq!(pieces, vec!["a", "", "b", ""]);
    let pieces = split_chars(&to_chars(""), Separator::Newline);
    assert_eq!(pieces, vec![Vec::<char>::new()]);
    assert_eq!(parse_unsigned(&to_chars("0"), 0), Some(0));
    assert_eq!(parse_unsigned(&to_chars("255"), 255), Some(255));
    assert_eq!(parse_unsigned(&to_chars("256"), 255), None);
    assert_eq!(parse_unsigned(&to_chars("+0012"), 255), Some(12));
    assert_eq!(parse_unsigned(&to_chars("18446744073709551615"), u64::MAX), Some(u64::MAX));
    assert_eq!(parse_unsigned(&to_chars("18446744073709551616"), u64::MAX), None);
    assert_eq!(parse_unsigned(&to_chars("1 2"), 255), None);
    assert_eq!(format_unsigned(0), vec!['0']);
    assert_eq!(format_unsigned(48), vec!['4', '8']);
    assert_eq!(format_unsigned(u64::MAX).iter().collect::<String>(), "18446744073709551615");
}

#[test]
fn test_bit_operations() {
    assert_eq!(u32_blsi(0b110100), 0b000100);
    assert_eq!(u32_blsi(0), 0);
    assert_eq!(u32_blsi(0x8000_0000), 0x8000_0000);
    assert_eq!(u64_blsi(0xf000_0000_0000_0000), 0x1000_0000_0000_0000);
    assert_eq!(u64_blsi(0), 0);
    assert_eq!(u32_one_indexs(0b110100), vec![2, 4, 5]);
    assert_eq!(u32_one_indexs(0), Vec::<u32>::new());
    assert_eq!(u32_one_indexs(0x8000_0001), vec![0, 31]);
    assert_eq!(u64_one_indexs(0x8000_0000_0000_0001), vec![0, 63]);
    assert_eq!(u32_pext(0b110100, 0b011100), 0b101);
    assert_eq!(u32_pext(0xffff_ffff, 0xffff_ffff), 0xffff_ffff);
    assert_eq!(u32_pext(0x1234_5678, 0), 0);
    assert_eq!(u32_pext(0x1234_5678, 0xff00_00ff), 0x1278);
    // The cells of a column that stay: three bits each, the second and the fourth taken out.
    assert_eq!(u32_pext(0o654321, 0o770707), 0o6531);
    assert_eq!(u64_pext(0x1234_5678_9abc_def0, 0xf0f0_f0f0_f0f0_f0f0), 0x1357_9bdf);
    assert_eq!(u64_pext(u64::MAX, u64::MAX), u64::MAX);
}

#[test]
fn test_hash_tables() {
    let mut hasher = U64Hasher::new();
    assert_eq!(hasher.finish(), 0);
    hasher.write_u64(0x1234_5678_9abc_def0);
    assert_eq!(hasher.finish(), 0x1234_5678_9abc_def0);
    let mut map = u64_hashmap_with_capacity::<u32>(16);
    assert!(map.is_empty());
    map.insert(7, 1);
    assert_eq!(map.get(&7), Some(&1));
    let mut set = u64_hashset_with_capacity(16);
    assert!(set.is_empty());
    set.insert(7);
    assert!(set.contains(&7));
}
