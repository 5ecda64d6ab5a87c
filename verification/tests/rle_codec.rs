use ndcell::ndvec::NdVec;
use ndcell::rle::{NdAutomaton, ParseError, RleCellType, RleEncode};

/// Tests that we can read and write all 256 cell states in RLE format.
#[test]
fn test_rle_cell_states() {
    // Ensure that u8->string and string->u8 is reversible
    for i in 0..=255u8 {
        let mut s = String::new();
        RleCellType::push_to_string(i, &mut s);
        println!("{:?}", s);
        assert_eq!(Ok(i), RleCellType::from_str(&s));
        // Spot-check a few examples.
        match i {
            0 => assert_eq!(".", s),
            1 => assert_eq!("A", s),
            2 => assert_eq!("B", s),
            24 => assert_eq!("X", s),
            25 => assert_eq!("pA", s),
            240 => assert_eq!("xX", s),
            241 => assert_eq!("yA", s),
            255 => assert_eq!("yO", s),
            _ => (),
        }
    }
    // Check false
    let mut s = String::new();
    RleCellType::push_to_string(false, &mut s);
    assert_eq!(Ok(false), RleCellType::from_str(&s));
    assert_eq!("b", s);
    // Check true
    let mut s = String::new();
    RleCellType::push_to_string(true, &mut s);
    assert_eq!(Ok(true), RleCellType::from_str(&s));
    assert_eq!("o", s);
}

/// Tests that the cell state reader fails correctly and does not panic.
#[test]
fn test_rle_cell_state_fail() {
    let char_set: &str = "abcdefghijklmnopqrstuvwxyzABCDEFGHIJKLMNOPQRSTUVWXYZ._";
    for ch1 in format!(" {}", char_set).chars() {
        for ch2 in char_set.chars() {
            let s = &format!("{}{}", ch1, ch2);
            let bool_state: Result<bool, ParseError> = RleCellType::from_str(s);
            let u8_state: Result<u8, ParseError> = RleCellType::from_str(s);
            if let Ok(n) = u8_state {
                match n {
                    0 => assert_eq!(Ok(false), bool_state),
                    1 => assert_eq!(Ok(true), bool_state),
                    _ => assert_eq!(Err(ParseError::CellStateOutOfRange), bool_state),
                }
                match s.as_ref() {
                    "o" | "b" => (),
                    _ => {
                        let mut test_s = String::new();
                        RleCellType::push_to_string(n, &mut test_s);
                        assert_eq!(s, &test_s);
                    }
                }
            } else {
                assert_eq!(Err(ParseError::InvalidCellState), bool_state);
                assert_eq!(Err(ParseError::InvalidCellState), u8_state);
            }
        }
    }
}

// Load and save a glider.
#[test]
fn test_basic_rle() {
    let result: NdAutomaton = RleEncode::from_rle(
        "
#CXRLE Pos=10,-15
# Comment
# Comment 2
x = 3, y = 3, rule = Life
# more
bo$2b
o$3o!

#Another Comment 3
#Comment 4
",
    )
    .unwrap();
    assert_eq!(5u64, result.tree.get_root().population);
    assert_eq!(1, result.tree.get_cell(&NdVec::big(vec![11, 14])));
    assert_eq!(1, result.tree.get_cell(&NdVec::big(vec![12, 13])));
    assert_eq!(1, result.tree.get_cell(&NdVec::big(vec![10, 12])));
    assert_eq!(1, result.tree.get_cell(&NdVec::big(vec![11, 12])));
    assert_eq!(1, result.tree.get_cell(&NdVec::big(vec![12, 12])));
}

// Decoding reads the CXRLE position and generation count and keeps the
// rule name.
#[test]
fn test_rle_decode_cells_and_metadata() {
    let result: NdAutomaton =
        RleEncode::from_rle("#CXRLE Pos=10,-15 Gen=42\nx = 3, y = 3, rule = Life\nbo$2bo$3o!\n")
            .unwrap();
    assert_eq!(42, result.generations);
    assert_eq!(Some(b"Life".to_vec()), result.rule);
    assert_eq!(5u64, result.tree.population());
    assert_eq!(0, result.tree.get_cell(&NdVec::big(vec![10, 14])));
    assert_eq!(1, result.tree.get_cell(&NdVec::big(vec![11, 14])));
    assert_eq!(1, result.tree.get_cell(&NdVec::big(vec![12, 13])));
    assert_eq!(1, result.tree.get_cell(&NdVec::big(vec![10, 12])));
}

// The emitter writes the canonical form: tight bounding box, `.` for
// dead cells, `A` for state 1 and run counts.
#[test]
fn test_rle_encode_glider() {
    let auto: NdAutomaton =
        RleEncode::from_rle("#CXRLE Pos=10,-15\nx = 3, y = 3, rule = Life\nbo$2bo$3o!\n").unwrap();
    let text = auto.to_rle();
    assert_eq!(
        "#CXRLE Pos=10,-15\nx = 3, y = 3, rule = Life\n.A$2.A$3A!\n",
        text
    );
}

// Encoding and then decoding reproduces every cell.
#[test]
fn test_rle_round_trip() {
    let auto: NdAutomaton =
        RleEncode::from_rle("#CXRLE Pos=10,-15 Gen=9\nx = 3, y = 3, rule = Life\nbo$2bo$3o!\n")
            .unwrap();
    let text = auto.to_rle();
    let again: NdAutomaton = RleEncode::from_rle(&text).unwrap();
    assert_eq!(9, again.generations);
    assert_eq!(auto.tree.population(), again.tree.population());
    for x in 5..20i64 {
        for y in 5..20i64 {
            let p = NdVec::big(vec![x as isize, y as isize]);
            assert_eq!(auto.tree.get_cell(&p), again.tree.get_cell(&p));
        }
    }
}

// An empty tree encodes to the canonical empty pattern.
#[test]
fn test_rle_encode_empty() {
    let auto = NdAutomaton::new();
    assert_eq!("x = 0, y = 0\n!\n", auto.to_rle());
}

// Malformed patterns are rejected without crashing.
#[test]
fn test_rle_reject_malformed() {
    // Missing header line.
    assert!(<NdAutomaton as RleEncode>::from_rle("bo$2bo$3o!").is_err());
    // Two header lines.
    assert!(<NdAutomaton as RleEncode>::from_rle("x = 3, y = 3\nx = 3, y = 3\nbo!").is_err());
    // A CXRLE position with three components.
    assert!(<NdAutomaton as RleEncode>::from_rle("#CXRLE Pos=1,2,3\nx = 1, y = 1\no!").is_err());
    // An unknown CXRLE key.
    assert!(<NdAutomaton as RleEncode>::from_rle("#CXRLE Foo=1\nx = 1, y = 1\no!").is_err());
    // An invalid cell token.
    assert!(<NdAutomaton as RleEncode>::from_rle("x = 1, y = 1\nz!").is_err());
    // An unparsable count.
    assert!(<NdAutomaton as RleEncode>::from_rle("x = 1, y = 1\n0o!").is_err());
    // An unparsable header value.
    assert!(<NdAutomaton as RleEncode>::from_rle("x = a, y = 1\no!").is_err());
    // None of these produced a tree; a well-formed input still does.
    assert!(<NdAutomaton as RleEncode>::from_rle("x = 1, y = 1\no!").is_ok());
}

// Each error kind has an input that raises it.
#[test]
fn test_rle_error_kinds() {
    // Non-ASCII text.
    assert!(<NdAutomaton as RleEncode>::from_rle("x = 1, y = 1\n\u{e9}!").is_err());
    // A second CXRLE note.
    assert!(<NdAutomaton as RleEncode>::from_rle(
        "#CXRLE Pos=1,2\n#CXRLE Pos=3,4\nx = 1, y = 1\no!"
    )
    .is_err());
    // A position so far down that its reflection cannot be addressed.
    assert!(<NdAutomaton as RleEncode>::from_rle(
        "#CXRLE Pos=0,-9223372036854775808\nx = 1, y = 1\no!"
    )
    .is_err());
    // A two-character state token cut off by the end of the line.
    assert!(<NdAutomaton as RleEncode>::from_rle("x = 1, y = 1\np!").is_err());
}

// Whitespace and line breaks may fall anywhere in the content block.
#[test]
fn test_rle_whitespace_tolerance() {
    let a: NdAutomaton = RleEncode::from_rle("x = 3, y = 3\n bo $ 2bo $ 3o !").unwrap();
    let b: NdAutomaton = RleEncode::from_rle("x = 3, y = 3\nbo$2bo$3o!").unwrap();
    assert_eq!(5u64, a.tree.population());
    for x in -2..6i64 {
        for y in -6..2i64 {
            let p = NdVec::big(vec![x as isize, y as isize]);
            assert_eq!(a.tree.get_cell(&p), b.tree.get_cell(&p));
        }
    }
}
