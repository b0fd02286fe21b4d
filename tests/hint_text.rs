use delta_encode::hints::Hint;
use delta_encode::parse::{parse_pairs, parse_widths};
use delta_encode::stream::DeltaError;

#[test]
fn subbits_text_lists_widths() {
    let h = Hint::subbits_from_text("5, 8, 10, 16").unwrap();
    assert!(matches!(h, Hint::SubBits(ref ws) if *ws == vec![5, 8, 10, 16]));
}

#[test]
fn subbits_text_lists_pairs() {
    let h = Hint::subbits_from_text("6:4,10:4,-1:-1").unwrap();
    assert!(matches!(h, Hint::FixedSubBits(ref ps) if *ps == vec![(6, 4), (10, 4), (-1, -1)]));
    let h = Hint::subbits_from_text(" 4:5 , 6:5,10:5,16:5,-1:-1 ").unwrap();
    assert!(matches!(h, Hint::FixedSubBits(ref ps) if ps.len() == 5 && ps[3] == (16, 5)));
}

#[test]
fn bits_text() {
    assert!(matches!(Hint::bits_from_text("16"), Ok(Hint::Bits(16))));
    assert!(matches!(Hint::bits_from_text(" 3 "), Ok(Hint::Bits(3))));
    assert!(matches!(Hint::bits_from_text("6:4"), Ok(Hint::FixedBits(6, 4))));
    assert!(matches!(Hint::bits_from_text("x"), Err(DeltaError::InvalidHint)));
    assert!(matches!(Hint::bits_from_text("-3"), Err(DeltaError::InvalidHint)));
    assert!(matches!(Hint::bits_from_text("1:2:3"), Err(DeltaError::InvalidHint)));
    assert!(matches!(Hint::bits_from_text("1234567890"), Err(DeltaError::InvalidHint)));
}

#[test]
fn malformed_lists() {
    assert_eq!(parse_widths(""), Err(DeltaError::InvalidHint));
    assert_eq!(parse_widths("4,,8"), Err(DeltaError::InvalidHint));
    assert_eq!(parse_widths("4,-8"), Err(DeltaError::InvalidHint));
    assert_eq!(parse_widths("4,8"), Ok(vec![4, 8]));
    assert_eq!(parse_pairs("6:4,10"), Err(DeltaError::InvalidHint));
    assert_eq!(parse_pairs("6:4, 10:-4"), Ok(vec![(6, 4), (10, -4)]));
}
