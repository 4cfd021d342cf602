use codebreaker::{all_possible_codes, Code, CodeParsingError, Peg};

#[test]
fn parse_and_format_round_trip() {
    for text in ["1111", "2514", "6543", "5611"] {
        let code = Code::from_str(text).unwrap();
        assert_eq!(code.to_string(), text);
    }
}

#[test]
fn parse_rejects_short_input() {
    assert_eq!(Code::from_str(""), Err(CodeParsingError::TooFewPegs));
    assert_eq!(Code::from_str("123"), Err(CodeParsingError::TooFewPegs));
}

#[test]
fn parse_rejects_long_input() {
    assert_eq!(Code::from_str("12345"), Err(CodeParsingError::TooManyPegs));
}

#[test]
fn parse_rejects_bad_pegs() {
    assert_eq!(Code::from_str("12a4"), Err(CodeParsingError::InvalidPeg('a')));
    assert_eq!(Code::from_str("0000"), Err(CodeParsingError::InvalidPeg('0')));
    // an invalid character is reported even where the input is also short
    assert_eq!(Code::from_str("779"), Err(CodeParsingError::InvalidPeg('7')));
}

#[test]
fn all_codes_count_and_order() {
    let codes = all_possible_codes();
    assert_eq!(codes.len(), 1296);
    // position 0 is the least significant base-6 digit
    assert_eq!(codes[0].to_string(), "1111");
    assert_eq!(codes[1].to_string(), "2111");
    assert_eq!(codes[6].to_string(), "1211");
    assert_eq!(codes[36].to_string(), "1121");
    assert_eq!(codes[216].to_string(), "1112");
    assert_eq!(codes[1295].to_string(), "6666");
}

#[test]
fn all_codes_are_distinct() {
    let codes = all_possible_codes();
    let mut seen = [false; 1296];
    for code in &codes {
        let text = code.to_string();
        let mut value = 0usize;
        let mut factor = 1usize;
        for c in text.chars() {
            value += factor * (c.to_digit(10).unwrap() as usize - 1);
            factor *= 6;
        }
        assert!(!seen[value], "duplicate code in enumeration");
        seen[value] = true;
    }
    assert!(seen.iter().all(|&s| s));
}

#[test]
fn pegs_convert_to_and_from_chars() {
    for (n, c) in [(0u8, '1'), (1, '2'), (2, '3'), (3, '4'), (4, '5'), (5, '6')] {
        let peg = Peg::new(n);
        assert_eq!(peg.to_char(), c);
        assert_eq!(Peg::from_char(c), Some(peg));
    }
    assert_eq!(Peg::from_char('0'), None);
    assert_eq!(Peg::from_char('7'), None);
    assert_eq!(Peg::from_char('x'), None);
}
