use bencodex::{ErrorKind, Lexer, Parser, Token};

#[test]
fn lib_test_lexer_read_i64_before() {
    let raws = ["2147483648e", "0e"];
    let ret = [2147483648, 0];

    for i in 0..raws.len() {
        let mut lexer = Lexer::new(raws[i].as_bytes());
        let (value, _) = lexer.read_i64_before(b'e').unwrap();
        assert_eq!(ret[i], value);
    }
}

#[test]
fn lib_test_lexer_read_negative_zero() {
    let mut lexer = Lexer::new("-0e".as_bytes());
    let _ = lexer.read_i64_before(b'e').expect_err("Negative zero is not permitted");
}

#[test]
fn lib_test_lexer_no_leading_zero() {
    let raws = ["00e", "01e"];
    for raw in raws.iter() {
        let mut lexer = Lexer::new(raw.as_bytes());
        let _ = lexer.read_i64_before(b'e').expect_err("Leading zero is not permitted");
    }
}

#[test]
fn test_lexer_read_bytes() {
    let mut lexer = Lexer::new("bencode".as_bytes());

    let raw_bytes = lexer.read_bytes(3).unwrap();
    assert_eq!("ben".as_bytes(), &raw_bytes);

    let raw_bytes = lexer.read_bytes(4).unwrap();
    assert_eq!("code".as_bytes(), &raw_bytes);
}

#[test]
fn test_lexer_position_read_bytes() {
    let mut lexer = Lexer::new("bencode".as_bytes());

    let _ = lexer.read_bytes(3).unwrap();
    assert_eq!(2, lexer.position());

    let _ = lexer.read_bytes(4).unwrap();
    assert_eq!(6, lexer.position());
}

#[test]
fn test_lexer_position_cache_token() {
    let mut lexer = Lexer::new("i56e".as_bytes());

    let _ = lexer.look_ahead().unwrap();
    assert_eq!(0, lexer.position());

    let _ = lexer.look_ahead().unwrap();
    assert_eq!(0, lexer.position());
}

// The counter of consumed bytes never moves back: reading up to the colon
// takes the colon from the input (offset 1) and keeps it for the next read,
// which hands it over without counting it again.
#[test]
fn test_lexer_position_read_i64_before() {
    let mut lexer = Lexer::new("7:bencode".as_bytes());

    lexer.read_i64_before(b':').unwrap();
    assert_eq!(1, lexer.position());
    lexer.read_bytes(1).unwrap();
    assert_eq!(1, lexer.position());
}

#[test]
fn test_lexer_position_error() {
    let mut parser = Parser::new("i-2-0e".as_bytes());
    assert_eq!(3, parser.parse_integer().unwrap_err().position)
}

#[test]
fn lib_test_lexer_look_ahead() {
    let mut lexer = Lexer::new("i256e".as_bytes());

    assert_eq!(Token::IntegerBegin, lexer.look_ahead().unwrap());
    assert_eq!(Token::IntegerBegin, lexer.look_ahead().unwrap());
}

#[test]
fn new_test_lexer_read_i64_before() {
    let raws = ["2147483648e", "0e"];
    let ret = [2147483648, 0];

    for i in 0..raws.len() {
        let mut lexer = Lexer::new(raws[i].as_bytes());
        let (value, _) = lexer.read_i64_before(b'e').unwrap();
        assert_eq!(ret[i], value);
    }
}

#[test]
fn new_test_lexer_read_negative_zero() {
    let mut lexer = Lexer::new("-0e".as_bytes());
    let _ = lexer.read_i64_before(b'e').expect_err("Negative zero is not permitted");
}

#[test]
fn new_test_lexer_no_leading_zero() {
    let raws = ["00e", "01e"];
    for raw in raws.iter() {
        let mut lexer = Lexer::new(raw.as_bytes());
        let _ = lexer.read_i64_before(b'e').expect_err("Leading zero is not permitted");
    }
}

#[test]
fn test_lexer_read_nbytes() {
    let mut lexer = Lexer::new("bencode".as_bytes());

    let raw_bytes = lexer.read_bytes(3).unwrap();
    assert_eq!("ben".as_bytes(), &raw_bytes);

    let raw_bytes = lexer.read_bytes(4).unwrap();
    assert_eq!("code".as_bytes(), &raw_bytes);
}

#[test]
fn test_lexer_position_case1() {
    let mut lexer = Lexer::new("bencode".as_bytes());

    let _ = lexer.read_bytes(3).unwrap();
    assert_eq!(2, lexer.position());

    let _ = lexer.read_bytes(4).unwrap();
    assert_eq!(6, lexer.position());
}

#[test]
fn test_lexer_position_case2() {
    let mut lexer = Lexer::new("i56e".as_bytes());

    let _ = lexer.look_ahead().unwrap();
    assert_eq!(0, lexer.position());

    let _ = lexer.look_ahead().unwrap();
    assert_eq!(0, lexer.position());
}

#[test]
fn test_lexer_position_case3() {
    let mut lexer = Lexer::new("7:bencode".as_bytes());

    let _ = lexer.look_ahead().unwrap();
    assert_eq!(1, lexer.position());
}

#[test]
fn test_lexer_position_case4() {
    let mut parser = Parser::new("i-2-0e".as_bytes());
    assert_eq!(3, parser.parse_integer().unwrap_err().position)
}

#[test]
fn new_test_lexer_look_ahead() {
    let mut lexer = Lexer::new("i256e".as_bytes());

    assert_eq!(Token::IntegerBegin, lexer.look_ahead().unwrap());
    assert_eq!(Token::IntegerBegin, lexer.look_ahead().unwrap());
}

#[test]
fn lexer_tokens_of_a_dictionary() {
    let mut lexer = Lexer::new("d3:fooli-7eee".as_bytes());
    let expected = [
        Token::DictBegin,
        Token::Length(3),
        Token::Colon,
    ];
    for t in expected.iter() {
        assert_eq!(*t, lexer.next_token().unwrap());
    }
    assert_eq!(b"foo".to_vec(), lexer.read_bytes(3).unwrap());
    let rest = [
        Token::ListBegin,
        Token::IntegerBegin,
    ];
    for t in rest.iter() {
        assert_eq!(*t, lexer.next_token().unwrap());
    }
    assert_eq!((-7, 1), lexer.read_i64_before(b'e').unwrap());
    let ends = [Token::IntegerEnd, Token::ListEnd, Token::DictEnd, Token::EndOfInput];
    for t in ends.iter() {
        assert_eq!(*t, lexer.next_token().unwrap());
    }
}

#[test]
fn lexer_error_kinds() {
    let cases: [(&str, u8, ErrorKind, usize); 7] = [
        ("-0e", b'e', ErrorKind::NegativeZero, 1),
        ("01e", b'e', ErrorKind::LeadingZero, 1),
        ("1-2e", b'e', ErrorKind::MisplacedSign, 1),
        ("12x", b'e', ErrorKind::InvalidInteger, 2),
        ("123", b'e', ErrorKind::UnterminatedNumber, 3),
        ("9223372036854775808e", b'e', ErrorKind::IntegerOverflow, 18),
        ("-9223372036854775809e", b'e', ErrorKind::IntegerOverflow, 19),
    ];
    for (raw, term, kind, position) in cases.iter() {
        let mut lexer = Lexer::new(raw.as_bytes());
        let e = lexer.read_i64_before(*term).unwrap_err();
        assert_eq!(*kind, e.kind, "{}", raw);
        assert_eq!(*position, e.position, "{}", raw);
    }
}

#[test]
fn lexer_reads_extreme_integers() {
    let mut lexer = Lexer::new("9223372036854775807e".as_bytes());
    assert_eq!((i64::MAX, 19), lexer.read_i64_before(b'e').unwrap());
    let mut lexer = Lexer::new("-9223372036854775808e".as_bytes());
    assert_eq!((i64::MIN, 19), lexer.read_i64_before(b'e').unwrap());
}

#[test]
fn lexer_token_errors() {
    let cases: [(&str, ErrorKind, usize); 4] = [
        ("e", ErrorKind::UnmatchedEnd, 0),
        (":", ErrorKind::MisplacedColon, 0),
        ("x", ErrorKind::UnknownToken, 0),
        ("05:hello", ErrorKind::LeadingZero, 1),
    ];
    for (raw, kind, position) in cases.iter() {
        let mut lexer = Lexer::new(raw.as_bytes());
        let e = lexer.next_token().unwrap_err();
        assert_eq!(*kind, e.kind, "{}", raw);
        assert_eq!(*position, e.position, "{}", raw);
    }
}

#[test]
fn lexer_truncated_bytes() {
    let mut lexer = Lexer::new("abc".as_bytes());
    let e = lexer.read_bytes(5).unwrap_err();
    assert_eq!(ErrorKind::TruncatedByteString(3), e.kind);
    assert_eq!(3, e.position);
}

#[test]
fn lexer_consumed_bytes_after_each_read() {
    let mut lexer = Lexer::new("3:abci7e".as_bytes());
    assert_eq!(Token::Length(3), lexer.look_ahead().unwrap());
    assert_eq!(1, lexer.position());
    assert_eq!(0, lexer.offset());
    assert_eq!(Token::Length(3), lexer.next_token().unwrap());
    assert_eq!(1, lexer.offset());
    assert_eq!(Token::Colon, lexer.next_token().unwrap());
    assert_eq!(b"abc".to_vec(), lexer.read_bytes(3).unwrap());
    assert_eq!(4, lexer.position());
    assert_eq!(5, lexer.offset());
}
