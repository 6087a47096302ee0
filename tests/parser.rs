use bencodex::{parse, BNode, ErrorKind, Parser};

const TORRENT: &str = r#"d8:announce41:http://bttracker.debian.org:6969/announce7:comment35:"Debian CD from cdimage.debian.org"13:creation datei1573903810e9:httpseedsl145:https://cdimage.debian.org/cdimage/release/10.2.0//srv/cdbuilder.debian.org/dst/deb-cd/weekly-builds/amd64/iso-cd/debian-10.2.0-amd64-netinst.iso145:https://cdimage.debian.org/cdimage/archive/10.2.0//srv/cdbuilder.debian.org/dst/deb-cd/weekly-builds/amd64/iso-cd/debian-10.2.0-amd64-netinst.isoe4:infod6:lengthi351272960e4:name31:debian-10.2.0-amd64-netinst.iso12:piece lengthi262144eee"#;

fn round_trip(raw: &str) -> Vec<u8> {
    let node = parse(raw.as_bytes()).unwrap();
    let mut buf = vec![];
    let _ = node.marshal(&mut buf);
    buf
}

#[test]
fn test_parse_integer() {
    let raw = ["i256e", "i-1024e"];
    let expected = [256, -1024];
    for (raw, expected) in raw.iter().zip(expected) {
        let mut parser = Parser::new(raw.as_bytes());
        let value = parser.parse_integer().unwrap();
        assert_eq!(expected, value);
    }
}

#[test]
fn test_parse_integer_failed() {
    let cases = ["i2522", "ie", "i", "i-12-3e", "i13ee"];
    for (i, _) in cases.iter().enumerate() {
        let mut parser = Parser::new(cases[i].as_bytes());
        if parser.parse().is_ok() {
            panic!("{}-th should fail", i);
        }
    }
}

#[test]
fn test_parse_bytes() {
    let mut parser = Parser::new("7:bencode".as_bytes());
    let bytes = parser.parse_bytes().unwrap();
    assert_eq!("bencode".as_bytes(), &bytes);
}

#[test]
fn test_parse_bytes_failed() {
    let cases = ["5:hello2", "5:halo", "521"];
    for (i, _) in cases.iter().enumerate() {
        let mut parser = Parser::new(cases[i].as_bytes());
        if parser.parse().is_ok() {
            panic!("{}-th should fail", i);
        }
    }
}

#[test]
fn lib_test_parse_list() {
    let cases = ["li256e7:bencodeli256e7:bencodeee", "l4:spami42ee", "le"];
    for (i, _) in cases.iter().enumerate() {
        let mut parser = Parser::new(cases[i].as_bytes());
        match parser.parse() {
            Ok(node) => {
                let mut buf = vec![];
                let _ = node.marshal(&mut buf);
                assert_eq!(cases[i].as_bytes(), &buf)
            }
            Err(e) => panic!("{:?}", e),
        }
    }
}

#[test]
fn lib_test_parse_list_failed() {
    let cases = ["l4:halo"];
    for (i, _) in cases.iter().enumerate() {
        let mut parser = Parser::new(cases[i].as_bytes());
        if parser.parse().is_ok() {
            panic!("{}-th should fail", i);
        }
    }
}

#[test]
fn lib_test_parse_nested_list() {
    let raw = "ll5:helloe4:spami42ee";
    let mut parser = Parser::new(raw.as_bytes());
    let bnode = parser.parse().unwrap();

    let mut buf = vec![];
    let _ = bnode.marshal(&mut buf);

    assert_eq!(raw.as_bytes(), &buf);
}

#[test]
fn lib_test_parse_dict() {
    let raw = "d3:bar4:spam3:fooi42ee";
    let mut parser = Parser::new(raw.as_bytes());

    let dict = parser.parse_dict().unwrap();
    assert_eq!(2, dict.len());

    match dict.get("bar").unwrap() {
        BNode::Bytes(bytes) => {
            assert_eq!(&bytes, &"spam".as_bytes());
        }
        _ => panic!("`bar` should have the value `spam`"),
    }

    match dict.get("foo").unwrap() {
        BNode::Integer(iv) => {
            assert_eq!(&42, iv);
        }
        _ => panic!("`foo` should have the value `42`"),
    }
}

#[test]
fn lib_test_parse_dict_failed() {
    let cases = ["d4:haloi23e", "di23e4:haloe"];
    for x in &cases {
        let mut parser = Parser::new(x.as_bytes());
        if parser.parse().is_ok() {
            panic!("Should fail");
        }
    }
}

#[test]
fn lib_test_parse_nested_dict() {
    let raw = TORRENT;
    let mut parser = Parser::new(raw.as_bytes());
    let bnode = parser.parse().unwrap();

    let mut buf = Vec::with_capacity(raw.len());
    let _ = bnode.marshal(&mut buf);

    assert_eq!(&raw.as_bytes(), &buf);
}

#[test]
fn test_parse_number() {
    let raw = ["i256e", "i-1024e"];
    let expected = [256, -1024];
    for x in 0..raw.len() {
        let mut parser = Parser::new(raw[x].as_bytes());
        let value = parser.parse_integer().unwrap();
        assert_eq!(expected[x], value);
    }
}

#[test]
fn test_parse_number_failed() {
    let cases = vec!["i2522", "ie", "i", "i-12-3e", "i13ee"];
    for i in 0..cases.len() {
        match parse(cases[i].as_bytes()) {
            Ok(_) => panic!("{}-th should fail", i),
            Err(_) => (),
        }
    }
}

#[test]
fn test_parse_stream() {
    let mut parser = Parser::new("7:bencode".as_bytes());
    let stream = parser.parse_bytes().unwrap();
    assert_eq!("bencode".as_bytes(), &stream);
}

#[test]
fn test_parse_stream_failed() {
    let cases = vec!["5:hello2", "5:halo", "521"];
    for i in 0..cases.len() {
        match parse(cases[i].as_bytes()) {
            Ok(_) => panic!("{}-th should fail", i),
            Err(_) => (),
        }
    }
}

#[test]
fn new_test_parse_list() {
    let cases = vec!["li256e7:bencodeli256e7:bencodeee", "l4:spami42ee", "le"];
    for i in 0..cases.len() {
        let x = cases[i];
        match parse(x.as_bytes()) {
            Ok(node) => {
                let mut buf = vec![];
                node.marshal(&mut buf);
                assert_eq!(x.as_bytes(), &buf)
            }
            Err(e) => panic!("{:?}", e),
        }
    }
}

#[test]
fn new_test_parse_list_failed() {
    let cases = vec!["l4:halo"];
    for i in 0..cases.len() {
        match parse(cases[i].as_bytes()) {
            Ok(_) => panic!("{}-th should fail", i),
            Err(_) => (),
        }
    }
}

#[test]
fn new_test_parse_nested_list() {
    let raw = "ll5:helloe4:spami42ee";
    let bnode = parse(raw.as_bytes()).unwrap();
    let mut buf = vec![];
    bnode.marshal(&mut buf);
    assert_eq!(raw.as_bytes(), &buf);
}

#[test]
fn new_test_parse_dict() {
    let raw = "d3:bar4:spam3:fooi42ee";
    let mut parser = Parser::new(raw.as_bytes());

    let dict = parser.parse_dict().unwrap();
    assert_eq!(2, dict.len());

    match dict.get("bar").unwrap() {
        BNode::Bytes(stream) => {
            assert_eq!(&stream, &"spam".as_bytes());
        }
        _ => panic!("`bar` should have the value `spam`"),
    }

    match dict.get("foo").unwrap() {
        BNode::Integer(iv) => {
            assert_eq!(&42, iv);
        }
        _ => panic!("`foo` should have the value `42`"),
    }
}

#[test]
fn new_test_parse_dict_failed() {
    let cases = vec!["d4:haloi23e", "di23e4:haloe"];
    for x in &cases {
        match parse(x.as_bytes()) {
            Ok(_) => panic!("Should fail"),
            Err(_) => (),
        }
    }
}

#[test]
fn new_test_parse_nested_dict() {
    let raw = TORRENT;
    let bnode = parse(raw.as_bytes()).unwrap();
    let mut buf = Vec::with_capacity(raw.len());
    bnode.marshal(&mut buf);
    assert_eq!(&raw.as_bytes(), &buf);
}

#[test]
fn rejection_set() {
    let cases = [
        "i2522", "ie", "i", "i-12-3e", "i13ee", "5:hello2", "5:halo", "l4:halo", "d4:haloi23e", "di23e4:haloe",
    ];
    for raw in cases.iter() {
        assert!(parse(raw.as_bytes()).is_err(), "{}", raw);
    }
}

#[test]
fn parse_error_kinds() {
    let cases: [(&str, ErrorKind, usize); 17] = [
        ("ie", ErrorKind::EmptyInteger, 1),
        ("i-e", ErrorKind::EmptyInteger, 2),
        ("i2522", ErrorKind::UnterminatedNumber, 5),
        ("i-12-3e", ErrorKind::MisplacedSign, 4),
        ("i13ee", ErrorKind::TrailingData, 4),
        ("5:halo", ErrorKind::TruncatedByteString(4), 6),
        ("5:hello2", ErrorKind::TrailingData, 7),
        ("i1ei2e", ErrorKind::TrailingData, 3),
        ("di23e4:haloe", ErrorKind::NonStringDictKey, 1),
        ("d3:fooe", ErrorKind::UnexpectedToken, 6),
        ("", ErrorKind::UnexpectedToken, 0),
        ("e", ErrorKind::UnmatchedEnd, 0),
        ("l4:halo", ErrorKind::UnexpectedToken, 7),
        ("dle", ErrorKind::NonStringDictKey, 1),
        ("d1:ai1ei2ee", ErrorKind::NonStringDictKey, 7),
        ("d1:ai1e", ErrorKind::UnexpectedToken, 7),
        ("lx", ErrorKind::UnknownToken, 1),
    ];
    for (raw, kind, position) in cases.iter() {
        let e = parse(raw.as_bytes()).unwrap_err();
        assert_eq!(*kind, e.kind, "{:?}", raw);
        assert_eq!(*position, e.position, "{:?}", raw);
    }
}

#[test]
fn invalid_utf8_key_is_rejected() {
    let raw: &[u8] = &[b'd', b'2', b':', 0xff, 0xfe, b'i', b'1', b'e', b'e'];
    let e = parse(raw).unwrap_err();
    assert_eq!(ErrorKind::InvalidKeyEncoding, e.kind);
}

#[test]
fn utf8_key_is_kept() {
    let raw = "d5:\u{e9}t\u{e9}i1ee";
    let node = parse(raw.as_bytes()).unwrap();
    let dict = node.as_dict().unwrap();
    assert_eq!(&BNode::Integer(1), dict.get("\u{e9}t\u{e9}").unwrap());
    assert!(dict.get("ete").is_none());
    assert_eq!(raw.as_bytes(), round_trip(raw).as_slice());
}

#[test]
fn acceptance_with_exact_output() {
    let raw = "d3:bar4:spam3:fooi42ee";
    let node = parse(raw.as_bytes()).unwrap();
    let dict = node.as_dict().unwrap();
    assert_eq!(2, dict.len());
    assert_eq!(b"spam".as_slice(), dict.get("bar").unwrap().as_bytes().unwrap());
    assert_eq!(&42, dict.get("foo").unwrap().as_integer().unwrap());
    assert_eq!(raw.as_bytes(), round_trip(raw).as_slice());
}

#[test]
fn empty_containers() {
    let list = parse(b"le").unwrap();
    assert_eq!(0, list.as_list().unwrap().len());
    assert_eq!(b"le".to_vec(), round_trip("le"));
    let dict = parse(b"de").unwrap();
    assert_eq!(0, dict.as_dict().unwrap().len());
    assert_eq!(b"de".to_vec(), round_trip("de"));
}

#[test]
fn negative_and_large_integers() {
    assert_eq!(&-1024, parse(b"i-1024e").unwrap().as_integer().unwrap());
    assert_eq!(&2147483648, parse(b"i2147483648e").unwrap().as_integer().unwrap());
    assert_eq!(&i64::MAX, parse(b"i9223372036854775807e").unwrap().as_integer().unwrap());
    assert_eq!(&i64::MIN, parse(b"i-9223372036854775808e").unwrap().as_integer().unwrap());
    assert_eq!(&0, parse(b"i0e").unwrap().as_integer().unwrap());
    assert_eq!(ErrorKind::IntegerOverflow, parse(b"i9223372036854775808e").unwrap_err().kind);
    assert_eq!(ErrorKind::NegativeZero, parse(b"i-0e").unwrap_err().kind);
    assert_eq!(ErrorKind::LeadingZero, parse(b"i03e").unwrap_err().kind);
}

#[test]
fn round_trip_of_canonical_inputs() {
    let cases = ["i0e", "0:", "4:spam", "ll5:helloe4:spami42ee", "d1:ad1:bleee", "li-3ei0ei7ee", TORRENT];
    for raw in cases.iter() {
        assert_eq!(raw.as_bytes(), round_trip(raw).as_slice(), "{}", raw);
    }
}

#[test]
fn unsorted_keys_come_out_sorted() {
    assert_eq!(b"d3:bari2e3:fooi1ee".to_vec(), round_trip("d3:fooi1e3:bari2ee"));
}

#[test]
fn repeated_key_keeps_last_value() {
    let node = parse(b"d1:ai1e1:bi2e1:ai3ee").unwrap();
    let dict = node.as_dict().unwrap();
    assert_eq!(2, dict.len());
    assert_eq!(&3, dict.get("a").unwrap().as_integer().unwrap());
    assert_eq!(b"d1:ai3e1:bi2ee".to_vec(), round_trip("d1:ai1e1:bi2e1:ai3ee"));
}

#[test]
fn serialize_parse_serialize_is_stable() {
    let inputs = ["d3:fooi1e3:bari2ee", "ld1:zi0e1:ai1eee", "i-5e"];
    for raw in inputs.iter() {
        let once = round_trip(raw);
        let twice = parse(&once).unwrap();
        let mut buf = vec![];
        twice.marshal(&mut buf);
        assert_eq!(once, buf, "{}", raw);
    }
}

#[test]
fn non_canonical_lengths_are_rejected() {
    assert_eq!(ErrorKind::LeadingZero, parse(b"05:hello").unwrap_err().kind);
    assert!(parse(b"00:").is_err());
    assert_eq!(b"0:".to_vec(), round_trip("0:"));
}
