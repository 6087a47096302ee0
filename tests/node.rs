use bencodex::node::compare_bytes;
use bencodex::{parse, BDict, BNode};

fn text(node: &BNode) -> Vec<u8> {
    let mut buf = vec![];
    let written = node.marshal(&mut buf);
    assert_eq!(written, buf.len());
    buf
}

#[test]
fn marshal_constructed_dictionary() {
    let mut dict = BDict::new();
    dict.insert("foo".to_string(), BNode::Integer(42));
    dict.insert("bar".to_string(), BNode::Bytes("spam".bytes().collect()));
    let node = BNode::Dict(dict);
    assert_eq!(b"d3:bar4:spam3:fooi42ee".to_vec(), text(&node));
}

#[test]
fn marshal_scalars() {
    assert_eq!(b"i0e".to_vec(), text(&BNode::Integer(0)));
    assert_eq!(b"i-1024e".to_vec(), text(&BNode::Integer(-1024)));
    assert_eq!(b"i-9223372036854775808e".to_vec(), text(&BNode::Integer(i64::MIN)));
    assert_eq!(b"i9223372036854775807e".to_vec(), text(&BNode::Integer(i64::MAX)));
    assert_eq!(b"0:".to_vec(), text(&BNode::Bytes(vec![])));
    assert_eq!(b"12:hello, world".to_vec(), text(&BNode::Bytes(b"hello, world".to_vec())));
}

#[test]
fn marshal_appends_to_buffer() {
    let mut buf = b"xy".to_vec();
    let written = BNode::List(vec![BNode::Integer(1), BNode::Bytes(b"a".to_vec())]).marshal(&mut buf);
    assert_eq!(8, written);
    assert_eq!(b"xyli1e1:ae".to_vec(), buf);
}

#[test]
fn to_canonical_text() {
    let node = BNode::List(vec![BNode::List(vec![]), BNode::Dict(BDict::new())]);
    assert_eq!(b"lledee".to_vec(), node.to_canonical());
}

#[test]
fn dictionary_insert_keeps_order_and_replaces() {
    let mut dict = BDict::new();
    for (k, v) in [("b", 1), ("a", 2), ("c", 3), ("ab", 4), ("a", 5)].iter() {
        dict.insert(k.to_string(), BNode::Integer(*v));
    }
    assert_eq!(4, dict.len());
    let keys: Vec<&str> = dict.entries().iter().map(|e| e.0.as_str()).collect();
    assert_eq!(vec!["a", "ab", "b", "c"], keys);
    assert_eq!(&BNode::Integer(5), dict.get("a").unwrap());
    assert!(dict.get("d").is_none());
    assert_eq!(b"d1:ai5e2:abi4e1:bi1e1:ci3ee".to_vec(), text(&BNode::Dict(dict)));
}

#[test]
fn accessors_tell_kinds_apart() {
    let i = BNode::Integer(7);
    let b = BNode::Bytes(b"x".to_vec());
    let l = BNode::List(vec![BNode::Integer(1)]);
    let d = BNode::Dict(BDict::new());
    assert_eq!(&7, i.as_integer().unwrap());
    assert_eq!("not an integer", b.as_integer().unwrap_err());
    assert_eq!(b"x".as_slice(), b.as_bytes().unwrap());
    assert_eq!("not a byte array", l.as_bytes().unwrap_err());
    assert_eq!(1, l.as_list().unwrap().len());
    assert_eq!("not a list", d.as_list().unwrap_err());
    assert_eq!(0, d.as_dict().unwrap().len());
    assert_eq!("not a dictionary", i.as_dict().unwrap_err());
}

#[test]
fn conversions_into_nodes() {
    assert_eq!(BNode::Integer(3), BNode::from(3i64));
    assert_eq!(BNode::Bytes(b"ab".to_vec()), BNode::from(b"ab".to_vec()));
    assert_eq!(BNode::List(vec![]), BNode::from(Vec::<BNode>::new()));
    assert_eq!(BNode::Dict(BDict::new()), BNode::from(BDict::new()));
    assert_eq!(BNode::Bytes(b"ab".to_vec()), BNode::from_bytes(b"ab"));
    assert_eq!(BNode::Bytes("h\u{e9}".as_bytes().to_vec()), BNode::from("h\u{e9}".to_string()));
    assert_eq!(BNode::Bytes("h\u{e9}".as_bytes().to_vec()), BNode::from_text("h\u{e9}"));
}

#[test]
fn compare_bytes_orders_like_slices() {
    let cases: [(&[u8], &[u8]); 6] = [(b"", b""), (b"a", b""), (b"", b"a"), (b"ab", b"b"), (b"b", b"ab"), (b"abc", b"abc")];
    for (a, b) in cases.iter() {
        let r = compare_bytes(a, b);
        assert_eq!(a.cmp(b), r.cmp(&0), "{:?} {:?}", a, b);
    }
}

#[test]
fn serialize_parse_serialize_constructed() {
    let mut inner = BDict::new();
    inner.insert("z".to_string(), BNode::Bytes(vec![0, 255, 58]));
    inner.insert("m".to_string(), BNode::List(vec![BNode::Integer(-1), BNode::Integer(10)]));
    let node = BNode::List(vec![BNode::Dict(inner), BNode::Integer(i64::MIN)]);
    let first = text(&node);
    let again = parse(&first).unwrap();
    assert_eq!(node, again);
    assert_eq!(first, text(&again));
}
