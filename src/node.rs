//! The value tree that decoding builds, and the serializer that writes it
//! back as canonical bencode.
use vstd::prelude::*;
use vstd::utf8::encode_utf8;
use vstd::string::StringSliceAdditionalSpecFns;
use crate::value::{
    Value, canonical, dict_insert, encode, encode_bytes, encode_entries, encode_items, keys_sorted,
    lemma_lex_irreflexive, lemma_lex_skip, lemma_lex_transitive, lex_lt, COLON, DICT_BEGIN, END,
    INT_BEGIN, LIST_BEGIN,
};
use crate::decimal::{write_int, write_nat};
use crate::encoding::lemma_dict_insert_skip;
use vstd::slice::slice_to_vec;

verus! {

/// A decoded bencode value.
#[derive(Debug, PartialEq, Eq)]
pub enum BNode {
    Integer(i64),
    Bytes(Vec<u8>),
    List(Vec<BNode>),
    Dict(BDict),
}

/// A dictionary: its entries, always in strictly increasing byte order of
/// their keys.
#[derive(Debug, PartialEq, Eq)]
pub struct BDict {
    entries: Vec<(String, BNode)>,
}

/// The bytes of a key.
pub open spec fn key_bytes(k: String) -> Seq<u8> {
    encode_utf8(k@)
}

pub open spec fn node_value(n: BNode) -> Value
    decreases n,
{
    match n {
        BNode::Integer(i) => Value::Int(i as int),
        BNode::Bytes(b) => Value::Bytes(b@),
        BNode::List(l) => Value::List(items_value(l@)),
        BNode::Dict(d) => Value::Dict(dict_value(d)),
    }
}

pub open spec fn items_value(s: Seq<BNode>) -> Seq<Value>
    decreases s,
{
    if s.len() == 0 {
        Seq::empty()
    } else {
        items_value(s.subrange(0, s.len() - 1)).push(node_value(s[s.len() - 1]))
    }
}

/// The entries of a dictionary as values.
pub closed spec fn dict_value(d: BDict) -> Seq<(Seq<u8>, Value)>
    decreases d,
{
    entries_value(d.entries@)
}

pub open spec fn entries_value(s: Seq<(String, BNode)>) -> Seq<(Seq<u8>, Value)>
    decreases s,
{
    if s.len() == 0 {
        Seq::empty()
    } else {
        let e = s[s.len() - 1];
        entries_value(s.subrange(0, s.len() - 1)).push((key_bytes(e.0), node_value(e.1)))
    }
}

impl View for BNode {
    type V = Value;

    open spec fn view(&self) -> Value {
        node_value(*self)
    }
}

impl View for BDict {
    type V = Seq<(Seq<u8>, Value)>;

    open spec fn view(&self) -> Seq<(Seq<u8>, Value)> {
        dict_value(*self)
    }
}

/// Appends `bytes` to `buf`.
pub fn push_all(bytes: &[u8], buf: &mut Vec<u8>)
    requires
        old(buf)@.len() + bytes@.len() <= usize::MAX,
    ensures
        final(buf)@ == old(buf)@ + bytes@,
{
    let mut k: usize = 0;
    while k < bytes.len()
        invariant
            k <= bytes@.len(),
            old(buf)@.len() + bytes@.len() <= usize::MAX,
            buf@ == old(buf)@ + bytes@.subrange(0, k as int),
        decreases bytes@.len() - k,
    {
        buf.push(bytes[k]);
        k += 1;
        assert(buf@ =~= old(buf)@ + bytes@.subrange(0, k as int));
    }
    assert(bytes@.subrange(0, k as int) =~= bytes@);
}

/// Appends the text of a byte string: its length, a colon, its bytes.
fn write_bytes(bytes: &[u8], buf: &mut Vec<u8>)
    requires
        old(buf)@.len() + encode_bytes(bytes@).len() <= usize::MAX,
    ensures
        final(buf)@ == old(buf)@ + encode_bytes(bytes@),
{
    write_nat(bytes.len() as u64, buf);
    buf.push(COLON);
    push_all(bytes, buf);
    assert(buf@ =~= old(buf)@ + encode_bytes(bytes@));
}

proof fn lemma_items_prefix(s: Seq<BNode>, k: int)
    requires
        0 <= k < s.len(),
    ensures
        encode_items(items_value(s.subrange(0, k + 1))) == encode_items(items_value(s.subrange(0, k))) + encode(
            node_value(s[k]),
        ),
        items_value(s.subrange(0, k + 1)) == items_value(s.subrange(0, k)).push(node_value(s[k])),
{
    let p = s.subrange(0, k + 1);
    assert(p.subrange(0, k) =~= s.subrange(0, k));
    let v = items_value(p);
    assert(v == items_value(s.subrange(0, k)).push(node_value(s[k])));
    assert(v.subrange(0, v.len() - 1) =~= items_value(s.subrange(0, k)));
}

proof fn lemma_items_prefix_len(s: Seq<BNode>, k: int)
    requires
        0 <= k <= s.len(),
    ensures
        encode_items(items_value(s.subrange(0, k))).len() <= encode_items(items_value(s)).len(),
    decreases s.len() - k,
{
    if k < s.len() {
        lemma_items_prefix(s, k);
        lemma_items_prefix_len(s, k + 1);
    } else {
        assert(s.subrange(0, k) =~= s);
    }
}

proof fn lemma_entries_prefix(s: Seq<(String, BNode)>, k: int)
    requires
        0 <= k < s.len(),
    ensures
        encode_entries(entries_value(s.subrange(0, k + 1))) == encode_entries(entries_value(s.subrange(0, k)))
            + encode_bytes(key_bytes(s[k].0)) + encode(node_value(s[k].1)),
        entries_value(s.subrange(0, k + 1)) == entries_value(s.subrange(0, k)).push(
            (key_bytes(s[k].0), node_value(s[k].1)),
        ),
{
    let p = s.subrange(0, k + 1);
    assert(p.subrange(0, k) =~= s.subrange(0, k));
    let v = entries_value(p);
    assert(v == entries_value(s.subrange(0, k)).push((key_bytes(s[k].0), node_value(s[k].1))));
    assert(v.subrange(0, v.len() - 1) =~= entries_value(s.subrange(0, k)));
}

proof fn lemma_entries_prefix_len(s: Seq<(String, BNode)>, k: int)
    requires
        0 <= k <= s.len(),
    ensures
        encode_entries(entries_value(s.subrange(0, k))).len() <= encode_entries(entries_value(s)).len(),
    decreases s.len() - k,
{
    if k < s.len() {
        lemma_entries_prefix(s, k);
        lemma_entries_prefix_len(s, k + 1);
    } else {
        assert(s.subrange(0, k) =~= s);
    }
}

impl BNode {
    /// Every dictionary in the tree holds its keys in strictly increasing
    /// byte order.
    pub open spec fn wf(&self) -> bool {
        canonical(self@)
    }

    /// Appends the canonical bencode text of the node to `buf` and returns
    /// how many bytes it wrote. Dictionary entries are written in the order
    /// the dictionary holds them, which `BDict` keeps sorted by key.
    pub fn marshal(&self, buf: &mut Vec<u8>) -> (w: usize)
        requires
            old(buf)@.len() + encode(self@).len() <= usize::MAX,
        ensures
            final(buf)@ == old(buf)@ + encode(self@),
            w == encode(self@).len(),
        decreases self,
    {
        let start = buf.len();
        match self {
            BNode::Integer(i) => {
                buf.push(INT_BEGIN);
                write_int(*i, buf);
                buf.push(END);
                assert(buf@ =~= old(buf)@ + encode(self@));
            },
            BNode::Bytes(b) => {
                write_bytes(b.as_slice(), buf);
            },
            BNode::List(l) => {
                buf.push(LIST_BEGIN);
                let mut k: usize = 0;
                assert(l@.subrange(0, 0) =~= Seq::<BNode>::empty());
                while k < l.len()
                    invariant
                        k <= l@.len(),
                        *self == BNode::List(*l),
                        self@ == Value::List(items_value(l@)),
                        old(buf)@.len() + encode(self@).len() <= usize::MAX,
                        encode(self@) == seq![LIST_BEGIN] + encode_items(items_value(l@)) + seq![END],
                        buf@ == old(buf)@ + seq![LIST_BEGIN] + encode_items(items_value(l@.subrange(0, k as int))),
                    decreases l@.len() - k,
                {
                    proof {
                        lemma_items_prefix(l@, k as int);
                        lemma_items_prefix_len(l@, k + 1);
                        assert(decreases_to!(*self => (*self)->List_0));
                        assert(decreases_to!(*l => l[k as int]));
                    }
                    l[k].marshal(buf);
                    k += 1;
                    assert(buf@ =~= old(buf)@ + seq![LIST_BEGIN] + encode_items(items_value(l@.subrange(0, k as int))));
                }
                assert(l@.subrange(0, k as int) =~= l@);
                buf.push(END);
                assert(buf@ =~= old(buf)@ + encode(self@));
            },
            BNode::Dict(d) => {
                buf.push(DICT_BEGIN);
                let es = &d.entries;
                let mut k: usize = 0;
                assert(es@.subrange(0, 0) =~= Seq::<(String, BNode)>::empty());
                while k < es.len()
                    invariant
                        k <= es@.len(),
                        *self == BNode::Dict(*d),
                        es == &d.entries,
                        self@ == Value::Dict(entries_value(es@)),
                        old(buf)@.len() + encode(self@).len() <= usize::MAX,
                        encode(self@) == seq![DICT_BEGIN] + encode_entries(entries_value(es@)) + seq![END],
                        buf@ == old(buf)@ + seq![DICT_BEGIN] + encode_entries(entries_value(es@.subrange(0, k as int))),
                    decreases es@.len() - k,
                {
                    proof {
                        lemma_entries_prefix(es@, k as int);
                        lemma_entries_prefix_len(es@, k + 1);
                        assert(decreases_to!(*self => (*self)->Dict_0));
                        assert(decreases_to!(*d => d.entries));
                        assert(k < d.entries.len());
                        assert(decreases_to!(d.entries => d.entries[k as int]));
                        assert(decreases_to!(d.entries[k as int] => d.entries[k as int].1));
                    }
                    let key = es[k].0.as_str().as_bytes();
                    write_bytes(key, buf);
                    es[k].1.marshal(buf);
                    k += 1;
                    assert(buf@ =~= old(buf)@ + seq![DICT_BEGIN] + encode_entries(entries_value(es@.subrange(0, k as int))));
                }
                assert(es@.subrange(0, k as int) =~= es@);
                buf.push(END);
                assert(buf@ =~= old(buf)@ + encode(self@));
            },
        }
        buf.len() - start
    }
}

/// Compares two byte strings in byte-lexicographic order: negative, zero or
/// positive as `a` is less than, equal to or greater than `b`.
pub fn compare_bytes(a: &[u8], b: &[u8]) -> (r: i8)
    ensures
        r == 0 <==> a@ == b@,
        r < 0 <==> lex_lt(a@, b@),
        r > 0 <==> lex_lt(b@, a@),
{
    let mut i: usize = 0;
    while i < a.len() && i < b.len()
        invariant
            i <= a@.len(),
            i <= b@.len(),
            a@.subrange(0, i as int) == b@.subrange(0, i as int),
        decreases a@.len() - i,
    {
        if a[i] != b[i] {
            proof {
                lemma_lex_skip(a@, b@, i as int);
                lemma_lex_skip(b@, a@, i as int);
                assert(a@.subrange(i as int, a@.len() as int)[0] == a@[i as int]);
                assert(b@.subrange(i as int, b@.len() as int)[0] == b@[i as int]);
            }
            if a[i] < b[i] {
                return -1;
            } else {
                return 1;
            }
        }
        i = i + 1;
        assert(a@.subrange(0, i as int) =~= a@.subrange(0, i - 1).push(a@[i - 1]));
        assert(b@.subrange(0, i as int) =~= b@.subrange(0, i - 1).push(b@[i - 1]));
    }
    proof {
        lemma_lex_skip(a@, b@, i as int);
        lemma_lex_skip(b@, a@, i as int);
    }
    if a.len() == b.len() {
        proof {
            assert(a@ =~= a@.subrange(0, i as int));
            assert(b@ =~= b@.subrange(0, i as int));
            lemma_lex_irreflexive(a@);
        }
        0
    } else if a.len() < b.len() {
        -1
    } else {
        1
    }
}

proof fn lemma_entries_map(e: Seq<(String, BNode)>)
    ensures
        entries_value(e).len() == e.len(),
        forall|j: int| 0 <= j < e.len() ==> #[trigger] entries_value(e)[j] == (key_bytes(e[j].0), node_value(e[j].1)),
    decreases e.len(),
{
    if e.len() > 0 {
        lemma_entries_map(e.subrange(0, e.len() - 1));
    }
}

proof fn lemma_entries_view_eq(e: Seq<(String, BNode)>, v: Seq<(Seq<u8>, Value)>)
    requires
        v.len() == e.len(),
        forall|j: int| 0 <= j < e.len() ==> #[trigger] v[j] == (key_bytes(e[j].0), node_value(e[j].1)),
    ensures
        entries_value(e) == v,
{
    lemma_entries_map(e);
    assert(entries_value(e) =~= v);
}

impl BDict {
    /// The keys are in strictly increasing byte order.
    pub open spec fn wf(&self) -> bool {
        keys_sorted(self@)
    }

    pub fn new() -> (r: BDict)
        ensures
            r@ == Seq::<(Seq<u8>, Value)>::empty(),
            r.wf(),
    {
        BDict { entries: Vec::new() }
    }

    /// The entries, in the order of their keys.
    pub fn entries(&self) -> (r: &[(String, BNode)])
        ensures
            entries_value(r@) == self@,
    {
        self.entries.as_slice()
    }

    pub fn len(&self) -> (r: usize)
        ensures
            r == self@.len(),
    {
        proof {
            lemma_entries_map(self.entries@);
        }
        self.entries.len()
    }

    /// Inserts `value` under `key`, replacing the value of an equal key and
    /// keeping the keys in order.
    pub fn insert(&mut self, key: String, value: BNode)
        requires
            old(self).wf(),
        ensures
            final(self)@ == dict_insert(old(self)@, key_bytes(key), value@),
            final(self).wf(),
    {
        let ghost es = self@;
        let ghost k = key_bytes(key);
        let ghost n = es.len();
        proof {
            lemma_entries_map(self.entries@);
        }
        let mut i: usize = 0;
        while i < self.entries.len()
            invariant
                self.entries@ == old(self).entries@,
                es == old(self)@,
                es == entries_value(self.entries@),
                es.len() == self.entries@.len(),
                forall|j: int| 0 <= j < self.entries@.len() ==> #[trigger] es[j] == (key_bytes(self.entries@[j].0), node_value(self.entries@[j].1)),
                keys_sorted(es),
                k == key_bytes(key),
                i <= es.len(),
                forall|j: int| 0 <= j < i ==> lex_lt(#[trigger] es[j].0, k),
            decreases es.len() - i,
        {
            let c = compare_bytes(self.entries[i].0.as_str().as_bytes(), key.as_str().as_bytes());
            if c == 0 {
                proof {
                    lemma_dict_insert_skip(es, k, value@, i as int);
                    let tail = es.subrange(i as int, es.len() as int);
                    assert(tail[0] == es[i as int]);
                    assert(tail.subrange(1, tail.len() as int) =~= es.subrange(i + 1, es.len() as int));
                }
                let ghost target = dict_insert(es, k, value@);
                self.entries[i] = (key, value);
                proof {
                    assert(target =~= es.update(i as int, (k, node_value(self.entries@[i as int].1))));
                    lemma_entries_view_eq(self.entries@, target);
                    assert forall|a: int, b: int| 0 <= a < b < target.len() implies lex_lt(#[trigger] target[a].0, #[trigger] target[b].0) by {
                        assert(es[a].0 == target[a].0 || a == i);
                        assert(es[b].0 == target[b].0 || b == i);
                    }
                }
                return;
            }
            if c > 0 {
                proof {
                    lemma_dict_insert_skip(es, k, value@, i as int);
                    let tail = es.subrange(i as int, es.len() as int);
                    assert(tail[0] == es[i as int]);
                    assert(tail =~= es.subrange(i as int, es.len() as int));
                }
                let ghost target = dict_insert(es, k, value@);
                self.entries.insert(i, (key, value));
                proof {
                    assert(target =~= es.insert(i as int, (k, value@)));
                    lemma_entries_view_eq(self.entries@, target);
                    assert forall|a: int, b: int| 0 <= a < b < target.len() implies lex_lt(#[trigger] target[a].0, #[trigger] target[b].0) by {
                        if b < i {
                        } else if a < i && b == i {
                        } else if a < i && b > i {
                            assert(target[b] == es[b - 1]);
                        } else if a == i {
                            assert(target[b] == es[b - 1]);
                            if b - 1 > i {
                                lemma_lex_transitive(k, es[i as int].0, es[b - 1].0);
                            }
                        } else {
                            assert(a > i);
                            assert(es.insert(i as int, (k, value@))[a] == es[a - 1]);
                            assert(es.insert(i as int, (k, value@))[b] == es[b - 1]);
                        }
                    }
                }
                return;
            }
            i = i + 1;
        }
        proof {
            lemma_dict_insert_skip(es, k, value@, i as int);
            assert(es.subrange(i as int, es.len() as int) =~= Seq::<(Seq<u8>, Value)>::empty());
            assert(es.subrange(0, i as int) =~= es);
        }
        let ghost target = dict_insert(es, k, value@);
        self.entries.push((key, value));
        proof {
            assert(target =~= es.push((k, value@)));
            lemma_entries_view_eq(self.entries@, target);
        }
    }

    /// The value stored under `key`, if any.
    pub fn get(&self, key: &str) -> (r: Option<&BNode>)
        ensures
            r is Some <==> exists|j: int| 0 <= j < self@.len() && (#[trigger] self@[j]).0 == key.spec_bytes(),
            r matches Some(n) ==> exists|j: int| 0 <= j < self@.len() && (#[trigger] self@[j]).0 == key.spec_bytes() && self@[j].1 == n@,
    {
        proof {
            lemma_entries_map(self.entries@);
        }
        let kb = key.as_bytes();
        let mut i: usize = 0;
        while i < self.entries.len()
            invariant
                i <= self.entries@.len(),
                self@.len() == self.entries@.len(),
                forall|j: int| 0 <= j < self.entries@.len() ==> #[trigger] self@[j] == (key_bytes(self.entries@[j].0), node_value(self.entries@[j].1)),
                kb@ == key.spec_bytes(),
                forall|j: int| 0 <= j < i ==> (#[trigger] self@[j]).0 != key.spec_bytes(),
            decreases self.entries@.len() - i,
        {
            let ki = self.entries[i].0.as_str().as_bytes();
            if compare_bytes(ki, kb) == 0 {
                assert(self@[i as int].0 == key.spec_bytes());
                return Some(&self.entries[i].1);
            }
            i = i + 1;
        }
        None
    }
}

impl BNode {
    /// The integer, or an error if the node holds another kind of value.
    pub fn as_integer(&self) -> (r: Result<&i64, String>)
        ensures
            r is Ok <==> self is Integer,
            r matches Ok(v) ==> *self == BNode::Integer(*v),
    {
        match self {
            BNode::Integer(value) => Ok(value),
            _ => Err("not an integer".to_string()),
        }
    }

    /// The bytes of a byte string, or an error for another kind of value.
    pub fn as_bytes(&self) -> (r: Result<&[u8], String>)
        ensures
            r is Ok <==> self is Bytes,
            r matches Ok(b) ==> self@ == Value::Bytes(b@),
    {
        match self {
            BNode::Bytes(bytes) => Ok(bytes.as_slice()),
            _ => Err("not a byte array".to_string()),
        }
    }

    /// The items of a list, or an error for another kind of value.
    pub fn as_list(&self) -> (r: Result<&[BNode], String>)
        ensures
            r is Ok <==> self is List,
            r matches Ok(l) ==> *self matches BNode::List(v) && l@ == v@,
    {
        match self {
            BNode::List(list) => Ok(list.as_slice()),
            _ => Err("not a list".to_string()),
        }
    }

    /// The dictionary, or an error for another kind of value.
    pub fn as_dict(&self) -> (r: Result<&BDict, String>)
        ensures
            r is Ok <==> self is Dict,
            r matches Ok(d) ==> *self == BNode::Dict(*d),
    {
        match self {
            BNode::Dict(dict) => Ok(dict),
            _ => Err("not a dictionary".to_string()),
        }
    }

    /// The canonical bencode text of the node.
    pub fn to_canonical(&self) -> (r: Vec<u8>)
        requires
            encode(self@).len() <= usize::MAX,
        ensures
            r@ == encode(self@),
    {
        let mut buf: Vec<u8> = Vec::new();
        self.marshal(&mut buf);
        assert(buf@ =~= encode(self@));
        buf
    }

    /// A byte string holding a copy of `b`.
    pub fn from_bytes(b: &[u8]) -> (r: BNode)
        ensures
            r@ == Value::Bytes(b@),
    {
        BNode::Bytes(slice_to_vec(b))
    }

    /// A byte string holding the UTF-8 bytes of `s`.
    pub fn from_text(s: &str) -> (r: BNode)
        ensures
            r@ == Value::Bytes(s.spec_bytes()),
    {
        BNode::Bytes(slice_to_vec(s.as_bytes()))
    }
}

impl From<i64> for BNode {
    fn from(value: i64) -> (r: BNode) {
        BNode::Integer(value)
    }
}

impl vstd::std_specs::convert::FromSpecImpl<i64> for BNode {
    open spec fn obeys_from_spec() -> bool {
        true
    }

    open spec fn from_spec(value: i64) -> BNode {
        BNode::Integer(value)
    }
}

impl From<Vec<u8>> for BNode {
    fn from(value: Vec<u8>) -> (r: BNode) {
        BNode::Bytes(value)
    }
}

impl vstd::std_specs::convert::FromSpecImpl<Vec<u8>> for BNode {
    open spec fn obeys_from_spec() -> bool {
        true
    }

    open spec fn from_spec(value: Vec<u8>) -> BNode {
        BNode::Bytes(value)
    }
}

impl From<String> for BNode {
    /// A byte string holding the UTF-8 bytes of the string.
    fn from(value: String) -> (r: BNode)
        ensures
            r@ == Value::Bytes(key_bytes(value)),
    {
        BNode::from_text(value.as_str())
    }
}

impl vstd::std_specs::convert::FromSpecImpl<String> for BNode {
    open spec fn obeys_from_spec() -> bool {
        false
    }

    open spec fn from_spec(value: String) -> BNode {
        choose|n: BNode| n@ == Value::Bytes(key_bytes(value))
    }
}

impl From<Vec<BNode>> for BNode {
    fn from(value: Vec<BNode>) -> (r: BNode) {
        BNode::List(value)
    }
}

impl vstd::std_specs::convert::FromSpecImpl<Vec<BNode>> for BNode {
    open spec fn obeys_from_spec() -> bool {
        true
    }

    open spec fn from_spec(value: Vec<BNode>) -> BNode {
        BNode::List(value)
    }
}

impl From<BDict> for BNode {
    fn from(value: BDict) -> (r: BNode) {
        BNode::Dict(value)
    }
}

impl vstd::std_specs::convert::FromSpecImpl<BDict> for BNode {
    open spec fn obeys_from_spec() -> bool {
        true
    }

    open spec fn from_spec(value: BDict) -> BNode {
        BNode::Dict(value)
    }
}

} // verus!
