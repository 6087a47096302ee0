//! The mathematical model of bencode: values, their canonical encoding,
//! decimal literals, the byte order of dictionary keys and the dictionary
//! normalisation that decoding performs.
use vstd::prelude::*;
use vstd::utf8::valid_utf8;

verus! {

/// `i`, which opens an integer.
pub const INT_BEGIN: u8 = 105;

/// `l`, which opens a list.
pub const LIST_BEGIN: u8 = 108;

/// `d`, which opens a dictionary.
pub const DICT_BEGIN: u8 = 100;

/// `e`, which closes an integer, a list or a dictionary.
pub const END: u8 = 101;

/// `:`, between the length of a byte string and its bytes.
pub const COLON: u8 = 58;

/// `-`, the sign of a negative integer.
pub const MINUS: u8 = 45;

/// A bencode value as a mathematical object. A dictionary is a sequence of
/// entries; in a decoded or canonical value its keys are strictly increasing,
/// while a value read straight off the wire may hold them in any order.
pub enum Value {
    Int(int),
    Bytes(Seq<u8>),
    List(Seq<Value>),
    Dict(Seq<(Seq<u8>, Value)>),
}

pub open spec fn is_digit(c: u8) -> bool {
    48 <= c && c <= 57
}

/// A byte that may occur inside a decimal literal.
pub open spec fn lit_char(c: u8) -> bool {
    is_digit(c) || c == MINUS
}

/// Decimal digits of `n`, most significant first, without leading zeros.
pub open spec fn nat_digits(n: nat) -> Seq<u8>
    decreases n,
{
    if n < 10 {
        seq![(n + 48) as u8]
    } else {
        nat_digits(n / 10).push((n % 10 + 48) as u8)
    }
}

/// Decimal text of `i`: a `-` before the digits of its magnitude when negative.
pub open spec fn int_digits(i: int) -> Seq<u8> {
    if i < 0 {
        seq![MINUS] + nat_digits((-i) as nat)
    } else {
        nat_digits(i as nat)
    }
}

/// `x` occurs in `s` at offset `p`.
pub open spec fn prefix_at(x: Seq<u8>, s: Seq<u8>, p: int) -> bool {
    0 <= p && p + x.len() <= s.len() && forall|i: int| 0 <= i < x.len() ==> s[p + i] == #[trigger] x[i]
}

pub open spec fn encode_bytes(b: Seq<u8>) -> Seq<u8> {
    nat_digits(b.len()) + seq![COLON] + b
}

/// The bencode text of a value. Entries of a dictionary are written in the
/// order in which the value holds them.
pub open spec fn encode(v: Value) -> Seq<u8>
    decreases v,
{
    match v {
        Value::Int(i) => seq![INT_BEGIN] + int_digits(i) + seq![END],
        Value::Bytes(b) => encode_bytes(b),
        Value::List(items) => seq![LIST_BEGIN] + encode_items(items) + seq![END],
        Value::Dict(entries) => seq![DICT_BEGIN] + encode_entries(entries) + seq![END],
    }
}

pub open spec fn encode_items(items: Seq<Value>) -> Seq<u8>
    decreases items,
{
    if items.len() == 0 {
        Seq::empty()
    } else {
        encode_items(items.subrange(0, items.len() - 1)) + encode(items[items.len() - 1])
    }
}

pub open spec fn encode_entries(entries: Seq<(Seq<u8>, Value)>) -> Seq<u8>
    decreases entries,
{
    if entries.len() == 0 {
        Seq::empty()
    } else {
        let e = entries[entries.len() - 1];
        encode_entries(entries.subrange(0, entries.len() - 1)) + encode_bytes(e.0) + encode(e.1)
    }
}

/// A value that the decoder can produce from its text: integers fit in `i64`,
/// lengths fit in `i64`, and dictionary keys are valid UTF-8.
pub open spec fn admissible(v: Value) -> bool
    decreases v,
{
    match v {
        Value::Int(i) => i64::MIN <= i <= i64::MAX,
        Value::Bytes(b) => b.len() <= i64::MAX,
        Value::List(items) => admissible_items(items),
        Value::Dict(entries) => admissible_entries(entries),
    }
}

pub open spec fn admissible_items(items: Seq<Value>) -> bool
    decreases items,
{
    items.len() > 0 ==> {
        &&& admissible_items(items.subrange(0, items.len() - 1))
        &&& admissible(items[items.len() - 1])
    }
}

pub open spec fn admissible_entries(entries: Seq<(Seq<u8>, Value)>) -> bool
    decreases entries,
{
    entries.len() > 0 ==> {
        let e = entries[entries.len() - 1];
        &&& admissible_entries(entries.subrange(0, entries.len() - 1))
        &&& e.0.len() <= i64::MAX
        &&& valid_utf8(e.0)
        &&& admissible(e.1)
    }
}

/// Byte-lexicographic order on keys (the order of `[u8]` and of `str`).
pub open spec fn lex_lt(a: Seq<u8>, b: Seq<u8>) -> bool
    decreases a.len(),
{
    if b.len() == 0 {
        false
    } else if a.len() == 0 {
        true
    } else if a[0] != b[0] {
        a[0] < b[0]
    } else {
        lex_lt(a.subrange(1, a.len() as int), b.subrange(1, b.len() as int))
    }
}

pub open spec fn keys_sorted(entries: Seq<(Seq<u8>, Value)>) -> bool {
    forall|i: int, j: int| 0 <= i < j < entries.len() ==> lex_lt(#[trigger] entries[i].0, #[trigger] entries[j].0)
}

/// Every dictionary in the value has strictly increasing keys.
pub open spec fn canonical(v: Value) -> bool
    decreases v,
{
    match v {
        Value::Int(_) => true,
        Value::Bytes(_) => true,
        Value::List(items) => canonical_items(items),
        Value::Dict(entries) => keys_sorted(entries) && canonical_entries(entries),
    }
}

pub open spec fn canonical_items(items: Seq<Value>) -> bool
    decreases items,
{
    items.len() > 0 ==> {
        &&& canonical_items(items.subrange(0, items.len() - 1))
        &&& canonical(items[items.len() - 1])
    }
}

pub open spec fn canonical_entries(entries: Seq<(Seq<u8>, Value)>) -> bool
    decreases entries,
{
    entries.len() > 0 ==> {
        &&& canonical_entries(entries.subrange(0, entries.len() - 1))
        &&& canonical(entries[entries.len() - 1].1)
    }
}

/// Insertion into a dictionary held in key order: an entry with the same key
/// is replaced, otherwise the new entry goes before the first greater key.
pub open spec fn dict_insert(entries: Seq<(Seq<u8>, Value)>, k: Seq<u8>, v: Value) -> Seq<(Seq<u8>, Value)>
    decreases entries.len(),
{
    if entries.len() == 0 {
        seq![(k, v)]
    } else if entries[0].0 == k {
        seq![(k, v)] + entries.subrange(1, entries.len() as int)
    } else if lex_lt(k, entries[0].0) {
        seq![(k, v)] + entries
    } else {
        seq![entries[0]] + dict_insert(entries.subrange(1, entries.len() as int), k, v)
    }
}

/// What decoding makes of a value read off the wire: every dictionary is
/// rebuilt by inserting its entries in wire order, so keys come out sorted
/// and a repeated key keeps its last value.
pub open spec fn normalize(v: Value) -> Value
    decreases v,
{
    match v {
        Value::Int(i) => Value::Int(i),
        Value::Bytes(b) => Value::Bytes(b),
        Value::List(items) => Value::List(normalize_items(items)),
        Value::Dict(entries) => Value::Dict(normalize_entries(entries)),
    }
}

pub open spec fn normalize_items(items: Seq<Value>) -> Seq<Value>
    decreases items,
{
    if items.len() == 0 {
        Seq::empty()
    } else {
        normalize_items(items.subrange(0, items.len() - 1)).push(normalize(items[items.len() - 1]))
    }
}

pub open spec fn normalize_entries(entries: Seq<(Seq<u8>, Value)>) -> Seq<(Seq<u8>, Value)>
    decreases entries,
{
    if entries.len() == 0 {
        Seq::empty()
    } else {
        let e = entries[entries.len() - 1];
        dict_insert(normalize_entries(entries.subrange(0, entries.len() - 1)), e.0, normalize(e.1))
    }
}

/// The input holds the text of an admissible value and nothing else.
pub open spec fn decodable(s: Seq<u8>) -> bool {
    exists|t: Value| admissible(t) && encode(t) == s
}

/// `v` is what decoding `s` yields.
pub open spec fn decodes_to(s: Seq<u8>, v: Value) -> bool {
    exists|t: Value| admissible(t) && encode(t) == s && v == normalize(t)
}

/// The input is the text of an admissible value whose dictionaries are
/// already in key order.
pub open spec fn canonical_text(s: Seq<u8>) -> bool {
    exists|t: Value| admissible(t) && canonical(t) && encode(t) == s
}

/// Comparing after a common prefix is comparing the rests.
pub proof fn lemma_lex_skip(a: Seq<u8>, b: Seq<u8>, i: int)
    requires
        0 <= i <= a.len(),
        i <= b.len(),
        a.subrange(0, i) == b.subrange(0, i),
    ensures
        lex_lt(a, b) == lex_lt(a.subrange(i, a.len() as int), b.subrange(i, b.len() as int)),
    decreases i,
{
    if i > 0 {
        assert(a[0] == a.subrange(0, i)[0]);
        assert(b[0] == b.subrange(0, i)[0]);
        let a1 = a.subrange(1, a.len() as int);
        let b1 = b.subrange(1, b.len() as int);
        assert(a1.subrange(0, i - 1) =~= a.subrange(0, i).subrange(1, i));
        assert(b1.subrange(0, i - 1) =~= b.subrange(0, i).subrange(1, i));
        lemma_lex_skip(a1, b1, i - 1);
        assert(a1.subrange(i - 1, a1.len() as int) =~= a.subrange(i, a.len() as int));
        assert(b1.subrange(i - 1, b1.len() as int) =~= b.subrange(i, b.len() as int));
    } else {
        assert(a.subrange(0, a.len() as int) =~= a);
        assert(b.subrange(0, b.len() as int) =~= b);
    }
}

pub proof fn lemma_lex_irreflexive(a: Seq<u8>)
    ensures
        !lex_lt(a, a),
    decreases a.len(),
{
    if a.len() > 0 {
        lemma_lex_irreflexive(a.subrange(1, a.len() as int));
    }
}

pub proof fn lemma_lex_transitive(a: Seq<u8>, b: Seq<u8>, c: Seq<u8>)
    requires
        lex_lt(a, b),
        lex_lt(b, c),
    ensures
        lex_lt(a, c),
    decreases a.len(),
{
    if a.len() > 0 && a[0] == b[0] && b[0] == c[0] {
        lemma_lex_transitive(
            a.subrange(1, a.len() as int),
            b.subrange(1, b.len() as int),
            c.subrange(1, c.len() as int),
        );
    }
}

pub proof fn lemma_lex_asymmetric(a: Seq<u8>, b: Seq<u8>)
    requires
        lex_lt(a, b),
    ensures
        !lex_lt(b, a),
{
    if lex_lt(b, a) {
        lemma_lex_transitive(a, b, a);
        lemma_lex_irreflexive(a);
    }
}

} // verus!
