//! The recursive-descent parser: it drives the lexer through the grammar
//! and builds the value tree.
use vstd::prelude::*;
use vstd::utf8::{encode_utf8, valid_utf8};
use crate::value::{
    Value, admissible, admissible_entries, admissible_items, canonical, canonical_entries,
    canonical_items, encode, encode_bytes, encode_entries, encode_items, int_digits, is_digit, lit_char,
    nat_digits, normalize, normalize_entries, normalize_items, prefix_at, decodable, decodes_to, COLON,
    DICT_BEGIN, END, INT_BEGIN, LIST_BEGIN,
};
use crate::decimal::{
    lemma_int_digits, lemma_lit_canonical, lemma_lit_end, lemma_lit_end_bounds, lemma_nat_lit, lit_body,
    lit_end, lit_value, valid_lit,
};
use crate::encoding::{
    entry_admissible, lemma_admissible_entries, lemma_admissible_items, lemma_bytes_prefix_free,
    lemma_encode_first, lemma_encode_not_end, lemma_entries_concat, lemma_entries_front,
    lemma_insert_canonical, lemma_items_concat, lemma_items_front, lemma_prefix_free,
    lemma_prefix_split,
};
use crate::lexer::{Error, ErrorKind, Lexer, Token, lex_step, lit_error, lemma_lit_error_bounds};
use crate::node::{BDict, BNode, items_value};

verus! {

/// An admissible value whose text starts at offset `p` of `s`.
pub open spec fn value_at(s: Seq<u8>, p: int, t: Value) -> bool {
    admissible(t) && prefix_at(encode(t), s, p)
}

/// The token with which the text of `t` starts.
pub open spec fn first_token(t: Value) -> Token {
    match t {
        Value::Int(_) => Token::IntegerBegin,
        Value::Bytes(b) => Token::Length(b.len() as i64),
        Value::List(_) => Token::ListBegin,
        Value::Dict(_) => Token::DictBegin,
    }
}

/// The result of a parse as a failure, if any.
pub open spec fn err_of<T>(r: Result<T, Error>) -> Option<Error> {
    match r {
        Ok(_) => None,
        Err(e) => Some(e),
    }
}

/// The parse failed at offset `q`.
pub open spec fn fails_at(err: Option<Error>, q: int) -> bool {
    err matches Some(e) && e.position == q
}

/// The parse failed for the reason `k`.
pub open spec fn fails_with(err: Option<Error>, k: ErrorKind) -> bool {
    err matches Some(e) && e.kind == k
}

/// A byte that can start a value.
pub open spec fn value_start(c: u8) -> bool {
    c == INT_BEGIN || c == LIST_BEGIN || c == DICT_BEGIN || is_digit(c)
}

/// The failure of an integer whose `i` is at `p`: in its literal, or no
/// digit before the closing `e`, which is where that is reported.
pub open spec fn int_error(s: Seq<u8>, p: int, e: Error) -> bool {
    let j = lit_end(s, p + 1);
    let lit = s.subrange(p + 1, j);
    ||| lit_error(s, p + 1, END, e)
    ||| {
        &&& j < s.len()
        &&& s[j] == END
        &&& valid_lit(lit)
        &&& lit_body(lit).len() == 0
        &&& e.kind == ErrorKind::EmptyInteger
        &&& e.position == j
    }
}

/// The failure of a byte string whose length starts at `p`: in the length,
/// or fewer bytes after the colon than it declares, reported at the end of
/// the input with the number of bytes that remain.
pub open spec fn bytes_error(s: Seq<u8>, p: int, e: Error) -> bool {
    let j = lit_end(s, p);
    ||| lit_error(s, p, COLON, e)
    ||| {
        &&& j < s.len()
        &&& e.kind == ErrorKind::TruncatedByteString((s.len() - (j + 1)) as usize)
        &&& e.position == s.len()
    }
}

/// Relies on `String::from_utf8`: it accepts exactly the valid UTF-8 byte
/// sequences, and the string it returns holds those bytes.
#[verifier::external_body]
fn string_from_utf8(raw: Vec<u8>) -> (r: Option<String>)
    ensures
        r is Some <==> valid_utf8(raw@),
        r matches Some(k) ==> encode_utf8(k@) == raw@,
{
    String::from_utf8(raw).ok()
}

/// Where the text of a byte string starts, the lexer reads its length.
proof fn lemma_length_token(s: Seq<u8>, p: int, b: Seq<u8>)
    requires
        b.len() <= i64::MAX,
        prefix_at(encode_bytes(b), s, p),
    ensures
        ({
            let d = nat_digits(b.len());
            &&& lit_end(s, p) == p + d.len()
            &&& p + d.len() < s.len()
            &&& s[p + d.len()] == COLON
            &&& s.subrange(p, p + d.len()) == d
            &&& valid_lit(d)
            &&& lit_value(d) == b.len()
            &&& is_digit(s[p])
        }),
{
    let d = nat_digits(b.len());
    lemma_nat_lit(b.len());
    lemma_prefix_split(d + seq![COLON], b, s, p);
    lemma_prefix_split(d, seq![COLON], s, p);
    assert(s[p + d.len() + 0] == seq![COLON][0]);
    assert forall|i: int| p <= i < p + d.len() implies lit_char(#[trigger] s[i]) by {
        assert(s[p + (i - p)] == d[i - p]);
    }
    lemma_lit_end(s, p, p + d.len());
    assert(s.subrange(p, p + d.len()) =~= d) by {
        assert forall|i: int| 0 <= i < d.len() implies s.subrange(p, p + d.len())[i] == d[i] by {
            assert(s[p + i] == d[i]);
        }
    }
    lemma_encode_first(Value::Bytes(b));
    assert(s[p + 0] == encode_bytes(b)[0]);
}

/// Where the text of a value starts, the lexer reads its first token.
proof fn lemma_value_token(s: Seq<u8>, p: int, stack: Seq<Token>, cur: Option<Token>, t: Value)
    requires
        value_at(s, p, t),
    ensures
        lex_step(s, p, stack, cur) matches Some(x) && x.0 == first_token(t),
        p < s.len(),
        s[p] != END,
{
    lemma_encode_first(t);
    lemma_encode_not_end(t, s, p);
    assert(s[p + 0] == encode(t)[0]);
    if let Value::Bytes(b) = t {
        lemma_length_token(s, p, b);
    }
}

/// In a list whose items start with `raw`, what follows `raw`.
proof fn lemma_list_next(s: Seq<u8>, p: int, xs: Seq<Value>, raw: Seq<Value>)
    requires
        admissible_items(xs),
        prefix_at(encode(Value::List(xs)), s, p),
        raw.len() <= xs.len(),
        xs.subrange(0, raw.len() as int) == raw,
    ensures
        ({
            let q = p + 1 + encode_items(raw).len();
            &&& raw.len() == xs.len() ==> q < s.len() && s[q] == END
            &&& raw.len() < xs.len() ==> value_at(s, q, xs[raw.len() as int])
        }),
{
    let m = raw.len() as int;
    let rest = xs.subrange(m, xs.len() as int);
    lemma_items_concat(raw, rest);
    assert(raw + rest =~= xs);
    let q = p + 1 + encode_items(raw).len();
    assert(encode(Value::List(xs)) =~= seq![LIST_BEGIN] + encode_items(raw) + (encode_items(rest) + seq![END]));
    lemma_prefix_split(seq![LIST_BEGIN] + encode_items(raw), encode_items(rest) + seq![END], s, p);
    if m == xs.len() {
        assert(encode_items(rest) =~= Seq::<u8>::empty()) by {
            assert(rest =~= Seq::<Value>::empty());
        }
        assert(s[q + 0] == (encode_items(rest) + seq![END])[0]);
    } else {
        lemma_items_front(rest);
        assert(rest[0] == xs[m]);
        assert(encode_items(rest) + seq![END] =~= encode(xs[m]) + (encode_items(rest.subrange(1, rest.len() as int))
            + seq![END]));
        lemma_prefix_split(encode(xs[m]), encode_items(rest.subrange(1, rest.len() as int)) + seq![END], s, q);
        lemma_admissible_items(xs);
    }
}

/// In a dictionary whose entries start with `raw`, what follows `raw`.
proof fn lemma_dict_next(s: Seq<u8>, p: int, es: Seq<(Seq<u8>, Value)>, raw: Seq<(Seq<u8>, Value)>)
    requires
        admissible_entries(es),
        prefix_at(encode(Value::Dict(es)), s, p),
        raw.len() <= es.len(),
        es.subrange(0, raw.len() as int) == raw,
    ensures
        ({
            let q = p + 1 + encode_entries(raw).len();
            &&& raw.len() == es.len() ==> q < s.len() && s[q] == END
            &&& raw.len() < es.len() ==> {
                let e = es[raw.len() as int];
                &&& value_at(s, q, Value::Bytes(e.0))
                &&& entry_admissible(e)
                &&& value_at(s, q + encode_bytes(e.0).len(), e.1)
            }
        }),
{
    let m = raw.len() as int;
    let rest = es.subrange(m, es.len() as int);
    lemma_entries_concat(raw, rest);
    assert(raw + rest =~= es);
    let q = p + 1 + encode_entries(raw).len();
    assert(encode(Value::Dict(es)) =~= seq![DICT_BEGIN] + encode_entries(raw) + (encode_entries(rest) + seq![END]));
    lemma_prefix_split(seq![DICT_BEGIN] + encode_entries(raw), encode_entries(rest) + seq![END], s, p);
    if m == es.len() {
        assert(encode_entries(rest) =~= Seq::<u8>::empty()) by {
            assert(rest =~= Seq::<(Seq<u8>, Value)>::empty());
        }
        assert(s[q + 0] == (encode_entries(rest) + seq![END])[0]);
    } else {
        lemma_entries_front(rest);
        let e = es[m];
        assert(rest[0] == e);
        let tail = encode_entries(rest.subrange(1, rest.len() as int)) + seq![END];
        assert(encode_entries(rest) + seq![END] =~= encode_bytes(e.0) + (encode(e.1) + tail));
        lemma_prefix_split(encode_bytes(e.0), encode(e.1) + tail, s, q);
        lemma_prefix_split(encode(e.1), tail, s, q + encode_bytes(e.0).len());
        lemma_admissible_entries(es);
        assert(entry_admissible(e));
    }
}

/// A list opens at `p` and its first items are `xs`.
pub open spec fn items_at(s: Seq<u8>, p: int, xs: Seq<Value>) -> bool {
    &&& 0 <= p < s.len()
    &&& s[p] == LIST_BEGIN
    &&& admissible_items(xs)
    &&& prefix_at(encode_items(xs), s, p + 1)
}

/// A dictionary opens at `p` and its first entries are `es`.
pub open spec fn entries_at(s: Seq<u8>, p: int, es: Seq<(Seq<u8>, Value)>) -> bool {
    &&& 0 <= p < s.len()
    &&& s[p] == DICT_BEGIN
    &&& admissible_entries(es)
    &&& prefix_at(encode_entries(es), s, p + 1)
}

/// At `q` a list can neither go on nor close.
pub open spec fn list_stuck(s: Seq<u8>, q: int) -> bool {
    q >= s.len() || !(value_start(s[q]) || s[q] == END)
}

/// At `q` a dictionary can neither read a key nor close.
pub open spec fn dict_stuck(s: Seq<u8>, q: int) -> bool {
    q >= s.len() || !(is_digit(s[q]) || s[q] == END)
}

/// Items read up to a byte where the list can neither go on nor close: the
/// parse fails at that byte, and at the end of the input with an unexpected
/// token.
pub open spec fn list_failure(s: Seq<u8>, p: int, err: Option<Error>) -> bool {
    forall|xs: Seq<Value>| #[trigger] items_at(s, p, xs) && list_stuck(s, p + 1 + encode_items(xs).len()) ==> {
        let q = p + 1 + encode_items(xs).len();
        &&& fails_at(err, q)
        &&& q >= s.len() ==> fails_with(err, ErrorKind::UnexpectedToken)
    }
}

/// Entries read up to a byte where the dictionary can neither read a key
/// nor close: the parse fails at that byte; with a key that is not a byte
/// string if an integer, a list or a dictionary starts there, and with an
/// unexpected token at the end of the input.
pub open spec fn dict_failure(s: Seq<u8>, p: int, err: Option<Error>) -> bool {
    forall|es: Seq<(Seq<u8>, Value)>| #[trigger] entries_at(s, p, es) && dict_stuck(s, p + 1 + encode_entries(es).len()) ==> {
        let q = p + 1 + encode_entries(es).len();
        &&& fails_at(err, q)
        &&& q >= s.len() ==> fails_with(err, ErrorKind::UnexpectedToken)
        &&& q < s.len() && value_start(s[q]) ==> fails_with(err, ErrorKind::NonStringDictKey)
    }
}

/// How reading the value at `p` fails, if it does: at the end of the input
/// with an unexpected token; at `p` when no value starts with that byte;
/// inside an integer or byte string as `int_error` and `bytes_error` say;
/// inside a list or dictionary as `list_failure` and `dict_failure` say.
pub open spec fn value_failure(s: Seq<u8>, p: int, err: Option<Error>) -> bool {
    &&& p >= s.len() ==> fails_at(err, s.len() as int) && fails_with(err, ErrorKind::UnexpectedToken)
    &&& p < s.len() && !value_start(s[p]) ==> fails_at(err, p)
    &&& p < s.len() && s[p] == INT_BEGIN ==> (err matches Some(e) ==> int_error(s, p, e))
    &&& p < s.len() && is_digit(s[p]) ==> (err matches Some(e) ==> bytes_error(s, p, e))
    &&& list_failure(s, p, err)
    &&& dict_failure(s, p, err)
}

/// Trailing data is reported only at the end of a complete value that ends
/// before the input does.
pub open spec fn trailing_only_after_value(s: Seq<u8>, p: int, err: Option<Error>) -> bool {
    match err {
        Some(e) => e.kind is TrailingData ==> exists|t: Value| #[trigger] value_at(s, p, t) && p + encode(t).len()
            == e.position && e.position < s.len(),
        None => true,
    }
}

/// The item `m` of items that start at `q0` starts where the first `m` end.
proof fn lemma_items_next(s: Seq<u8>, q0: int, xs: Seq<Value>, m: int)
    requires
        admissible_items(xs),
        prefix_at(encode_items(xs), s, q0),
        0 <= m < xs.len(),
    ensures
        value_at(s, q0 + encode_items(xs.subrange(0, m)).len(), xs[m]),
        prefix_at(encode_items(xs.subrange(0, m)), s, q0),
{
    let raw = xs.subrange(0, m);
    let rest = xs.subrange(m, xs.len() as int);
    lemma_items_concat(raw, rest);
    assert(raw + rest =~= xs);
    lemma_prefix_split(encode_items(raw), encode_items(rest), s, q0);
    lemma_items_front(rest);
    assert(rest[0] == xs[m]);
    lemma_prefix_split(encode(xs[m]), encode_items(rest.subrange(1, rest.len() as int)), s, q0 + encode_items(raw).len());
    lemma_admissible_items(xs);
}

/// The entry `m` of entries that start at `q0` starts where the first `m` end.
proof fn lemma_entries_next(s: Seq<u8>, q0: int, es: Seq<(Seq<u8>, Value)>, m: int)
    requires
        admissible_entries(es),
        prefix_at(encode_entries(es), s, q0),
        0 <= m < es.len(),
    ensures
        ({
            let q = q0 + encode_entries(es.subrange(0, m)).len();
            let e = es[m];
            &&& value_at(s, q, Value::Bytes(e.0))
            &&& entry_admissible(e)
            &&& value_at(s, q + encode_bytes(e.0).len(), e.1)
        }),
        prefix_at(encode_entries(es.subrange(0, m)), s, q0),
{
    let raw = es.subrange(0, m);
    let rest = es.subrange(m, es.len() as int);
    lemma_entries_concat(raw, rest);
    assert(raw + rest =~= es);
    let q = q0 + encode_entries(raw).len();
    lemma_prefix_split(encode_entries(raw), encode_entries(rest), s, q0);
    lemma_entries_front(rest);
    let e = es[m];
    assert(rest[0] == e);
    let tail = encode_entries(rest.subrange(1, rest.len() as int));
    assert(encode_entries(rest) =~= encode_bytes(e.0) + (encode(e.1) + tail));
    lemma_prefix_split(encode_bytes(e.0), encode(e.1) + tail, s, q);
    lemma_prefix_split(encode(e.1), tail, s, q + encode_bytes(e.0).len());
    lemma_admissible_entries(es);
    assert(entry_admissible(e));
}

/// A value starts with a byte that can start a value.
proof fn lemma_value_start(s: Seq<u8>, q: int, t: Value)
    requires
        value_at(s, q, t),
    ensures
        q < s.len(),
        value_start(s[q]),
{
    lemma_encode_first(t);
    lemma_encode_not_end(t, s, q);
    assert(s[q + 0] == encode(t)[0]);
}

/// How the list parse ends, from what was read and what happened at `q`.
proof fn lemma_list_failure(s: Seq<u8>, p: int, raw: Seq<Value>, q: int, err: Option<Error>)
    requires
        0 <= p < s.len(),
        s[p] == LIST_BEGIN,
        admissible_items(raw),
        prefix_at(encode_items(raw), s, p + 1),
        q == p + 1 + encode_items(raw).len(),
        forall|xs: Seq<Value>| #[trigger] items_at(s, p, xs) ==> (xs.len() <= raw.len() ==> raw.subrange(0, xs.len() as int) == xs)
            && (xs.len() >= raw.len() ==> xs.subrange(0, raw.len() as int) == raw),
        forall|t: Value| !#[trigger] value_at(s, q, t),
        list_stuck(s, q) ==> fails_at(err, q),
        q >= s.len() ==> fails_with(err, ErrorKind::UnexpectedToken),
    ensures
        list_failure(s, p, err),
{
    assert forall|xs: Seq<Value>| #[trigger] items_at(s, p, xs) && list_stuck(s, p + 1 + encode_items(xs).len()) implies ({
        let q2 = p + 1 + encode_items(xs).len();
        &&& fails_at(err, q2)
        &&& q2 >= s.len() ==> fails_with(err, ErrorKind::UnexpectedToken)
    }) by {
        let m = raw.len() as int;
        if xs.len() < m {
            assert(raw.subrange(0, xs.len() as int) == xs);
            lemma_items_next(s, p + 1, raw, xs.len() as int);
            lemma_value_start(s, p + 1 + encode_items(xs).len(), raw[xs.len() as int]);
        } else if xs.len() > m {
            lemma_items_next(s, p + 1, xs, m);
        } else {
            assert(xs.subrange(0, m) == raw);
            assert(xs =~= raw);
        }
    }
}

/// How the dictionary parse ends, from what was read and what happened at `q`.
proof fn lemma_dict_failure(s: Seq<u8>, p: int, raw: Seq<(Seq<u8>, Value)>, q: int, err: Option<Error>)
    requires
        0 <= p < s.len(),
        s[p] == DICT_BEGIN,
        admissible_entries(raw),
        prefix_at(encode_entries(raw), s, p + 1),
        q == p + 1 + encode_entries(raw).len(),
        forall|es: Seq<(Seq<u8>, Value)>| #[trigger] entries_at(s, p, es) ==> (es.len() <= raw.len() ==> raw.subrange(0, es.len() as int) == es)
            && (es.len() >= raw.len() ==> es.subrange(0, raw.len() as int) == raw),
        forall|es: Seq<(Seq<u8>, Value)>| #[trigger] entries_at(s, p, es) ==> es.len() <= raw.len(),
        dict_stuck(s, q) ==> fails_at(err, q),
        q >= s.len() ==> fails_with(err, ErrorKind::UnexpectedToken),
        q < s.len() && value_start(s[q]) && dict_stuck(s, q) ==> fails_with(err, ErrorKind::NonStringDictKey),
    ensures
        dict_failure(s, p, err),
{
    assert forall|es: Seq<(Seq<u8>, Value)>| #[trigger] entries_at(s, p, es) && dict_stuck(s, p + 1 + encode_entries(es).len()) implies ({
        let q2 = p + 1 + encode_entries(es).len();
        &&& fails_at(err, q2)
        &&& q2 >= s.len() ==> fails_with(err, ErrorKind::UnexpectedToken)
        &&& q2 < s.len() && value_start(s[q2]) ==> fails_with(err, ErrorKind::NonStringDictKey)
    }) by {
        let m = raw.len() as int;
        if es.len() < m {
            assert(raw.subrange(0, es.len() as int) == es);
            lemma_entries_next(s, p + 1, raw, es.len() as int);
            lemma_value_start(s, p + 1 + encode_entries(es).len(), Value::Bytes(raw[es.len() as int].0));
            lemma_encode_first(Value::Bytes(raw[es.len() as int].0));
        } else {
            assert(es.subrange(0, m) == raw);
            assert(es =~= raw);
        }
    }
}

/// A bencode parser over a byte slice.
pub struct Parser<'a> {
    lexer: Lexer<'a>,
}

impl<'a> Parser<'a> {
    /// The lexer that the parser drives.
    pub closed spec fn lex(&self) -> Lexer<'a> {
        self.lexer
    }

    pub fn new(input: &'a [u8]) -> (r: Parser<'a>)
        ensures
            r.lex().wf(),
            r.lex().input() == input@,
            r.lex().pos() == 0,
            r.lex().stack() == Seq::<Token>::empty(),
            !r.lex().peeked(),
    {
        Parser { lexer: Lexer::new(input) }
    }

    /// Parses an integer, `i<digits>e`.
    pub fn parse_integer(&mut self) -> (r: Result<i64, Error>)
        requires
            old(self).lex().wf(),
        ensures
            final(self).lex().wf(),
            final(self).lex().input() == old(self).lex().input(),
            r matches Ok(v) ==> {
                &&& value_at(old(self).lex().input(), old(self).lex().pos(), Value::Int(v as int))
                &&& final(self).lex().pos() == old(self).lex().pos() + encode(Value::Int(v as int)).len()
                &&& final(self).lex().stack() == old(self).lex().stack()
                &&& !final(self).lex().peeked()
            },
            r is Err ==> forall|v: int| !#[trigger] value_at(old(self).lex().input(), old(self).lex().pos(), Value::Int(v)),
            r matches Err(e) ==> old(self).lex().pos() <= e.position <= old(self).lex().input().len(),
            r matches Err(e) ==> !(e.kind is TrailingData),
            ({
                let s = old(self).lex().input();
                let p = old(self).lex().pos();
                p < s.len() && s[p] == INT_BEGIN ==> (r matches Err(e) ==> int_error(s, p, e))
            }),
    {
        let ghost s = self.lexer.input();
        let ghost p = self.lexer.pos();
        let ghost stk = self.lexer.stack();
        proof {
            self.lexer.lemma_pos();
            assert forall|v: int| #[trigger] value_at(s, p, Value::Int(v)) implies s[p] == INT_BEGIN by {
                lemma_value_token(s, p, stk, self.lexer.current(), Value::Int(v));
            }
        }
        let at = self.lexer.offset();
        match self.lexer.next_token() {
            Ok(Token::IntegerBegin) => {},
            Ok(_) => {
                return Err(Error { position: at, kind: ErrorKind::UnexpectedToken });
            },
            Err(e) => {
                return Err(e);
            },
        }
        assert(s[p] == INT_BEGIN);
        proof {
            lemma_lit_end_bounds(s, p + 1);
        }
        let ghost j = lit_end(s, p + 1);
        let ghost lit = s.subrange(p + 1, j);
        proof {
            assert forall|v: int| #[trigger] value_at(s, p, Value::Int(v)) implies lit == int_digits(v) && j < s.len()
                && s[j] == END && valid_lit(lit) && lit_body(lit).len() >= 1 by {
                let d = int_digits(v);
                lemma_int_digits(v);
                assert(encode(Value::Int(v)) == seq![INT_BEGIN] + d + seq![END]);
                lemma_prefix_split(seq![INT_BEGIN] + d, seq![END], s, p);
                lemma_prefix_split(seq![INT_BEGIN], d, s, p);
                assert(s[p + 1 + d.len() + 0] == seq![END][0]);
                assert forall|i: int| p + 1 <= i < p + 1 + d.len() implies lit_char(#[trigger] s[i]) by {
                    assert(s[p + 1 + (i - p - 1)] == d[i - p - 1]);
                }
                lemma_lit_end(s, p + 1, p + 1 + d.len());
                assert(lit =~= d) by {
                    assert forall|i: int| 0 <= i < d.len() implies lit[i] == d[i] by {
                        assert(s[p + 1 + i] == d[i]);
                    }
                }
            }
        }
        let (value, read) = match self.lexer.read_i64_before(END) {
            Ok(x) => x,
            Err(e) => {
                proof {
                    lemma_lit_error_bounds(s, p + 1, END, e);
                }
                return Err(e);
            },
        };
        if read < 1 {
            return Err(Error { position: self.lexer.offset(), kind: ErrorKind::EmptyInteger });
        }
        proof {
            lemma_lit_canonical(lit);
            assert(encode(Value::Int(value as int)) =~= seq![INT_BEGIN] + lit + seq![END]);
            assert(prefix_at(encode(Value::Int(value as int)), s, p)) by {
                let x = encode(Value::Int(value as int));
                assert forall|i: int| 0 <= i < x.len() implies s[p + i] == #[trigger] x[i] by {
                    if 1 <= i <= lit.len() {
                        assert(x[i] == lit[i - 1]);
                    }
                }
            }
        }
        match self.lexer.next_token() {
            Ok(Token::IntegerEnd) => Ok(value),
            Ok(_) => Err(Error { position: self.lexer.offset(), kind: ErrorKind::UnexpectedToken }),
            Err(e) => Err(e),
        }
    }

    /// Parses a byte string, `<length>:<bytes>`.
    pub fn parse_bytes(&mut self) -> (r: Result<Vec<u8>, Error>)
        requires
            old(self).lex().wf(),
        ensures
            final(self).lex().wf(),
            final(self).lex().input() == old(self).lex().input(),
            r matches Ok(b) ==> {
                &&& value_at(old(self).lex().input(), old(self).lex().pos(), Value::Bytes(b@))
                &&& final(self).lex().pos() == old(self).lex().pos() + encode_bytes(b@).len()
                &&& final(self).lex().stack() == old(self).lex().stack()
                &&& !final(self).lex().peeked()
            },
            r is Err ==> forall|b: Seq<u8>| !#[trigger] value_at(old(self).lex().input(), old(self).lex().pos(), Value::Bytes(b)),
            r matches Err(e) ==> old(self).lex().pos() <= e.position <= old(self).lex().input().len(),
            r matches Err(e) ==> !(e.kind is TrailingData),
            ({
                let s = old(self).lex().input();
                let p = old(self).lex().pos();
                p < s.len() && is_digit(s[p]) ==> (r matches Err(e) ==> bytes_error(s, p, e))
            }),
    {
        let ghost s = self.lexer.input();
        let ghost p = self.lexer.pos();
        proof {
            self.lexer.lemma_pos();
            assert forall|b: Seq<u8>| #[trigger] value_at(s, p, Value::Bytes(b)) implies is_digit(s[p]) && lex_step(
                s,
                p,
                self.lexer.stack(),
                self.lexer.current(),
            ) is Some by {
                lemma_length_token(s, p, b);
                lemma_value_token(s, p, self.lexer.stack(), self.lexer.current(), Value::Bytes(b));
            }
        }
        let at = self.lexer.offset();
        let n = match self.lexer.next_token() {
            Ok(Token::Length(n)) => n,
            Ok(_) => {
                return Err(Error { position: at, kind: ErrorKind::UnexpectedToken });
            },
            Err(e) => {
                return Err(e);
            },
        };
        proof {
            lemma_lit_end_bounds(s, p);
        }
        let ghost j = lit_end(s, p);
        let ghost d = s.subrange(p, j);
        proof {
            assert(is_digit(s[p]));
            assert(d[0] == s[p]);
            assert forall|b: Seq<u8>| #[trigger] value_at(s, p, Value::Bytes(b)) implies b.len() == n && d == nat_digits(
                b.len(),
            ) by {
                lemma_length_token(s, p, b);
            }
        }
        match self.lexer.next_token() {
            Ok(Token::Colon) => {},
            Ok(_) => {
                return Err(Error { position: self.lexer.offset(), kind: ErrorKind::UnexpectedToken });
            },
            Err(e) => {
                return Err(e);
            },
        }
        if n as u64 > usize::MAX as u64 {
            proof {
                self.lexer.lemma_pos();
            }
            let end = self.lexer.input_len();
            let available = end - self.lexer.offset();
            return Err(Error { position: end, kind: ErrorKind::TruncatedByteString(available) });
        }
        let len = n as usize;
        let bytes = match self.lexer.read_bytes(len) {
            Ok(b) => b,
            Err(e) => {
                proof {
                    assert forall|b: Seq<u8>| !#[trigger] value_at(s, p, Value::Bytes(b)) by {
                        if value_at(s, p, Value::Bytes(b)) {
                            lemma_length_token(s, p, b);
                        }
                    }
                }
                return Err(e);
            },
        };
        proof {
            lemma_nat_lit(len as nat);
            assert(lit_body(d) == d);
            lemma_lit_canonical(d);
            assert(nat_digits(len as nat) == d);
            let x = encode_bytes(bytes@);
            assert(x == d + seq![COLON] + bytes@);
            assert forall|i: int| 0 <= i < x.len() implies s[p + i] == #[trigger] x[i] by {
                if i < d.len() {
                    assert(x[i] == d[i]);
                } else if i > d.len() {
                    assert(x[i] == bytes@[i - d.len() - 1]);
                }
            }
        }
        Ok(bytes)
    }
}

impl<'a> Parser<'a> {
    /// Parses one value of any kind.
    fn parse_node(&mut self) -> (r: Result<BNode, Error>)
        requires
            old(self).lex().wf(),
        ensures
            final(self).lex().wf(),
            final(self).lex().input() == old(self).lex().input(),
            r matches Ok(n) ==> {
                &&& canonical(n@)
                &&& exists|t: Value| #[trigger] value_at(old(self).lex().input(), old(self).lex().pos(), t) && n@ == normalize(t)
                    && final(self).lex().pos() == old(self).lex().pos() + encode(t).len()
                &&& final(self).lex().stack() == old(self).lex().stack()
                &&& !final(self).lex().peeked()
            },
            r is Err ==> forall|t: Value| !#[trigger] value_at(old(self).lex().input(), old(self).lex().pos(), t),
            r matches Err(e) ==> old(self).lex().pos() <= e.position <= old(self).lex().input().len(),
            r matches Err(e) ==> !(e.kind is TrailingData),
            value_failure(old(self).lex().input(), old(self).lex().pos(), err_of(r)),
        decreases old(self).lex().input().len() - old(self).lex().pos(), 1int,
    {
        let ghost s = self.lexer.input();
        let ghost p = self.lexer.pos();
        let ghost stk = self.lexer.stack();
        let ghost cur = self.lexer.current();
        proof {
            self.lexer.lemma_pos();
        }
        let at = self.lexer.offset();
        let tok = match self.lexer.look_ahead() {
            Ok(t) => t,
            Err(e) => {
                proof {
                    assert forall|t: Value| !#[trigger] value_at(s, p, t) by {
                        if value_at(s, p, t) {
                            lemma_value_token(s, p, stk, cur, t);
                        }
                    }
                }
                return Err(e);
            },
        };
        proof {
            assert forall|t: Value| #[trigger] value_at(s, p, t) implies first_token(t) == tok by {
                lemma_value_token(s, p, stk, cur, t);
            }
        }
        match tok {
            Token::IntegerBegin => match self.parse_integer() {
                Ok(v) => {
                    assert(value_at(s, p, Value::Int(v as int)));
                    Ok(BNode::Integer(v))
                },
                Err(e) => {
                    proof {
                        assert forall|t: Value| !#[trigger] value_at(s, p, t) by {
                            if value_at(s, p, t) {
                                assert(value_at(s, p, Value::Int(t->Int_0)));
                            }
                        }
                    }
                    Err(e)
                },
            },
            Token::Length(_) => match self.parse_bytes() {
                Ok(b) => {
                    assert(value_at(s, p, Value::Bytes(b@)));
                    Ok(BNode::Bytes(b))
                },
                Err(e) => {
                    proof {
                        assert forall|t: Value| !#[trigger] value_at(s, p, t) by {
                            if value_at(s, p, t) {
                                assert(value_at(s, p, Value::Bytes(t->Bytes_0)));
                            }
                        }
                    }
                    Err(e)
                },
            },
            Token::ListBegin => match self.parse_list() {
                Ok(l) => {
                    let ghost xs = choose|xs: Seq<Value>| #[trigger] value_at(s, p, Value::List(xs)) && items_value(l@)
                        == normalize_items(xs) && self.lexer.pos() == p + encode(Value::List(xs)).len();
                    assert(value_at(s, p, Value::List(xs)));
                    Ok(BNode::List(l))
                },
                Err(e) => {
                    proof {
                        assert forall|t: Value| !#[trigger] value_at(s, p, t) by {
                            if value_at(s, p, t) {
                                assert(value_at(s, p, Value::List(t->List_0)));
                            }
                        }
                    }
                    Err(e)
                },
            },
            Token::DictBegin => match self.parse_dict() {
                Ok(d) => {
                    let ghost es = choose|es: Seq<(Seq<u8>, Value)>| #[trigger] value_at(s, p, Value::Dict(es)) && d@
                        == normalize_entries(es) && self.lexer.pos() == p + encode(Value::Dict(es)).len();
                    assert(value_at(s, p, Value::Dict(es)));
                    Ok(BNode::Dict(d))
                },
                Err(e) => {
                    proof {
                        assert forall|t: Value| !#[trigger] value_at(s, p, t) by {
                            if value_at(s, p, t) {
                                assert(value_at(s, p, Value::Dict(t->Dict_0)));
                            }
                        }
                    }
                    Err(e)
                },
            },
            _ => Err(Error { position: at, kind: ErrorKind::UnexpectedToken }),
        }
    }

    /// Parses a list, `l<values>e`.
    pub fn parse_list(&mut self) -> (r: Result<Vec<BNode>, Error>)
        requires
            old(self).lex().wf(),
        ensures
            final(self).lex().wf(),
            final(self).lex().input() == old(self).lex().input(),
            r matches Ok(l) ==> {
                &&& canonical_items(items_value(l@))
                &&& exists|xs: Seq<Value>| #[trigger] value_at(old(self).lex().input(), old(self).lex().pos(), Value::List(xs))
                    && items_value(l@) == normalize_items(xs) && final(self).lex().pos() == old(self).lex().pos()
                    + encode(Value::List(xs)).len()
                &&& final(self).lex().stack() == old(self).lex().stack()
                &&& !final(self).lex().peeked()
            },
            r is Err ==> forall|xs: Seq<Value>| !#[trigger] value_at(old(self).lex().input(), old(self).lex().pos(), Value::List(xs)),
            r matches Err(e) ==> old(self).lex().pos() <= e.position <= old(self).lex().input().len(),
            r matches Err(e) ==> !(e.kind is TrailingData),
            list_failure(old(self).lex().input(), old(self).lex().pos(), err_of(r)),
        decreases old(self).lex().input().len() - old(self).lex().pos(), 0int,
    {
        let ghost s = self.lexer.input();
        let ghost p = self.lexer.pos();
        let ghost stk = self.lexer.stack();
        proof {
            self.lexer.lemma_pos();
            assert forall|xs: Seq<Value>| #[trigger] value_at(s, p, Value::List(xs)) implies p < s.len() && s[p] == LIST_BEGIN by {
                lemma_value_token(s, p, stk, self.lexer.current(), Value::List(xs));
                lemma_encode_first(Value::List(xs));
                assert(s[p + 0] == encode(Value::List(xs))[0]);
            }
        }
        let at = self.lexer.offset();
        match self.lexer.next_token() {
            Ok(Token::ListBegin) => {},
            Ok(_) => {
                return Err(Error { position: at, kind: ErrorKind::UnexpectedToken });
            },
            Err(e) => {
                return Err(e);
            },
        }
        let mut list: Vec<BNode> = Vec::new();
        let ghost mut raw: Seq<Value> = Seq::empty();
        proof {
            assert(encode_items(raw) =~= Seq::<u8>::empty());
            assert(items_value(list@) =~= Seq::<Value>::empty());
            assert forall|xs: Seq<Value>| #[trigger] value_at(s, p, Value::List(xs)) implies raw.len() <= xs.len()
                && xs.subrange(0, raw.len() as int) == raw by {
                assert(xs.subrange(0, 0) =~= raw);
            }
            assert forall|xs: Seq<Value>| #[trigger] items_at(s, p, xs) implies (xs.len() <= raw.len() ==> raw.subrange(
                0,
                xs.len() as int,
            ) == xs) && (xs.len() >= raw.len() ==> xs.subrange(0, raw.len() as int) == raw) by {
                assert(xs.subrange(0, 0) =~= raw);
                if xs.len() == 0 {
                    assert(raw.subrange(0, 0) =~= xs);
                }
            }
        }
        loop
            invariant
                self.lexer.wf(),
                self.lexer.input() == s,
                s == old(self).lex().input(),
                p == old(self).lex().pos(),
                stk == old(self).lex().stack(),
                0 <= p < s.len(),
                s[p] == LIST_BEGIN,
                self.lexer.stack() == stk.push(Token::ListBegin),
                self.lexer.pos() == p + 1 + encode_items(raw).len(),
                prefix_at(encode_items(raw), s, p + 1),
                admissible_items(raw),
                items_value(list@) == normalize_items(raw),
                canonical_items(items_value(list@)),
                forall|xs: Seq<Value>| #[trigger] value_at(s, p, Value::List(xs)) ==> raw.len() <= xs.len()
                    && xs.subrange(0, raw.len() as int) == raw,
                forall|xs: Seq<Value>| #[trigger] items_at(s, p, xs) ==> (xs.len() <= raw.len() ==> raw.subrange(
                    0,
                    xs.len() as int,
                ) == xs) && (xs.len() >= raw.len() ==> xs.subrange(0, raw.len() as int) == raw),
            decreases s.len() - self.lexer.pos(),
        {
            let here = self.lexer.offset();
            let ghost q = self.lexer.pos();
            let ghost cur = self.lexer.current();
            let ghost st = self.lexer.stack();
            proof {
                self.lexer.lemma_pos();
                assert forall|xs: Seq<Value>| #[trigger] value_at(s, p, Value::List(xs)) implies (raw.len() == xs.len()
                    ==> q < s.len() && s[q] == END) && (raw.len() < xs.len() ==> value_at(s, q, xs[raw.len() as int])) by {
                    lemma_list_next(s, p, xs, raw);
                }
            }
            let tok = match self.lexer.look_ahead() {
                Ok(t) => t,
                Err(e) => {
                    proof {
                        assert forall|xs: Seq<Value>| !#[trigger] value_at(s, p, Value::List(xs)) by {
                            if value_at(s, p, Value::List(xs)) && raw.len() < xs.len() {
                                lemma_value_token(s, q, st, cur, xs[raw.len() as int]);
                            }
                        }
                        assert forall|t: Value| !#[trigger] value_at(s, q, t) by {
                            if value_at(s, q, t) {
                                lemma_value_token(s, q, st, cur, t);
                            }
                        }
                        lemma_list_failure(s, p, raw, q, Some(e));
                    }
                    return Err(e);
                },
            };
            proof {
                assert forall|xs: Seq<Value>| #[trigger] value_at(s, p, Value::List(xs)) && raw.len() < xs.len() implies tok
                    == first_token(xs[raw.len() as int]) by {
                    lemma_value_token(s, q, st, cur, xs[raw.len() as int]);
                }
            }
            match tok {
                Token::ListEnd => {
                    match self.lexer.next_token() {
                        Ok(_) => {},
                        Err(e) => {
                            return Err(e);
                        },
                    }
                    proof {
                        assert(q < s.len() && s[q] == END);
                        let x = encode(Value::List(raw));
                        assert(x =~= seq![LIST_BEGIN] + encode_items(raw) + seq![END]);
                        assert(prefix_at(seq![LIST_BEGIN], s, p)) by {
                            assert(s[p + 0] == seq![LIST_BEGIN][0]);
                        }
                        assert(prefix_at(seq![END], s, q)) by {
                            assert(s[q + 0] == seq![END][0]);
                        }
                        lemma_prefix_split(seq![LIST_BEGIN], encode_items(raw), s, p);
                        lemma_prefix_split(seq![LIST_BEGIN] + encode_items(raw), seq![END], s, p);
                        assert(value_at(s, p, Value::List(raw)));
                        assert forall|t: Value| !#[trigger] value_at(s, q, t) by {
                            if value_at(s, q, t) {
                                lemma_value_token(s, q, st, cur, t);
                            }
                        }
                        lemma_list_failure(s, p, raw, q, None);
                    }
                    return Ok(list);
                },
                Token::IntegerBegin | Token::Length(_) | Token::ListBegin | Token::DictBegin => {
                    let n = match self.parse_node() {
                        Ok(n) => n,
                        Err(e) => {
                            proof {
                                assert forall|xs: Seq<Value>| !#[trigger] value_at(s, p, Value::List(xs)) by {
                                    if value_at(s, p, Value::List(xs)) && raw.len() < xs.len() {
                                        assert(value_at(s, q, xs[raw.len() as int]));
                                    }
                                }
                                lemma_list_failure(s, p, raw, q, Some(e));
                            }
                            return Err(e);
                        },
                    };
                    let ghost t = choose|t: Value| #[trigger] value_at(s, q, t) && n@ == normalize(t) && self.lexer.pos()
                        == q + encode(t).len();
                    proof {
                        lemma_encode_first(t);
                        let raw2 = raw.push(t);
                        assert(raw2.subrange(0, raw.len() as int) =~= raw);
                        assert(list@.push(n).subrange(0, list@.len() as int) =~= list@);
                        lemma_prefix_split(encode_items(raw), encode(t), s, p + 1);
                        assert forall|xs: Seq<Value>| #[trigger] value_at(s, p, Value::List(xs)) implies raw2.len() <= xs.len()
                            && xs.subrange(0, raw2.len() as int) == raw2 by {
                            assert(raw.len() < xs.len());
                            lemma_prefix_free(xs[raw.len() as int], t, s, q);
                            assert(xs.subrange(0, raw2.len() as int) =~= raw2);
                        }
                        assert forall|xs: Seq<Value>| #[trigger] items_at(s, p, xs) implies (xs.len() <= raw2.len()
                            ==> raw2.subrange(0, xs.len() as int) == xs) && (xs.len() >= raw2.len() ==> xs.subrange(
                            0,
                            raw2.len() as int,
                        ) == raw2) by {
                            if xs.len() > raw.len() {
                                lemma_items_next(s, p + 1, xs, raw.len() as int);
                                lemma_prefix_free(xs[raw.len() as int], t, s, q);
                                assert(xs.subrange(0, raw2.len() as int) =~= raw2);
                                if xs.len() == raw2.len() {
                                    assert(raw2.subrange(0, xs.len() as int) =~= xs);
                                }
                            } else {
                                assert(raw2.subrange(0, xs.len() as int) =~= raw.subrange(0, xs.len() as int));
                            }
                        }
                    }
                    let ghost old_list = list@;
                    list.push(n);
                    proof {
                        let iv = items_value(old_list);
                        assert(list@.subrange(0, old_list.len() as int) =~= old_list);
                        assert(items_value(list@) == iv.push(n@));
                        assert(iv.push(n@).subrange(0, iv.len() as int) =~= iv);
                        raw = raw.push(t);
                    }
                },
                _ => {
                    let e = Error { position: here, kind: ErrorKind::UnexpectedToken };
                    proof {
                        assert forall|t: Value| !#[trigger] value_at(s, q, t) by {
                            if value_at(s, q, t) {
                                lemma_value_token(s, q, st, cur, t);
                            }
                        }
                        lemma_list_failure(s, p, raw, q, Some(e));
                    }
                    return Err(e);
                },
            }
        }
    }

    /// Parses a dictionary, `d<key value pairs>e`. Keys must be byte strings
    /// that are valid UTF-8; a repeated key keeps its last value.
    pub fn parse_dict(&mut self) -> (r: Result<BDict, Error>)
        requires
            old(self).lex().wf(),
        ensures
            final(self).lex().wf(),
            final(self).lex().input() == old(self).lex().input(),
            r matches Ok(d) ==> {
                &&& d.wf()
                &&& canonical_entries(d@)
                &&& exists|es: Seq<(Seq<u8>, Value)>| #[trigger] value_at(old(self).lex().input(), old(self).lex().pos(), Value::Dict(es))
                    && d@ == normalize_entries(es) && final(self).lex().pos() == old(self).lex().pos()
                    + encode(Value::Dict(es)).len()
                &&& final(self).lex().stack() == old(self).lex().stack()
                &&& !final(self).lex().peeked()
            },
            r is Err ==> forall|es: Seq<(Seq<u8>, Value)>| !#[trigger] value_at(old(self).lex().input(), old(self).lex().pos(), Value::Dict(es)),
            r matches Err(e) ==> old(self).lex().pos() <= e.position <= old(self).lex().input().len(),
            r matches Err(e) ==> !(e.kind is TrailingData),
            dict_failure(old(self).lex().input(), old(self).lex().pos(), err_of(r)),
        decreases old(self).lex().input().len() - old(self).lex().pos(), 0int,
    {
        let ghost s = self.lexer.input();
        let ghost p = self.lexer.pos();
        let ghost stk = self.lexer.stack();
        proof {
            self.lexer.lemma_pos();
            assert forall|es: Seq<(Seq<u8>, Value)>| #[trigger] value_at(s, p, Value::Dict(es)) implies p < s.len() && s[p] == DICT_BEGIN by {
                lemma_value_token(s, p, stk, self.lexer.current(), Value::Dict(es));
                lemma_encode_first(Value::Dict(es));
                assert(s[p + 0] == encode(Value::Dict(es))[0]);
            }
        }
        let at = self.lexer.offset();
        match self.lexer.next_token() {
            Ok(Token::DictBegin) => {},
            Ok(_) => {
                return Err(Error { position: at, kind: ErrorKind::UnexpectedToken });
            },
            Err(e) => {
                return Err(e);
            },
        }
        let mut dict = BDict::new();
        let ghost mut raw: Seq<(Seq<u8>, Value)> = Seq::empty();
        proof {
            assert(encode_entries(raw) =~= Seq::<u8>::empty());
            assert forall|es: Seq<(Seq<u8>, Value)>| #[trigger] value_at(s, p, Value::Dict(es)) implies raw.len() <= es.len()
                && es.subrange(0, raw.len() as int) == raw by {
                assert(es.subrange(0, 0) =~= raw);
            }
            assert forall|es: Seq<(Seq<u8>, Value)>| #[trigger] entries_at(s, p, es) implies (es.len() <= raw.len()
                ==> raw.subrange(0, es.len() as int) == es) && (es.len() >= raw.len() ==> es.subrange(
                0,
                raw.len() as int,
            ) == raw) by {
                assert(es.subrange(0, 0) =~= raw);
                if es.len() == 0 {
                    assert(raw.subrange(0, 0) =~= es);
                }
            }
        }
        loop
            invariant
                self.lexer.wf(),
                self.lexer.input() == s,
                s == old(self).lex().input(),
                p == old(self).lex().pos(),
                stk == old(self).lex().stack(),
                0 <= p < s.len(),
                s[p] == DICT_BEGIN,
                self.lexer.stack() == stk.push(Token::DictBegin),
                self.lexer.pos() == p + 1 + encode_entries(raw).len(),
                prefix_at(encode_entries(raw), s, p + 1),
                admissible_entries(raw),
                dict@ == normalize_entries(raw),
                dict.wf(),
                canonical_entries(dict@),
                forall|es: Seq<(Seq<u8>, Value)>| #[trigger] value_at(s, p, Value::Dict(es)) ==> raw.len() <= es.len()
                    && es.subrange(0, raw.len() as int) == raw,
                forall|es: Seq<(Seq<u8>, Value)>| #[trigger] entries_at(s, p, es) ==> (es.len() <= raw.len()
                    ==> raw.subrange(0, es.len() as int) == es) && (es.len() >= raw.len() ==> es.subrange(
                    0,
                    raw.len() as int,
                ) == raw),
            decreases s.len() - self.lexer.pos(),
        {
            let here = self.lexer.offset();
            let ghost q = self.lexer.pos();
            let ghost cur = self.lexer.current();
            let ghost st = self.lexer.stack();
            proof {
                self.lexer.lemma_pos();
                assert forall|es: Seq<(Seq<u8>, Value)>| #[trigger] value_at(s, p, Value::Dict(es)) implies ({
                    let e = es[raw.len() as int];
                    &&& raw.len() == es.len() ==> q < s.len() && s[q] == END
                    &&& raw.len() < es.len() ==> {
                        &&& value_at(s, q, Value::Bytes(e.0))
                        &&& entry_admissible(e)
                        &&& value_at(s, q + encode_bytes(e.0).len(), e.1)
                    }
                }) by {
                    lemma_dict_next(s, p, es, raw);
                }
                assert forall|es: Seq<(Seq<u8>, Value)>| #[trigger] entries_at(s, p, es) && es.len() > raw.len() implies ({
                    let e = es[raw.len() as int];
                    &&& value_at(s, q, Value::Bytes(e.0))
                    &&& entry_admissible(e)
                    &&& value_at(s, q + encode_bytes(e.0).len(), e.1)
                }) by {
                    lemma_entries_next(s, p + 1, es, raw.len() as int);
                }
            }
            let tok = match self.lexer.look_ahead() {
                Ok(t) => t,
                Err(e) => {
                    proof {
                        assert forall|es: Seq<(Seq<u8>, Value)>| !#[trigger] value_at(s, p, Value::Dict(es)) by {
                            if value_at(s, p, Value::Dict(es)) && raw.len() < es.len() {
                                lemma_value_token(s, q, st, cur, Value::Bytes(es[raw.len() as int].0));
                            }
                        }
                        assert forall|es: Seq<(Seq<u8>, Value)>| #[trigger] entries_at(s, p, es) implies es.len() <= raw.len() by {
                            if es.len() > raw.len() {
                                lemma_value_token(s, q, st, cur, Value::Bytes(es[raw.len() as int].0));
                            }
                        }
                        lemma_dict_failure(s, p, raw, q, Some(e));
                    }
                    return Err(e);
                },
            };
            proof {
                assert forall|es: Seq<(Seq<u8>, Value)>| #[trigger] value_at(s, p, Value::Dict(es)) && raw.len() < es.len()
                    implies tok == first_token(Value::Bytes(es[raw.len() as int].0)) by {
                    lemma_value_token(s, q, st, cur, Value::Bytes(es[raw.len() as int].0));
                }
            }
            match tok {
                Token::DictEnd => {
                    match self.lexer.next_token() {
                        Ok(_) => {},
                        Err(e) => {
                            return Err(e);
                        },
                    }
                    proof {
                        assert(q < s.len() && s[q] == END);
                        let x = encode(Value::Dict(raw));
                        assert(x =~= seq![DICT_BEGIN] + encode_entries(raw) + seq![END]);
                        assert(prefix_at(seq![DICT_BEGIN], s, p)) by {
                            assert(s[p + 0] == seq![DICT_BEGIN][0]);
                        }
                        assert(prefix_at(seq![END], s, q)) by {
                            assert(s[q + 0] == seq![END][0]);
                        }
                        lemma_prefix_split(seq![DICT_BEGIN], encode_entries(raw), s, p);
                        lemma_prefix_split(seq![DICT_BEGIN] + encode_entries(raw), seq![END], s, p);
                        assert(value_at(s, p, Value::Dict(raw)));
                        assert forall|es: Seq<(Seq<u8>, Value)>| #[trigger] entries_at(s, p, es) implies es.len() <= raw.len() by {
                            if es.len() > raw.len() {
                                lemma_value_token(s, q, st, cur, Value::Bytes(es[raw.len() as int].0));
                            }
                        }
                        lemma_dict_failure(s, p, raw, q, None);
                    }
                    return Ok(dict);
                },
                Token::Length(_) => {
                    let raw_key = match self.parse_bytes() {
                        Ok(b) => b,
                        Err(e) => {
                            proof {
                                assert forall|es: Seq<(Seq<u8>, Value)>| !#[trigger] value_at(s, p, Value::Dict(es)) by {
                                    if value_at(s, p, Value::Dict(es)) && raw.len() < es.len() {
                                        assert(value_at(s, q, Value::Bytes(es[raw.len() as int].0)));
                                    }
                                }
                                assert forall|es: Seq<(Seq<u8>, Value)>| #[trigger] entries_at(s, p, es) implies es.len() <= raw.len() by {
                                    if es.len() > raw.len() {
                                        assert(value_at(s, q, Value::Bytes(es[raw.len() as int].0)));
                                    }
                                }
                                lemma_dict_failure(s, p, raw, q, Some(e));
                            }
                            return Err(e);
                        },
                    };
                    let ghost kb = raw_key@;
                    let ghost q1 = self.lexer.pos();
                    proof {
                        assert forall|es: Seq<(Seq<u8>, Value)>| #[trigger] value_at(s, p, Value::Dict(es)) implies raw.len()
                            < es.len() && es[raw.len() as int].0 == kb by {
                            lemma_bytes_prefix_free(kb, es[raw.len() as int].0, s, q);
                        }
                        assert forall|es: Seq<(Seq<u8>, Value)>| #[trigger] entries_at(s, p, es) && es.len() > raw.len() implies es[raw.len() as int].0 == kb by {
                            lemma_bytes_prefix_free(kb, es[raw.len() as int].0, s, q);
                        }
                    }
                    let key = match string_from_utf8(raw_key) {
                        Some(k) => k,
                        None => {
                            let e = Error { position: here, kind: ErrorKind::InvalidKeyEncoding };
                            proof {
                                lemma_dict_failure(s, p, raw, q, Some(e));
                            }
                            return Err(e);
                        },
                    };
                    let value = match self.parse_node() {
                        Ok(n) => n,
                        Err(e) => {
                            proof {
                                assert forall|es: Seq<(Seq<u8>, Value)>| !#[trigger] value_at(s, p, Value::Dict(es)) by {
                                    if value_at(s, p, Value::Dict(es)) {
                                        assert(value_at(s, q1, es[raw.len() as int].1));
                                    }
                                }
                                assert forall|es: Seq<(Seq<u8>, Value)>| #[trigger] entries_at(s, p, es) implies es.len() <= raw.len() by {
                                    if es.len() > raw.len() {
                                        assert(value_at(s, q1, es[raw.len() as int].1));
                                    }
                                }
                                lemma_dict_failure(s, p, raw, q, Some(e));
                            }
                            return Err(e);
                        },
                    };
                    let ghost t = choose|t: Value| #[trigger] value_at(s, q1, t) && value@ == normalize(t) && self.lexer.pos()
                        == q1 + encode(t).len();
                    proof {
                        lemma_encode_first(t);
                        let raw2 = raw.push((kb, t));
                        assert(raw2.subrange(0, raw.len() as int) =~= raw);
                        lemma_prefix_split(encode_entries(raw), encode_bytes(kb), s, p + 1);
                        lemma_prefix_split(encode_entries(raw) + encode_bytes(kb), encode(t), s, p + 1);
                        assert forall|es: Seq<(Seq<u8>, Value)>| #[trigger] value_at(s, p, Value::Dict(es)) implies raw2.len()
                            <= es.len() && es.subrange(0, raw2.len() as int) == raw2 by {
                            let e = es[raw.len() as int];
                            lemma_prefix_free(e.1, t, s, q1);
                            assert(es.subrange(0, raw2.len() as int) =~= raw2);
                        }
                        assert forall|es: Seq<(Seq<u8>, Value)>| #[trigger] entries_at(s, p, es) implies (es.len() <= raw2.len()
                            ==> raw2.subrange(0, es.len() as int) == es) && (es.len() >= raw2.len() ==> es.subrange(
                            0,
                            raw2.len() as int,
                        ) == raw2) by {
                            if es.len() > raw.len() {
                                let e = es[raw.len() as int];
                                lemma_prefix_free(e.1, t, s, q1);
                                assert(es.subrange(0, raw2.len() as int) =~= raw2);
                                if es.len() == raw2.len() {
                                    assert(raw2.subrange(0, es.len() as int) =~= es);
                                }
                            } else {
                                assert(raw2.subrange(0, es.len() as int) =~= raw.subrange(0, es.len() as int));
                            }
                        }
                        lemma_insert_canonical(dict@, kb, value@);
                    }
                    dict.insert(key, value);
                    proof {
                        raw = raw.push((kb, t));
                    }
                },
                Token::EndOfInput => {
                    let e = Error { position: here, kind: ErrorKind::UnexpectedToken };
                    proof {
                        assert forall|es: Seq<(Seq<u8>, Value)>| #[trigger] entries_at(s, p, es) implies es.len() <= raw.len() by {
                            if es.len() > raw.len() {
                                lemma_value_token(s, q, st, cur, Value::Bytes(es[raw.len() as int].0));
                            }
                        }
                        lemma_dict_failure(s, p, raw, q, Some(e));
                    }
                    return Err(e);
                },
                _ => {
                    let e = Error { position: here, kind: ErrorKind::NonStringDictKey };
                    proof {
                        assert forall|es: Seq<(Seq<u8>, Value)>| #[trigger] entries_at(s, p, es) implies es.len() <= raw.len() by {
                            if es.len() > raw.len() {
                                lemma_value_token(s, q, st, cur, Value::Bytes(es[raw.len() as int].0));
                            }
                        }
                        lemma_dict_failure(s, p, raw, q, Some(e));
                    }
                    return Err(e);
                },
            }
        }
    }
}

impl<'a> Parser<'a> {
    /// Parses one value that must run to the end of the input.
    pub fn parse(&mut self) -> (r: Result<BNode, Error>)
        requires
            old(self).lex().wf(),
        ensures
            ({
                let s = old(self).lex().input();
                let rest = s.subrange(old(self).lex().pos(), s.len() as int);
                let p = old(self).lex().pos();
                &&& r is Ok <==> decodable(rest)
                &&& r matches Ok(n) ==> decodes_to(rest, n@) && n.wf()
                &&& r matches Err(e) ==> p <= e.position <= s.len()
                &&& forall|t: Value| #[trigger] value_at(s, p, t) && p + encode(t).len() < s.len() ==> fails_at(
                    err_of(r),
                    p + encode(t).len(),
                ) && fails_with(err_of(r), ErrorKind::TrailingData)
                &&& trailing_only_after_value(s, p, err_of(r))
                &&& (r matches Err(e) && !(e.kind is TrailingData)) ==> value_failure(s, p, err_of(r))
            }),
    {
        let ghost s = self.lexer.input();
        let ghost p = self.lexer.pos();
        proof {
            self.lexer.lemma_pos();
        }
        let ghost rest = s.subrange(p, s.len() as int);
        proof {
            assert forall|t: Value| admissible(t) && #[trigger] encode(t) == rest implies value_at(s, p, t)
                && p + encode(t).len() == s.len() by {
                assert forall|i: int| 0 <= i < encode(t).len() implies s[p + i] == #[trigger] encode(t)[i] by {
                    assert(rest[i] == s[p + i]);
                }
            }
        }
        let node = match self.parse_node() {
            Ok(n) => n,
            Err(e) => {
                return Err(e);
            },
        };
        let ghost t0 = choose|t: Value| #[trigger] value_at(s, p, t) && node@ == normalize(t) && self.lexer.pos() == p
            + encode(t).len();
        proof {
            assert forall|t: Value| admissible(t) && #[trigger] encode(t) == rest implies t == t0 by {
                lemma_prefix_free(t, t0, s, p);
            }
        }
        let end = self.lexer.offset();
        if end < self.lexer.input_len() {
            proof {
                assert forall|t: Value| #[trigger] value_at(s, p, t) implies t == t0 by {
                    lemma_prefix_free(t, t0, s, p);
                }
            }
            return Err(Error { position: end, kind: ErrorKind::TrailingData });
        }
        proof {
            assert(encode(t0) =~= rest) by {
                assert forall|i: int| 0 <= i < encode(t0).len() implies rest[i] == encode(t0)[i] by {
                    assert(s[p + i] == encode(t0)[i]);
                }
            }
            assert forall|t: Value| #[trigger] value_at(s, p, t) implies t == t0 by {
                lemma_prefix_free(t, t0, s, p);
            }
        }
        Ok(node)
    }
}

/// Decodes a whole input: one bencode value and nothing after it.
pub fn parse(input: &[u8]) -> (r: Result<BNode, Error>)
    ensures
        r is Ok <==> decodable(input@),
        r matches Ok(n) ==> decodes_to(input@, n@) && n.wf(),
        r matches Err(e) ==> e.position <= input@.len(),
        forall|t: Value| #[trigger] value_at(input@, 0, t) && encode(t).len() < input@.len() ==> fails_at(
            err_of(r),
            encode(t).len() as int,
        ) && fails_with(err_of(r), ErrorKind::TrailingData),
        trailing_only_after_value(input@, 0, err_of(r)),
        (r matches Err(e) && !(e.kind is TrailingData)) ==> value_failure(input@, 0, err_of(r)),
{
    let mut parser = Parser::new(input);
    proof {
        assert(input@.subrange(0, input@.len() as int) =~= input@);
    }
    parser.parse()
}

} // verus!
