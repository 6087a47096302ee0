//! Facts about the encoding: how its pieces split and join, and that no
//! encoding of an admissible value is a proper prefix of another.
use vstd::prelude::*;
use vstd::utf8::valid_utf8;
use crate::value::{
    Value, admissible, admissible_entries, admissible_items, canonical, canonical_entries, dict_insert,
    encode, encode_bytes, encode_entries, encode_items, int_digits, is_digit, lit_char, nat_digits,
    prefix_at, COLON, DICT_BEGIN, END, INT_BEGIN, LIST_BEGIN,
};
use crate::value::{lemma_lex_asymmetric, lemma_lex_irreflexive, lex_lt};
use crate::decimal::{lemma_int_digits, lemma_lit_end, lemma_nat_digits, lemma_nat_lit};

verus! {

pub open spec fn entry_admissible(e: (Seq<u8>, Value)) -> bool {
    e.0.len() <= i64::MAX && valid_utf8(e.0) && admissible(e.1)
}

pub proof fn lemma_admissible_items(xs: Seq<Value>)
    ensures
        admissible_items(xs) <==> forall|i: int| 0 <= i < xs.len() ==> admissible(#[trigger] xs[i]),
    decreases xs.len(),
{
    if xs.len() > 0 {
        let init = xs.subrange(0, xs.len() - 1);
        lemma_admissible_items(init);
        assert forall|i: int| 0 <= i < xs.len() - 1 implies #[trigger] xs[i] == init[i] by {}
    }
}

pub proof fn lemma_admissible_entries(es: Seq<(Seq<u8>, Value)>)
    ensures
        admissible_entries(es) <==> forall|i: int| 0 <= i < es.len() ==> entry_admissible(#[trigger] es[i]),
    decreases es.len(),
{
    if es.len() > 0 {
        let init = es.subrange(0, es.len() - 1);
        lemma_admissible_entries(init);
        assert forall|i: int| 0 <= i < es.len() - 1 implies #[trigger] es[i] == init[i] by {}
    }
}

pub proof fn lemma_canonical_entries(es: Seq<(Seq<u8>, Value)>)
    ensures
        canonical_entries(es) <==> forall|i: int| 0 <= i < es.len() ==> canonical(#[trigger] es[i].1),
    decreases es.len(),
{
    if es.len() > 0 {
        let init = es.subrange(0, es.len() - 1);
        lemma_canonical_entries(init);
        assert forall|i: int| 0 <= i < es.len() - 1 implies #[trigger] es[i] == init[i] by {}
    }
}

pub proof fn lemma_items_concat(a: Seq<Value>, b: Seq<Value>)
    ensures
        encode_items(a + b) == encode_items(a) + encode_items(b),
    decreases b.len(),
{
    if b.len() == 0 {
        assert(a + b =~= a);
        assert(encode_items(a) + encode_items(b) =~= encode_items(a));
    } else {
        let b0 = b.subrange(0, b.len() - 1);
        lemma_items_concat(a, b0);
        assert((a + b).subrange(0, a.len() + b.len() - 1) =~= a + b0);
        assert((a + b)[a.len() + b.len() - 1] == b[b.len() - 1]);
        assert(encode_items(a + b) =~= encode_items(a) + encode_items(b));
    }
}

pub proof fn lemma_entries_concat(a: Seq<(Seq<u8>, Value)>, b: Seq<(Seq<u8>, Value)>)
    ensures
        encode_entries(a + b) == encode_entries(a) + encode_entries(b),
    decreases b.len(),
{
    if b.len() == 0 {
        assert(a + b =~= a);
        assert(encode_entries(a) + encode_entries(b) =~= encode_entries(a));
    } else {
        let b0 = b.subrange(0, b.len() - 1);
        lemma_entries_concat(a, b0);
        assert((a + b).subrange(0, a.len() + b.len() - 1) =~= a + b0);
        assert((a + b)[a.len() + b.len() - 1] == b[b.len() - 1]);
        assert(encode_entries(a + b) =~= encode_entries(a) + encode_entries(b));
    }
}

/// The encoding of a list of items, seen from its first item.
pub proof fn lemma_items_front(xs: Seq<Value>)
    requires
        xs.len() > 0,
    ensures
        encode_items(xs) == encode(xs[0]) + encode_items(xs.subrange(1, xs.len() as int)),
{
    let rest = xs.subrange(1, xs.len() as int);
    lemma_items_concat(seq![xs[0]], rest);
    assert(seq![xs[0]] + rest =~= xs);
    let one = seq![xs[0]];
    assert(one.subrange(0, 0) =~= Seq::<Value>::empty());
    assert(encode_items(Seq::<Value>::empty()) =~= Seq::<u8>::empty());
    assert(one[0] == xs[0]);
    assert(encode_items(one) =~= encode(xs[0]));
}

/// The encoding of a dictionary's entries, seen from its first entry.
pub proof fn lemma_entries_front(es: Seq<(Seq<u8>, Value)>)
    requires
        es.len() > 0,
    ensures
        encode_entries(es) == encode_bytes(es[0].0) + encode(es[0].1) + encode_entries(
            es.subrange(1, es.len() as int),
        ),
{
    let rest = es.subrange(1, es.len() as int);
    lemma_entries_concat(seq![es[0]], rest);
    assert(seq![es[0]] + rest =~= es);
    let one = seq![es[0]];
    assert(one.subrange(0, 0) =~= Seq::<(Seq<u8>, Value)>::empty());
    assert(encode_entries(Seq::<(Seq<u8>, Value)>::empty()) =~= Seq::<u8>::empty());
    assert(one[0] == es[0]);
    assert(encode_entries(one) =~= encode_bytes(es[0].0) + encode(es[0].1));
}

pub proof fn lemma_prefix_split(x: Seq<u8>, y: Seq<u8>, s: Seq<u8>, p: int)
    ensures
        prefix_at(x + y, s, p) <==> (prefix_at(x, s, p) && prefix_at(y, s, p + x.len())),
{
    if prefix_at(x + y, s, p) {
        assert forall|i: int| 0 <= i < x.len() implies s[p + i] == #[trigger] x[i] by {
            assert((x + y)[i] == x[i]);
        }
        assert forall|i: int| 0 <= i < y.len() implies s[p + x.len() + i] == #[trigger] y[i] by {
            assert((x + y)[x.len() + i] == y[i]);
        }
    }
    if prefix_at(x, s, p) && prefix_at(y, s, p + x.len()) {
        assert forall|i: int| 0 <= i < (x + y).len() implies s[p + i] == #[trigger] (x + y)[i] by {
            if i < x.len() {
                assert(s[p + i] == x[i]);
            } else {
                assert(s[p + x.len() + (i - x.len())] == y[i - x.len()]);
            }
        }
    }
}

/// The first byte of an encoding tells the kind of the value.
pub proof fn lemma_encode_first(t: Value)
    ensures
        encode(t).len() >= 2,
        t is Int ==> encode(t)[0] == INT_BEGIN,
        t is Bytes ==> is_digit(encode(t)[0]),
        t is List ==> encode(t)[0] == LIST_BEGIN,
        t is Dict ==> encode(t)[0] == DICT_BEGIN,
{
    match t {
        Value::Bytes(b) => {
            lemma_nat_digits(b.len());
            assert(encode(t)[0] == nat_digits(b.len())[0]);
        },
        _ => {},
    }
}

/// A value's encoding is never a prefix of the end marker.
pub proof fn lemma_encode_not_end(t: Value, s: Seq<u8>, p: int)
    requires
        prefix_at(encode(t), s, p),
    ensures
        p < s.len(),
        s[p] != END,
        s[p] != COLON,
{
    lemma_encode_first(t);
    assert(s[p + 0] == encode(t)[0]);
}

/// Two integers whose texts start at the same offset are equal.
pub proof fn lemma_int_prefix_free(x: int, y: int, s: Seq<u8>, p: int)
    requires
        admissible(Value::Int(x)),
        admissible(Value::Int(y)),
        prefix_at(encode(Value::Int(x)), s, p),
        prefix_at(encode(Value::Int(y)), s, p),
    ensures
        x == y,
{
    let dx = int_digits(x);
    let dy = int_digits(y);
    lemma_int_digits(x);
    lemma_int_digits(y);
    assert(encode(Value::Int(x)) == seq![INT_BEGIN] + dx + seq![END]);
    assert(encode(Value::Int(y)) == seq![INT_BEGIN] + dy + seq![END]);
    lemma_prefix_split(seq![INT_BEGIN] + dx, seq![END], s, p);
    lemma_prefix_split(seq![INT_BEGIN], dx, s, p);
    lemma_prefix_split(seq![INT_BEGIN] + dy, seq![END], s, p);
    lemma_prefix_split(seq![INT_BEGIN], dy, s, p);
    assert(s[p + 1 + dx.len() + 0] == seq![END][0]);
    assert(s[p + 1 + dy.len() + 0] == seq![END][0]);
    assert forall|i: int| p + 1 <= i < p + 1 + dx.len() implies lit_char(#[trigger] s[i]) by {
        assert(s[p + 1 + (i - p - 1)] == dx[i - p - 1]);
    }
    assert forall|i: int| p + 1 <= i < p + 1 + dy.len() implies lit_char(#[trigger] s[i]) by {
        assert(s[p + 1 + (i - p - 1)] == dy[i - p - 1]);
    }
    lemma_lit_end(s, p + 1, p + 1 + dx.len());
    lemma_lit_end(s, p + 1, p + 1 + dy.len());
    assert(dx =~= dy) by {
        assert forall|i: int| 0 <= i < dx.len() implies dx[i] == dy[i] by {
            assert(s[p + 1 + i] == dx[i]);
            assert(s[p + 1 + i] == dy[i]);
        }
    }
}

/// Two byte strings whose texts start at the same offset are equal.
pub proof fn lemma_bytes_prefix_free(x: Seq<u8>, y: Seq<u8>, s: Seq<u8>, p: int)
    requires
        x.len() <= i64::MAX,
        y.len() <= i64::MAX,
        prefix_at(encode_bytes(x), s, p),
        prefix_at(encode_bytes(y), s, p),
    ensures
        x == y,
{
    let dx = nat_digits(x.len());
    let dy = nat_digits(y.len());
    lemma_nat_lit(x.len());
    lemma_nat_lit(y.len());
    lemma_prefix_split(dx + seq![COLON], x, s, p);
    lemma_prefix_split(dx, seq![COLON], s, p);
    lemma_prefix_split(dy + seq![COLON], y, s, p);
    lemma_prefix_split(dy, seq![COLON], s, p);
    assert(s[p + dx.len() + 0] == seq![COLON][0]);
    assert(s[p + dy.len() + 0] == seq![COLON][0]);
    assert forall|i: int| p <= i < p + dx.len() implies lit_char(#[trigger] s[i]) by {
        assert(s[p + (i - p)] == dx[i - p]);
    }
    assert forall|i: int| p <= i < p + dy.len() implies lit_char(#[trigger] s[i]) by {
        assert(s[p + (i - p)] == dy[i - p]);
    }
    lemma_lit_end(s, p, p + dx.len());
    lemma_lit_end(s, p, p + dy.len());
    assert(dx =~= dy) by {
        assert forall|i: int| 0 <= i < dx.len() implies dx[i] == dy[i] by {
            assert(s[p + i] == dx[i]);
            assert(s[p + i] == dy[i]);
        }
    }
    assert(x.len() == y.len());
    assert(x =~= y) by {
        assert forall|i: int| 0 <= i < x.len() implies x[i] == y[i] by {
            assert(s[p + (dx.len() + 1) + i] == x[i]);
            assert(s[p + (dy.len() + 1) + i] == y[i]);
        }
    }
}

/// No encoding of an admissible value is a proper prefix of another: two
/// such values whose texts start at the same offset are equal.
pub proof fn lemma_prefix_free(a: Value, b: Value, s: Seq<u8>, p: int)
    requires
        admissible(a),
        admissible(b),
        prefix_at(encode(a), s, p),
        prefix_at(encode(b), s, p),
    ensures
        a == b,
    decreases a,
{
    lemma_encode_first(a);
    lemma_encode_first(b);
    assert(s[p + 0] == encode(a)[0]);
    assert(s[p + 0] == encode(b)[0]);
    match a {
        Value::Int(x) => {
            lemma_int_prefix_free(x, b->Int_0, s, p);
        },
        Value::Bytes(x) => {
            lemma_bytes_prefix_free(x, b->Bytes_0, s, p);
        },
        Value::List(xs) => {
            let ys = b->List_0;
            lemma_prefix_split(seq![LIST_BEGIN], encode_items(xs) + seq![END], s, p);
            lemma_prefix_split(seq![LIST_BEGIN], encode_items(ys) + seq![END], s, p);
            assert(encode(a) =~= seq![LIST_BEGIN] + (encode_items(xs) + seq![END]));
            assert(encode(b) =~= seq![LIST_BEGIN] + (encode_items(ys) + seq![END]));
            lemma_items_prefix_free(xs, ys, s, p + 1);
        },
        Value::Dict(es) => {
            let fs = b->Dict_0;
            lemma_prefix_split(seq![DICT_BEGIN], encode_entries(es) + seq![END], s, p);
            lemma_prefix_split(seq![DICT_BEGIN], encode_entries(fs) + seq![END], s, p);
            assert(encode(a) =~= seq![DICT_BEGIN] + (encode_entries(es) + seq![END]));
            assert(encode(b) =~= seq![DICT_BEGIN] + (encode_entries(fs) + seq![END]));
            lemma_entries_prefix_free(es, fs, s, p + 1);
        },
    }
}

pub proof fn lemma_items_prefix_free(xs: Seq<Value>, ys: Seq<Value>, s: Seq<u8>, q: int)
    requires
        admissible_items(xs),
        admissible_items(ys),
        prefix_at(encode_items(xs) + seq![END], s, q),
        prefix_at(encode_items(ys) + seq![END], s, q),
    ensures
        xs == ys,
    decreases xs,
{
    lemma_admissible_items(xs);
    lemma_admissible_items(ys);
    if xs.len() == 0 && ys.len() == 0 {
        assert(xs =~= ys);
    } else if xs.len() == 0 {
        assert(encode_items(xs) =~= Seq::<u8>::empty());
        assert(s[q + 0] == (encode_items(xs) + seq![END])[0]);
        lemma_items_front(ys);
        lemma_prefix_split(encode_items(ys), seq![END], s, q);
        lemma_prefix_split(encode(ys[0]), encode_items(ys.subrange(1, ys.len() as int)), s, q);
        lemma_encode_not_end(ys[0], s, q);
    } else if ys.len() == 0 {
        assert(encode_items(ys) =~= Seq::<u8>::empty());
        assert(s[q + 0] == (encode_items(ys) + seq![END])[0]);
        lemma_items_front(xs);
        lemma_prefix_split(encode_items(xs), seq![END], s, q);
        lemma_prefix_split(encode(xs[0]), encode_items(xs.subrange(1, xs.len() as int)), s, q);
        lemma_encode_not_end(xs[0], s, q);
    } else {
        let xr = xs.subrange(1, xs.len() as int);
        let yr = ys.subrange(1, ys.len() as int);
        lemma_items_front(xs);
        lemma_items_front(ys);
        assert(encode_items(xs) + seq![END] =~= encode(xs[0]) + (encode_items(xr) + seq![END]));
        assert(encode_items(ys) + seq![END] =~= encode(ys[0]) + (encode_items(yr) + seq![END]));
        lemma_prefix_split(encode(xs[0]), encode_items(xr) + seq![END], s, q);
        lemma_prefix_split(encode(ys[0]), encode_items(yr) + seq![END], s, q);
        lemma_prefix_free(xs[0], ys[0], s, q);
        lemma_admissible_items(xr);
        lemma_admissible_items(yr);
        assert forall|i: int| 0 <= i < xr.len() implies admissible(#[trigger] xr[i]) by {
            assert(xr[i] == xs[i + 1]);
        }
        assert forall|i: int| 0 <= i < yr.len() implies admissible(#[trigger] yr[i]) by {
            assert(yr[i] == ys[i + 1]);
        }
        lemma_items_prefix_free(xr, yr, s, q + encode(xs[0]).len());
        assert(xs =~= seq![xs[0]] + xr);
        assert(ys =~= seq![ys[0]] + yr);
    }
}

pub proof fn lemma_entries_prefix_free(es: Seq<(Seq<u8>, Value)>, fs: Seq<(Seq<u8>, Value)>, s: Seq<u8>, q: int)
    requires
        admissible_entries(es),
        admissible_entries(fs),
        prefix_at(encode_entries(es) + seq![END], s, q),
        prefix_at(encode_entries(fs) + seq![END], s, q),
    ensures
        es == fs,
    decreases es,
{
    lemma_admissible_entries(es);
    lemma_admissible_entries(fs);
    if es.len() == 0 && fs.len() == 0 {
        assert(es =~= fs);
    } else if es.len() == 0 {
        assert(encode_entries(es) =~= Seq::<u8>::empty());
        assert(s[q + 0] == (encode_entries(es) + seq![END])[0]);
        lemma_entries_front(fs);
        lemma_prefix_split(encode_entries(fs), seq![END], s, q);
        lemma_prefix_split(
            encode_bytes(fs[0].0),
            encode(fs[0].1) + encode_entries(fs.subrange(1, fs.len() as int)),
            s,
            q,
        );
        assert(encode_bytes(fs[0].0) + encode(fs[0].1) + encode_entries(fs.subrange(1, fs.len() as int))
            =~= encode_bytes(fs[0].0) + (encode(fs[0].1) + encode_entries(fs.subrange(1, fs.len() as int))));
        lemma_encode_not_end(Value::Bytes(fs[0].0), s, q);
    } else if fs.len() == 0 {
        assert(encode_entries(fs) =~= Seq::<u8>::empty());
        assert(s[q + 0] == (encode_entries(fs) + seq![END])[0]);
        lemma_entries_front(es);
        lemma_prefix_split(encode_entries(es), seq![END], s, q);
        lemma_prefix_split(
            encode_bytes(es[0].0),
            encode(es[0].1) + encode_entries(es.subrange(1, es.len() as int)),
            s,
            q,
        );
        assert(encode_bytes(es[0].0) + encode(es[0].1) + encode_entries(es.subrange(1, es.len() as int))
            =~= encode_bytes(es[0].0) + (encode(es[0].1) + encode_entries(es.subrange(1, es.len() as int))));
        lemma_encode_not_end(Value::Bytes(es[0].0), s, q);
    } else {
        let er = es.subrange(1, es.len() as int);
        let fr = fs.subrange(1, fs.len() as int);
        lemma_entries_front(es);
        lemma_entries_front(fs);
        let ke = encode_bytes(es[0].0);
        let kf = encode_bytes(fs[0].0);
        assert(encode_entries(es) + seq![END] =~= ke + (encode(es[0].1) + (encode_entries(er) + seq![END])));
        assert(encode_entries(fs) + seq![END] =~= kf + (encode(fs[0].1) + (encode_entries(fr) + seq![END])));
        lemma_prefix_split(ke, encode(es[0].1) + (encode_entries(er) + seq![END]), s, q);
        lemma_prefix_split(kf, encode(fs[0].1) + (encode_entries(fr) + seq![END]), s, q);
        assert(entry_admissible(es[0]));
        assert(entry_admissible(fs[0]));
        lemma_bytes_prefix_free(es[0].0, fs[0].0, s, q);
        let q1 = q + ke.len();
        lemma_prefix_split(encode(es[0].1), encode_entries(er) + seq![END], s, q1);
        lemma_prefix_split(encode(fs[0].1), encode_entries(fr) + seq![END], s, q1);
        lemma_prefix_free(es[0].1, fs[0].1, s, q1);
        assert forall|i: int| 0 <= i < er.len() implies entry_admissible(#[trigger] er[i]) by {
            assert(er[i] == es[i + 1]);
        }
        assert forall|i: int| 0 <= i < fr.len() implies entry_admissible(#[trigger] fr[i]) by {
            assert(fr[i] == fs[i + 1]);
        }
        lemma_admissible_entries(er);
        lemma_admissible_entries(fr);
        lemma_entries_prefix_free(er, fr, s, q1 + encode(es[0].1).len());
        assert(es =~= seq![es[0]] + er);
        assert(fs =~= seq![fs[0]] + fr);
    }
}

proof fn lemma_insert_values(es: Seq<(Seq<u8>, Value)>, k: Seq<u8>, v: Value)
    requires
        forall|i: int| 0 <= i < es.len() ==> canonical(#[trigger] es[i].1),
        canonical(v),
    ensures
        forall|i: int| 0 <= i < dict_insert(es, k, v).len() ==> canonical(#[trigger] dict_insert(es, k, v)[i].1),
    decreases es.len(),
{
    let r = dict_insert(es, k, v);
    if es.len() > 0 && es[0].0 != k && !lex_lt(k, es[0].0) {
        let rest = es.subrange(1, es.len() as int);
        assert forall|i: int| 0 <= i < rest.len() implies canonical(#[trigger] rest[i].1) by {
            assert(rest[i] == es[i + 1]);
        }
        lemma_insert_values(rest, k, v);
        assert forall|i: int| 0 <= i < r.len() implies canonical(#[trigger] r[i].1) by {
            if i > 0 {
                assert(r[i] == dict_insert(rest, k, v)[i - 1]);
            }
        }
    } else if es.len() > 0 && es[0].0 == k {
        assert forall|i: int| 0 <= i < r.len() implies canonical(#[trigger] r[i].1) by {
            if i > 0 {
                assert(r[i] == es[i]);
            }
        }
    } else if es.len() > 0 {
        assert forall|i: int| 0 <= i < r.len() implies canonical(#[trigger] r[i].1) by {
            if i > 0 {
                assert(r[i] == es[i - 1]);
            }
        }
    }
}

/// Inserting a canonical value into a dictionary of canonical values keeps
/// every value canonical.
pub proof fn lemma_insert_canonical(es: Seq<(Seq<u8>, Value)>, k: Seq<u8>, v: Value)
    requires
        canonical_entries(es),
        canonical(v),
    ensures
        canonical_entries(dict_insert(es, k, v)),
{
    lemma_canonical_entries(es);
    lemma_insert_values(es, k, v);
    lemma_canonical_entries(dict_insert(es, k, v));
}

/// Inserting into the suffix from `i` on, when every key before `i` is smaller.
pub proof fn lemma_dict_insert_skip(es: Seq<(Seq<u8>, Value)>, k: Seq<u8>, v: Value, i: int)
    requires
        0 <= i <= es.len(),
        forall|j: int| 0 <= j < i ==> lex_lt(#[trigger] es[j].0, k),
    ensures
        dict_insert(es, k, v) == es.subrange(0, i) + dict_insert(es.subrange(i, es.len() as int), k, v),
    decreases i,
{
    if i == 0 {
        assert(es.subrange(0, es.len() as int) =~= es);
        assert(es.subrange(0, 0) + dict_insert(es, k, v) =~= dict_insert(es, k, v));
    } else {
        lemma_lex_irreflexive(k);
        lemma_lex_asymmetric(es[0].0, k);
        let rest = es.subrange(1, es.len() as int);
        assert forall|j: int| 0 <= j < i - 1 implies lex_lt(#[trigger] rest[j].0, k) by {
            assert(rest[j] == es[j + 1]);
        }
        lemma_dict_insert_skip(rest, k, v, i - 1);
        assert(rest.subrange(i - 1, rest.len() as int) =~= es.subrange(i, es.len() as int));
        assert(seq![es[0]] + rest.subrange(0, i - 1) =~= es.subrange(0, i));
        assert(dict_insert(es, k, v) == seq![es[0]] + dict_insert(rest, k, v));
        assert(seq![es[0]] + (rest.subrange(0, i - 1) + dict_insert(es.subrange(i, es.len() as int), k, v))
            =~= es.subrange(0, i) + dict_insert(es.subrange(i, es.len() as int), k, v));
    }
}

} // verus!
