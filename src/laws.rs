//! Laws that tie decoding and serialization together.
use vstd::prelude::*;
use crate::value::{
    Value, admissible, canonical, canonical_entries, canonical_items, canonical_text, decodable,
    decodes_to, dict_insert, encode, keys_sorted, lex_lt, normalize, normalize_entries, normalize_items,
    prefix_at,
};
use crate::encoding::{lemma_dict_insert_skip, lemma_prefix_free};
use crate::node::BNode;

verus! {

/// Inserting a key greater than every key of a dictionary appends it.
proof fn lemma_insert_last(es: Seq<(Seq<u8>, Value)>, k: Seq<u8>, v: Value)
    requires
        forall|j: int| 0 <= j < es.len() ==> lex_lt(#[trigger] es[j].0, k),
    ensures
        dict_insert(es, k, v) == es.push((k, v)),
{
    lemma_dict_insert_skip(es, k, v, es.len() as int);
    assert(es.subrange(0, es.len() as int) =~= es);
    assert(es.subrange(es.len() as int, es.len() as int) =~= Seq::<(Seq<u8>, Value)>::empty());
    assert(dict_insert(Seq::<(Seq<u8>, Value)>::empty(), k, v) =~= seq![(k, v)]);
    assert(es + seq![(k, v)] =~= es.push((k, v)));
}

/// Decoding leaves a canonical value as it is.
pub proof fn lemma_normalize_canonical(t: Value)
    requires
        canonical(t),
    ensures
        normalize(t) == t,
    decreases t,
{
    match t {
        Value::List(xs) => {
            lemma_normalize_items(xs);
        },
        Value::Dict(es) => {
            lemma_normalize_entries(es);
        },
        _ => {},
    }
}

proof fn lemma_normalize_items(xs: Seq<Value>)
    requires
        canonical_items(xs),
    ensures
        normalize_items(xs) == xs,
    decreases xs,
{
    if xs.len() > 0 {
        let init = xs.subrange(0, xs.len() - 1);
        lemma_normalize_items(init);
        lemma_normalize_canonical(xs[xs.len() - 1]);
        assert(init.push(xs[xs.len() - 1]) =~= xs);
    } else {
        assert(xs =~= Seq::<Value>::empty());
    }
}

proof fn lemma_normalize_entries(es: Seq<(Seq<u8>, Value)>)
    requires
        keys_sorted(es),
        canonical_entries(es),
    ensures
        normalize_entries(es) == es,
    decreases es,
{
    if es.len() > 0 {
        let n = es.len() - 1;
        let init = es.subrange(0, n);
        assert forall|i: int, j: int| 0 <= i < j < init.len() implies lex_lt(#[trigger] init[i].0, #[trigger] init[j].0) by {
            assert(init[i] == es[i]);
            assert(init[j] == es[j]);
        }
        lemma_normalize_entries(init);
        lemma_normalize_canonical(es[n].1);
        assert forall|j: int| 0 <= j < init.len() implies lex_lt(#[trigger] init[j].0, es[n].0) by {
            assert(init[j] == es[j]);
        }
        lemma_insert_last(init, es[n].0, es[n].1);
        assert(init.push((es[n].0, es[n].1)) =~= es);
    } else {
        assert(es =~= Seq::<(Seq<u8>, Value)>::empty());
    }
}

/// Round trip: an input that is the text of an admissible value whose
/// dictionaries are already in key order decodes, and what it decodes to
/// serializes back to exactly that input.
pub proof fn lemma_round_trip(s: Seq<u8>, m: BNode)
    requires
        canonical_text(s),
        decodes_to(s, m@),
    ensures
        decodable(s),
        encode(m@) == s,
{
    let t = choose|t: Value| admissible(t) && canonical(t) && encode(t) == s;
    let t1 = choose|t1: Value| admissible(t1) && encode(t1) == s && m@ == normalize(t1);
    assert(prefix_at(encode(t), s, 0));
    assert(prefix_at(encode(t1), s, 0));
    lemma_prefix_free(t, t1, s, 0);
    lemma_normalize_canonical(t);
}

/// Serialize, decode, serialize: the second text equals the first, for any
/// well-formed node whose value is admissible (byte strings shorter than
/// 2^63 bytes).
pub proof fn lemma_idempotent(n: BNode, m: BNode)
    requires
        n.wf(),
        admissible(n@),
        decodes_to(encode(n@), m@),
    ensures
        decodable(encode(n@)),
        encode(m@) == encode(n@),
{
    lemma_round_trip(encode(n@), m);
}

} // verus!
