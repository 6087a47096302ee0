//! Decimal literals: how the lexer reads them, how the serializer writes
//! them, and the facts that tie the two together.
use vstd::prelude::*;
use crate::value::{is_digit, lit_char, nat_digits, int_digits, MINUS};

verus! {

/// The number that a run of decimal digits spells.
pub open spec fn digits_val(d: Seq<u8>) -> nat
    decreases d.len(),
{
    if d.len() == 0 {
        0
    } else {
        digits_val(d.subrange(0, d.len() - 1)) * 10 + (d[d.len() - 1] - 48) as nat
    }
}

pub open spec fn all_digits(d: Seq<u8>) -> bool {
    forall|i: int| 0 <= i < d.len() ==> is_digit(#[trigger] d[i])
}

/// The literal starts with a minus sign.
pub open spec fn lit_neg(s: Seq<u8>) -> bool {
    s.len() > 0 && s[0] == MINUS
}

/// The literal without its sign.
pub open spec fn lit_body(s: Seq<u8>) -> Seq<u8> {
    if lit_neg(s) {
        s.subrange(1, s.len() as int)
    } else {
        s
    }
}

pub open spec fn lit_value(s: Seq<u8>) -> int {
    if lit_neg(s) {
        -digits_val(lit_body(s))
    } else {
        digits_val(lit_body(s)) as int
    }
}

/// A literal that the lexer accepts before its terminator: an optional
/// leading `-`, then digits with no leading zero, no `-0`, and a value that
/// fits in `i64`. The digits may be missing (the caller decides whether that
/// is allowed).
pub open spec fn valid_lit(s: Seq<u8>) -> bool {
    let d = lit_body(s);
    &&& all_digits(d)
    &&& d.len() > 1 ==> d[0] != 48
    &&& !(lit_neg(s) && d.len() > 0 && d[0] == 48)
    &&& i64::MIN <= lit_value(s) <= i64::MAX
}

/// The end of the run of literal bytes that starts at `p`.
pub open spec fn lit_end(s: Seq<u8>, p: int) -> int
    decreases s.len() - p,
{
    if p < 0 || p >= s.len() || !lit_char(s[p]) {
        p
    } else {
        lit_end(s, p + 1)
    }
}

pub proof fn lemma_lit_end(s: Seq<u8>, p: int, q: int)
    requires
        0 <= p <= q <= s.len(),
        forall|i: int| p <= i < q ==> lit_char(#[trigger] s[i]),
        q == s.len() || !lit_char(s[q]),
    ensures
        lit_end(s, p) == q,
    decreases q - p,
{
    if p < q {
        lemma_lit_end(s, p + 1, q);
    }
}

/// The run of literal bytes from `q` ends within the input, and holds only
/// literal bytes.
pub proof fn lemma_lit_end_bounds(s: Seq<u8>, q: int)
    requires
        0 <= q <= s.len(),
    ensures
        q <= lit_end(s, q) <= s.len(),
        forall|i: int| q <= i < lit_end(s, q) ==> lit_char(#[trigger] s[i]),
        lit_end(s, q) < s.len() ==> !lit_char(s[lit_end(s, q)]),
    decreases s.len() - q,
{
    if q < s.len() && lit_char(s[q]) {
        lemma_lit_end_bounds(s, q + 1);
    }
}

/// Skipping literal bytes does not move the end of the run.
pub proof fn lemma_lit_end_skip(s: Seq<u8>, p: int, q: int)
    requires
        0 <= p <= q <= s.len(),
        forall|i: int| p <= i < q ==> lit_char(#[trigger] s[i]),
    ensures
        lit_end(s, p) == lit_end(s, q),
    decreases q - p,
{
    if p < q {
        lemma_lit_end_skip(s, p + 1, q);
    }
}

pub proof fn lemma_digits_val_push(d: Seq<u8>, c: u8)
    ensures
        digits_val(d.push(c)) == digits_val(d) * 10 + (c - 48) as nat,
{
    assert(d.push(c).subrange(0, d.len() as int) =~= d);
}

pub proof fn lemma_nat_digits(n: nat)
    ensures
        nat_digits(n).len() >= 1,
        all_digits(nat_digits(n)),
        nat_digits(n).len() > 1 ==> nat_digits(n)[0] != 48,
        nat_digits(n)[0] == 48 ==> n == 0,
        digits_val(nat_digits(n)) == n,
    decreases n,
{
    if n < 10 {
        assert(nat_digits(n).subrange(0, 0) =~= Seq::<u8>::empty());
        assert(digits_val(Seq::<u8>::empty()) == 0);
    } else {
        lemma_nat_digits(n / 10);
        let d = nat_digits(n / 10);
        lemma_digits_val_push(d, (n % 10 + 48) as u8);
        assert(n == (n / 10) * 10 + n % 10);
        assert((((n % 10 + 48) as u8) - 48) as nat == n % 10);
        assert(nat_digits(n)[0] == d[0]);
        assert(all_digits(nat_digits(n))) by {
            assert forall|i: int| 0 <= i < nat_digits(n).len() implies is_digit(#[trigger] nat_digits(n)[i]) by {
                if i < d.len() {
                    assert(nat_digits(n)[i] == d[i]);
                }
            }
        }
    }
}

/// A positive digit run without a leading zero spells a positive number.
pub proof fn lemma_digits_val_pos(d: Seq<u8>)
    requires
        d.len() >= 1,
        all_digits(d),
        d[0] != 48,
    ensures
        digits_val(d) >= 1,
    decreases d.len(),
{
    let e = d.subrange(0, d.len() - 1);
    if d.len() > 1 {
        assert(e[0] == d[0]);
        lemma_digits_val_pos(e);
    } else {
        assert(e =~= Seq::<u8>::empty());
    }
}

/// A digit prefix never spells more than the whole run.
pub proof fn lemma_digits_val_prefix(d: Seq<u8>, m: int)
    requires
        0 <= m <= d.len(),
        all_digits(d),
    ensures
        digits_val(d.subrange(0, m)) <= digits_val(d),
    decreases d.len() - m,
{
    if m < d.len() {
        let e = d.subrange(0, d.len() - 1);
        lemma_digits_val_prefix(e, m);
        assert(e.subrange(0, m) =~= d.subrange(0, m));
    } else {
        assert(d.subrange(0, m) =~= d);
    }
}

/// Digits without a leading zero are the decimal text of their value.
pub proof fn lemma_digits_canonical(d: Seq<u8>)
    requires
        d.len() >= 1,
        all_digits(d),
        d.len() > 1 ==> d[0] != 48,
    ensures
        nat_digits(digits_val(d)) == d,
    decreases d.len(),
{
    let e = d.subrange(0, d.len() - 1);
    let c = d[d.len() - 1];
    if d.len() == 1 {
        assert(e =~= Seq::<u8>::empty());
        assert(digits_val(e) == 0);
        assert(is_digit(d[0]));
        assert(digits_val(d) == (d[0] - 48) as nat);
        assert(nat_digits(digits_val(d)) =~= d);
    } else {
        assert(e[0] == d[0]);
        lemma_digits_canonical(e);
        lemma_digits_val_pos(e);
        let x = digits_val(e);
        let v = digits_val(d);
        assert(v == x * 10 + (c - 48) as nat);
        assert(v / 10 == x);
        assert(v % 10 == (c - 48) as nat);
        assert(nat_digits(v) =~= e.push(c));
        assert(e.push(c) =~= d);
    }
}

/// The text of an `i64` is a literal that the lexer accepts, with that value.
pub proof fn lemma_int_digits(i: int)
    requires
        i64::MIN <= i <= i64::MAX,
    ensures
        valid_lit(int_digits(i)),
        lit_value(int_digits(i)) == i,
        lit_body(int_digits(i)).len() >= 1,
        forall|k: int| 0 <= k < int_digits(i).len() ==> lit_char(#[trigger] int_digits(i)[k]),
{
    if i < 0 {
        let n = (-i) as nat;
        lemma_nat_digits(n);
        let s = int_digits(i);
        assert(s[0] == MINUS);
        assert(lit_body(s) =~= nat_digits(n));
        assert forall|k: int| 0 <= k < s.len() implies lit_char(#[trigger] s[k]) by {
            if k > 0 {
                assert(s[k] == nat_digits(n)[k - 1]);
            }
        }
    } else {
        lemma_nat_digits(i as nat);
        let s = int_digits(i);
        assert(!lit_neg(s));
        assert forall|k: int| 0 <= k < s.len() implies lit_char(#[trigger] s[k]) by {
            assert(is_digit(s[k]));
        }
    }
}

/// An accepted literal with at least one digit is the text of its value.
pub proof fn lemma_lit_canonical(s: Seq<u8>)
    requires
        valid_lit(s),
        lit_body(s).len() >= 1,
    ensures
        int_digits(lit_value(s)) == s,
{
    let d = lit_body(s);
    lemma_digits_canonical(d);
    if lit_neg(s) {
        lemma_digits_val_pos(d);
        assert(seq![MINUS] + d =~= s);
    }
}

/// The digits of a natural number are a literal with that value and no sign.
pub proof fn lemma_nat_lit(n: nat)
    requires
        n <= i64::MAX,
    ensures
        valid_lit(nat_digits(n)),
        lit_value(nat_digits(n)) == n,
        !lit_neg(nat_digits(n)),
        forall|k: int| 0 <= k < nat_digits(n).len() ==> lit_char(#[trigger] nat_digits(n)[k]),
{
    lemma_int_digits(n as int);
}

/// Writes the decimal digits of `n`.
pub fn write_nat(n: u64, buf: &mut Vec<u8>)
    requires
        old(buf)@.len() + nat_digits(n as nat).len() <= usize::MAX,
    ensures
        final(buf)@ == old(buf)@ + nat_digits(n as nat),
    decreases n,
{
    if n >= 10 {
        proof {
            lemma_nat_digits((n / 10) as nat);
            assert(nat_digits(n as nat) == nat_digits((n / 10) as nat).push((n % 10 + 48) as u8));
        }
        write_nat(n / 10, buf);
    }
    buf.push((n % 10) as u8 + 48);
    assert(buf@ =~= old(buf)@ + nat_digits(n as nat));
}

/// Writes the decimal text of `i`.
pub fn write_int(i: i64, buf: &mut Vec<u8>)
    requires
        old(buf)@.len() + int_digits(i as int).len() <= usize::MAX,
    ensures
        final(buf)@ == old(buf)@ + int_digits(i as int),
{
    if i < 0 {
        buf.push(MINUS);
        let m: u64 = (0i128 - (i as i128)) as u64;
        write_nat(m, buf);
        assert(buf@ =~= old(buf)@ + int_digits(i as int));
    } else {
        write_nat(i as u64, buf);
    }
}

} // verus!
