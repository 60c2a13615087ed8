//! The library's general laws, stated over the specification functions and
//! proved once and for all.

use vstd::prelude::*;
use crate::b64::b64_decode_of;
use crate::number::{
    lemma_pow10_add, lemma_pow10_pos, num_lt, numer, pow10, spec_add, spec_num_cmp, Num, Order,
};
use crate::parser::{doc_model, doc_text, env_mid, env_shape, sp_value};
use crate::value::{
    kind_name, size_entries, size_sum, spec_size, spec_weight, spec_wcmp, wsum, Val,
};

verus! {

broadcast use vstd::seq::group_seq_axioms;

/// Envelope transparency: wrapping a document's base64 encoding in
/// `b:` ... `:` parses to the very value the bare document parses to, as
/// long as the bare document is not itself shaped like an envelope.
pub proof fn lemma_envelope_transparency(enc: Seq<char>, bs: Seq<u8>, t: Seq<char>)
    requires
        b64_decode_of(enc) == Some(bs),
        vstd::utf8::valid_utf8(bs),
        vstd::utf8::decode_utf8(bs) == t,
        !env_shape(t),
    ensures
        doc_model(seq!['b', ':'] + enc + seq![':']) == doc_model(t),
{
    let w = seq!['b', ':'] + enc + seq![':'];
    assert(w.len() == enc.len() + 3);
    assert(w[0] == 'b');
    assert(w[1] == ':');
    assert(w[w.len() - 1] == ':');
    assert(env_shape(w));
    assert(env_mid(w) =~= enc);
    assert(doc_text(w) == t);
    assert(doc_text(t) == t);
}

/// Size additivity: a list's size is the sum of its elements' sizes, a
/// dict's the sum of its values' sizes (keys excluded), and a tuple's the
/// sum of its two children's sizes.
pub proof fn lemma_size_additivity(l: Seq<Val>, d: Seq<(Seq<char>, Val)>, p: Seq<Val>)
    requires
        p.len() == 2,
    ensures
        spec_size(Val::List(l)) == size_sum(l),
        l.len() > 0 ==> size_sum(l) == size_sum(l.drop_last()) + spec_size(l.last()),
        spec_size(Val::Dict(d)) == size_entries(d),
        d.len() > 0 ==> size_entries(d) == size_entries(d.drop_last()) + spec_size(d.last().1),
        spec_size(Val::Tup(p)) == spec_size(p[0]) + spec_size(p[1]),
{
    assert(p.drop_last() =~= seq![p[0]]);
    assert(p.drop_last().drop_last() =~= Seq::<Val>::empty());
    assert(size_sum(p.drop_last().drop_last()) == 0);
    assert(p.drop_last().last() == p[0]);
    assert(p.last() == p[1]);
    assert(size_sum(p.drop_last()) == size_sum(p.drop_last().drop_last()) + spec_size(
        p.drop_last().last(),
    ));
    assert(size_sum(p) == size_sum(p.drop_last()) + spec_size(p.last()));
}

/// The ordering is reflexive: every value ties with itself.
pub proof fn lemma_order_reflexive(w: Option<Num>)
    ensures
        spec_wcmp(w, w) == Order::Equal,
{
}

/// The ordering is antisymmetric modulo ties: one side is below exactly
/// when the other side is above.
pub proof fn lemma_order_antisymmetric(a: Option<Num>, b: Option<Num>)
    ensures
        (spec_wcmp(a, b) == Order::Less) <==> (spec_wcmp(b, a) == Order::Greater),
        (spec_wcmp(a, b) == Order::Equal) <==> (spec_wcmp(b, a) == Order::Equal),
{
}

proof fn lemma_num_lt_trans(x: Num, y: Num, z: Num)
    requires
        num_lt(x, y),
        num_lt(y, z),
    ensures
        num_lt(x, z),
{
    let px = pow10(x.scale as nat);
    let py = pow10(y.scale as nat);
    let pz = pow10(z.scale as nat);
    lemma_pow10_pos(x.scale as nat);
    lemma_pow10_pos(y.scale as nat);
    lemma_pow10_pos(z.scale as nat);
    assert(numer(x) * py * pz < numer(y) * px * pz) by (nonlinear_arith)
        requires
            numer(x) * py < numer(y) * px,
            pz >= 1,
    ;
    assert(numer(y) * pz * px < numer(z) * py * px) by (nonlinear_arith)
        requires
            numer(y) * pz < numer(z) * py,
            px >= 1,
    ;
    assert(numer(y) * px * pz == numer(y) * pz * px) by (nonlinear_arith);
    assert(numer(x) * py * pz < numer(z) * py * px) by {
        assert(numer(x) * py * pz < numer(y) * px * pz);
        assert(numer(y) * px * pz == numer(y) * pz * px);
        assert(numer(y) * pz * px < numer(z) * py * px);
    }
    assert(numer(x) * pz < numer(z) * px) by (nonlinear_arith)
        requires
            numer(x) * py * pz < numer(z) * py * px,
            py >= 1,
    ;
}

/// The ordering is transitive.
pub proof fn lemma_order_transitive(a: Option<Num>, b: Option<Num>, c: Option<Num>)
    requires
        spec_wcmp(a, b) == Order::Less,
        spec_wcmp(b, c) == Order::Less,
    ensures
        spec_wcmp(a, c) == Order::Less,
{
    if a is Some && b is Some && c is Some {
        let (x, y, z) = ((match a {
            Some(x) => x,
            None => Num { neg: false, mant: 0, scale: 0 },
        }), (match b {
            Some(y) => y,
            None => Num { neg: false, mant: 0, scale: 0 },
        }), (match c {
            Some(z) => z,
            None => Num { neg: false, mant: 0, scale: 0 },
        }));
        lemma_num_lt_trans(x, y, z);
    }
}

/// On two numbers the ordering is exactly the rational order of their
/// values.
pub proof fn lemma_order_on_numbers(x: Num, y: Num)
    ensures
        spec_wcmp(spec_weight(Val::Number(x)), spec_weight(Val::Number(y))) == spec_num_cmp(
            x,
            y,
        ),
        spec_num_cmp(x, y) == Order::Less <==> num_lt(x, y),
        spec_num_cmp(x, y) == Order::Greater <==> num_lt(y, x),
{
}

/// Typed accessors are exact: a value matches a variant exactly when its
/// kind carries that variant's name.
pub proof fn lemma_kinds_distinct(m: Val)
    ensures
        (m matches Val::Str(_)) <==> kind_name(m) == seq!['S', 't', 'r', 'i', 'n', 'g'],
        (m matches Val::Number(_)) <==> kind_name(m) == seq!['N', 'u', 'm', 'b', 'e', 'r'],
        (m matches Val::Bool(_)) <==> kind_name(m) == seq!['B', 'o', 'o', 'l', 'e', 'a', 'n'],
        (m matches Val::List(_)) <==> kind_name(m) == seq!['L', 'i', 's', 't'],
        (m matches Val::Dict(_)) <==> kind_name(m) == seq!['D', 'i', 'c', 't'],
        (m matches Val::Tup(_)) <==> kind_name(m) == seq!['T', 'u', 'p', 'l', 'e'],
        (m matches Val::Bin(_)) <==> kind_name(m) == seq!['B', 'i', 'n', 'a', 'r', 'y'],
        (m matches Val::Null) <==> kind_name(m) == seq!['N', 'o', 'n', 'e'],
{
    let n = kind_name(m);
    assert(seq!['S', 't', 'r', 'i', 'n', 'g'][0] == 'S');
    assert(seq!['N', 'u', 'm', 'b', 'e', 'r'][0] == 'N');
    assert(seq!['B', 'o', 'o', 'l', 'e', 'a', 'n'][0] == 'B');
    assert(seq!['L', 'i', 's', 't'][0] == 'L');
    assert(seq!['D', 'i', 'c', 't'][0] == 'D');
    assert(seq!['T', 'u', 'p', 'l', 'e'][0] == 'T');
    assert(seq!['B', 'i', 'n', 'a', 'r', 'y'][0] == 'B');
    assert(seq!['N', 'o', 'n', 'e'][0] == 'N');
    assert(seq!['B', 'i', 'n', 'a', 'r', 'y'][1] == 'i');
    assert(seq!['B', 'o', 'o', 'l', 'e', 'a', 'n'][1] == 'o');
    assert(seq!['N', 'u', 'm', 'b', 'e', 'r'][1] == 'u');
    assert(seq!['N', 'o', 'n', 'e'][1] == 'o');
}

} // verus!

verus! {

use crate::number::sum_numer;
use crate::value::wpart;

/// The numerator a list element contributes to the exact rational sum.
pub open spec fn elem_numer(m: Val) -> int {
    match m {
        Val::Number(n) => numer(n),
        _ => 0,
    }
}

/// The denominator exponent a list element contributes.
pub open spec fn elem_scale(m: Val) -> nat {
    match m {
        Val::Number(n) => n.scale as nat,
        _ => 0,
    }
}

/// The numerator of the exact rational sum of a sequence's contributions,
/// over the denominator `10^rsum_s`.
pub open spec fn rsum_n(l: Seq<Val>) -> int
    decreases l,
{
    if l.len() == 0 {
        0
    } else {
        rsum_n(l.drop_last()) * pow10(elem_scale(l.last())) + elem_numer(l.last()) * pow10(
            rsum_s(l.drop_last()),
        )
    }
}

/// The denominator exponent of the exact rational sum.
pub open spec fn rsum_s(l: Seq<Val>) -> nat
    decreases l,
{
    if l.len() == 0 {
        0
    } else {
        rsum_s(l.drop_last()) + elem_scale(l.last())
    }
}

proof fn lemma_cross_sum(na: int, nb: int, qa: int, qb: int, pa: int, pb: int, ps: int)
    requires
        qa * pa == ps,
        qb * pb == ps,
    ensures
        (na * qa + nb * qb) * (pa * pb) == (na * pb + nb * pa) * ps,
{
    assert((na * qa + nb * qb) * (pa * pb) == (na * qa) * (pa * pb) + (nb * qb) * (pa * pb))
        by (nonlinear_arith);
    assert((na * qa) * (pa * pb) == (na * pb) * (qa * pa)) by (nonlinear_arith);
    assert((nb * qb) * (pa * pb) == (nb * pa) * (qb * pb)) by (nonlinear_arith);
    assert((na * pb) * ps + (nb * pa) * ps == (na * pb + nb * pa) * ps) by (nonlinear_arith);
}

proof fn lemma_regroup(n2: int, nc: int, pa: int, pc: int, p2: int, pw: int)
    ensures
        (n2 * pa * pc + nc * pa * p2) * pw == (n2 * pc + nc * p2) * pw * pa,
{
    assert(n2 * pa * pc == (n2 * pc) * pa) by (nonlinear_arith);
    assert(nc * pa * p2 == (nc * p2) * pa) by (nonlinear_arith);
    assert(((n2 * pc) * pa + (nc * p2) * pa) * pw == ((n2 * pc + nc * p2) * pa) * pw)
        by (nonlinear_arith);
    assert(((n2 * pc + nc * p2) * pa) * pw == (n2 * pc + nc * p2) * pw * pa)
        by (nonlinear_arith);
}

proof fn lemma_spec_add_exact(a: Num, b: Num)
    requires
        spec_add(a, b) is Some,
    ensures
        (match spec_add(a, b) {
            Some(c) => numer(c) * (pow10(a.scale as nat) * pow10(b.scale as nat)) == (numer(a)
                * pow10(b.scale as nat) + numer(b) * pow10(a.scale as nat)) * pow10(
                c.scale as nat,
            ),
            None => false,
        }),
{
    let sa = a.scale as nat;
    let sb = b.scale as nat;
    let s = if a.scale >= b.scale {
        sa
    } else {
        sb
    };
    let v = sum_numer(a, b);
    let c = (match spec_add(a, b) {
        Some(c) => c,
        None => Num { neg: false, mant: 0, scale: 0 },
    });
    assert(numer(c) == v);
    assert(c.scale as nat == s);
    lemma_pow10_pos(sa);
    lemma_pow10_pos(sb);
    lemma_pow10_add((s - sa) as nat, sa);
    lemma_pow10_add((s - sb) as nat, sb);
    let pa = pow10(sa);
    let pb = pow10(sb);
    let ps = pow10(s);
    let qa = pow10((s - sa) as nat);
    let qb = pow10((s - sb) as nat);
    assert(qa * pa == ps);
    assert(qb * pb == ps);
    assert(v == numer(a) * qa + numer(b) * qb);
    lemma_cross_sum(numer(a), numer(b), qa, qb, pa, pb, ps);
}

proof fn lemma_mul_cancel(x: int, y: int, q: int)
    requires
        x * q == y * q,
        q >= 1,
    ensures
        x == y,
{
    assert(x == y) by (nonlinear_arith)
        requires
            x * q == y * q,
            q >= 1,
    ;
}

/// Weight homomorphism and sentinel suppression: over a sequence whose
/// elements are numbers or weightless leaves, a composite's weight, when
/// defined, is exactly the rational sum of the numbers' values; weightless
/// elements contribute nothing.
pub proof fn lemma_weight_homomorphism(l: Seq<Val>)
    requires
        forall|i: int|
            0 <= i < l.len() ==> ((#[trigger] l[i]) matches Val::Number(_) || spec_weight(l[i])
                is None),
        wsum(l) is Some,
    ensures
        (match wsum(l) {
            Some(w) => numer(w) * pow10(rsum_s(l)) == rsum_n(l) * pow10(w.scale as nat),
            None => false,
        }),
    decreases l.len(),
{
    crate::number::lemma_pow10_zero();
    if l.len() == 0 {
    } else {
        let l2 = l.drop_last();
        assert(forall|i: int| 0 <= i < l2.len() ==> l2[i] == l[i]);
        assert(wsum(l2) is Some);
        lemma_weight_homomorphism(l2);
        let acc = (match wsum(l2) {
            Some(a) => a,
            None => Num { neg: false, mant: 0, scale: 0 },
        });
        let c = wpart(spec_weight(l.last()));
        assert(l[l.len() - 1] == l.last());
        assert(numer(c) == elem_numer(l.last()) && c.scale as nat == elem_scale(l.last()));
        let w = (match wsum(l) {
            Some(w) => w,
            None => Num { neg: false, mant: 0, scale: 0 },
        });
        assert(wsum(l) == spec_add(acc, c));
        lemma_spec_add_exact(acc, c);
        let sacc = acc.scale as nat;
        let sc = c.scale as nat;
        let sw = w.scale as nat;
        let s2 = rsum_s(l2);
        let n2 = rsum_n(l2);
        lemma_pow10_pos(sacc);
        lemma_pow10_pos(sc);
        lemma_pow10_pos(s2);
        lemma_pow10_add(s2, sc);
        // scale the addition identity by the accumulated denominator and
        // rewrite the accumulator's numerator through the induction
        // hypothesis
        assert(numer(w) * (pow10(sacc) * pow10(sc)) * pow10(s2) == (numer(acc) * pow10(sc)
            + numer(c) * pow10(sacc)) * pow10(sw) * pow10(s2)) by (nonlinear_arith)
            requires
                numer(w) * (pow10(sacc) * pow10(sc)) == (numer(acc) * pow10(sc) + numer(c)
                    * pow10(sacc)) * pow10(sw),
        ;
        assert((numer(acc) * pow10(sc) + numer(c) * pow10(sacc)) * pow10(sw) * pow10(s2) == (
        numer(acc) * pow10(s2) * pow10(sc) + numer(c) * pow10(sacc) * pow10(s2)) * pow10(sw))
            by (nonlinear_arith);
        assert(numer(acc) * pow10(s2) * pow10(sc) == n2 * pow10(sacc) * pow10(sc))
            by (nonlinear_arith)
            requires
                numer(acc) * pow10(s2) == n2 * pow10(sacc),
        ;
        lemma_regroup(n2, numer(c), pow10(sacc), pow10(sc), pow10(s2), pow10(sw));
        assert(numer(w) * (pow10(sacc) * pow10(sc)) * pow10(s2) == numer(w) * (pow10(sc)
            * pow10(s2)) * pow10(sacc)) by (nonlinear_arith);
        lemma_mul_cancel(
            numer(w) * (pow10(sc) * pow10(s2)),
            (n2 * pow10(sc) + numer(c) * pow10(s2)) * pow10(sw),
            pow10(sacc),
        );
        assert(rsum_n(l) == n2 * pow10(sc) + numer(c) * pow10(s2));
        assert(rsum_s(l) == s2 + sc);
        assert(numer(w) * (pow10(sc) * pow10(s2)) == numer(w) * pow10(s2 + sc))
            by (nonlinear_arith)
            requires
                pow10(s2) * pow10(sc) == pow10(s2 + sc),
        ;
    }
}

/// Sentinel suppression, the pure case: a composite of weightless elements
/// weighs exactly zero.
pub proof fn lemma_sentinel_suppression(l: Seq<Val>)
    requires
        forall|i: int| 0 <= i < l.len() ==> spec_weight(#[trigger] l[i]) is None,
    ensures
        (match wsum(l) {
            Some(w) => numer(w) == 0,
            None => false,
        }),
    decreases l.len(),
{
    if l.len() == 0 {
    } else {
        let l2 = l.drop_last();
        assert(forall|i: int| 0 <= i < l2.len() ==> l2[i] == l[i]);
        lemma_sentinel_suppression(l2);
        let acc = (match wsum(l2) {
            Some(a) => a,
            None => Num { neg: false, mant: 0, scale: 0 },
        });
        assert(l[l.len() - 1] == l.last());
        let c = wpart(spec_weight(l.last()));
        assert(numer(c) == 0);
        let s = if acc.scale >= c.scale {
            acc.scale
        } else {
            c.scale
        };
        assert(numer(acc) * pow10((s - acc.scale) as nat) == 0) by (nonlinear_arith)
            requires
                numer(acc) == 0,
        ;
        assert(numer(c) * pow10((s - c.scale) as nat) == 0) by (nonlinear_arith)
            requires
                numer(c) == 0,
        ;
        assert(sum_numer(acc, c) == 0);
    }
}

} // verus!

verus! {

use crate::number::{dec_str, digit_char, num_text, zeros};
use crate::parser::{
    digit_run, digit_val, digits_val, is_digit, is_ws, lemma_digits_val_split, mk_num,
    skip_ws, sp_bool, sp_number, sp_number_exp,
};

/// A character that may legally follow a printed value: the end of the
/// text or a delimiter of the grammar.
pub open spec fn stopper(s: Seq<char>, e: nat) -> bool {
    e == s.len() || (e < s.len() && (s[e as int] == ',' || s[e as int] == ']' || s[e as int]
        == ')' || s[e as int] == '}'))
}

proof fn lemma_dec_str_digits(v: nat)
    ensures
        dec_str(v).len() >= 1,
        forall|i: int| 0 <= i < dec_str(v).len() ==> is_digit(#[trigger] dec_str(v)[i]),
    decreases v,
{
    if v < 10 {
        assert(is_digit(digit_char(v)));
    } else {
        lemma_dec_str_digits(v / 10);
        assert(is_digit(digit_char(v % 10)));
        assert(forall|i: int|
            0 <= i < dec_str(v).len() - 1 ==> #[trigger] dec_str(v)[i] == dec_str(v / 10)[i]);
        assert(dec_str(v)[dec_str(v).len() - 1] == digit_char(v % 10));
    }
}

proof fn lemma_zeros_digits(k: nat)
    ensures
        zeros(k).len() == k,
        forall|i: int| 0 <= i < k ==> #[trigger] zeros(k)[i] == '0',
    decreases k,
{
    if k > 0 {
        lemma_zeros_digits((k - 1) as nat);
        assert(forall|i: int| 0 <= i < k - 1 ==> #[trigger] zeros(k)[i] == zeros((k - 1) as nat)[i]);
    }
}

proof fn lemma_digit_run_exact(s: Seq<char>, a: nat, b: nat)
    requires
        a <= b <= s.len(),
        forall|i: int| a <= i < b ==> is_digit(#[trigger] s[i]),
        b == s.len() || !is_digit(s[b as int]),
    ensures
        digit_run(s, a) == b,
    decreases b - a,
{
    if a < b {
        lemma_digit_run_exact(s, a + 1, b);
    }
}

proof fn lemma_digit_round(v: nat)
    requires
        v < 10,
    ensures
        digit_val(digit_char(v)) == v,
{
}

proof fn lemma_dec_str_val(v: nat, s: Seq<char>, a: nat)
    requires
        a + dec_str(v).len() <= s.len(),
        s.subrange(a as int, (a + dec_str(v).len()) as int) == dec_str(v),
    ensures
        digits_val(s, a, (a + dec_str(v).len()) as nat) == v,
    decreases v,
{
    let n = dec_str(v).len();
    if v < 10 {
        assert(s[a as int] == dec_str(v)[0]);
        lemma_digit_round(v);
        assert(digits_val(s, a, a + 1) == digits_val(s, a, a) * 10 + digit_val(s[a as int]));
    } else {
        assert(dec_str(v) == dec_str(v / 10).push(digit_char(v % 10)));
        assert(s.subrange(a as int, (a + n - 1) as int) =~= dec_str(v / 10));
        lemma_dec_str_val(v / 10, s, a);
        assert(s[a + n - 1] == dec_str(v)[n - 1]);
        assert(dec_str(v)[n - 1] == digit_char(v % 10));
        lemma_digit_round(v % 10);
        assert(digits_val(s, a, (a + n) as nat) == digits_val(s, a, (a + n - 1) as nat) * 10
            + digit_val(s[a + n - 1]));
    }
}

proof fn lemma_zeros_val(k: nat, s: Seq<char>, a: nat)
    requires
        a + k <= s.len(),
        forall|i: int| a <= i < a + k ==> #[trigger] s[i] == '0',
    ensures
        digits_val(s, a, (a + k) as nat) == 0,
    decreases k,
{
    if k > 0 {
        lemma_zeros_val((k - 1) as nat, s, a);
        assert(s[a + k - 1] == '0');
    }
}

/// A printed decimal parses back to exactly the same decimal when a
/// delimiter or the end of the text follows it.
#[verifier::rlimit(100)]
proof fn lemma_number_round_trip(n: Num, s: Seq<char>, i: nat)
    requires
        i + num_text(n).len() <= s.len(),
        s.subrange(i as int, (i + num_text(n).len()) as int) == num_text(n),
        stopper(s, (i + num_text(n).len()) as nat),
    ensures
        sp_number(s, i) == Some((n, (i + num_text(n).len()) as nat)),
{
    if n.scale == 0 {
        lemma_number_rt_whole(n, s, i);
    } else if dec_str(n.mant as nat).len() > n.scale as nat {
        lemma_number_rt_point(n, s, i);
    } else {
        lemma_number_rt_padded(n, s, i);
    }
}

#[verifier::rlimit(100)]
proof fn lemma_number_rt_whole(n: Num, s: Seq<char>, i: nat)
    requires
        n.scale == 0,
        i + num_text(n).len() <= s.len(),
        s.subrange(i as int, (i + num_text(n).len()) as int) == num_text(n),
        stopper(s, (i + num_text(n).len()) as nat),
    ensures
        sp_number(s, i) == Some((n, (i + num_text(n).len()) as nat)),
{
    crate::number::lemma_pow10_zero();
    let t = num_text(n);
    let e = (i + t.len()) as nat;
    let d = dec_str(n.mant as nat);
    lemma_dec_str_digits(n.mant as nat);
    let i1: nat = if n.neg {
        i + 1
    } else {
        i
    };
    if n.neg {
        assert(s[i as int] == t[0]);
        assert(t[0] == '-');
    }
    assert(!is_digit(','));
    assert(!is_digit(']'));
    assert(!is_digit(')'));
    assert(!is_digit('}'));
    assert forall|q: int| i1 <= q < e implies #[trigger] s[q] == d[q - i1] && is_digit(
        s[q],
    ) by {
        assert(s[q] == t[q - i]);
        assert(t[q - i] == d[q - i1]);
    }
    lemma_digit_run_exact(s, i1, e);
    assert(s.subrange(i1 as int, (i1 + d.len()) as int) =~= d);
    lemma_dec_str_val(n.mant as nat, s, i1);
    assert(digits_val(s, i1, e) == n.mant);
    assert(sp_number_exp(s, n.neg, n.mant as nat, e, e) == mk_num(
        n.neg,
        (n.mant as nat * crate::number::pow10(0) + 0) as nat,
        0,
        e,
    ));
    assert(n.mant as nat * crate::number::pow10(0) == n.mant as nat) by (nonlinear_arith)
        requires
            crate::number::pow10(0) == 1,
    ;
    assert(mk_num(n.neg, n.mant as nat, 0, e) == Some((n, e)));
}

#[verifier::rlimit(100)]
proof fn lemma_number_rt_point(n: Num, s: Seq<char>, i: nat)
    requires
        n.scale > 0,
        dec_str(n.mant as nat).len() > n.scale as nat,
        i + num_text(n).len() <= s.len(),
        s.subrange(i as int, (i + num_text(n).len()) as int) == num_text(n),
        stopper(s, (i + num_text(n).len()) as nat),
    ensures
        sp_number(s, i) == Some((n, (i + num_text(n).len()) as nat)),
{
    crate::number::lemma_pow10_zero();
    let t = num_text(n);
    let e = (i + t.len()) as nat;
    let d = dec_str(n.mant as nat);
    lemma_dec_str_digits(n.mant as nat);
    let i1: nat = if n.neg {
        i + 1
    } else {
        i
    };
    if n.neg {
        assert(s[i as int] == t[0]);
        assert(t[0] == '-');
    }
    assert(!is_digit(','));
    assert(!is_digit(']'));
    assert(!is_digit(')'));
    assert(!is_digit('}'));
    let hl = (d.len() - n.scale as nat) as nat;
    let dot = (i1 + hl) as nat;
    let f1 = (dot + 1) as nat;
    assert forall|q: int| i1 <= q < dot implies #[trigger] s[q] == d[q - i1] && is_digit(
        s[q],
    ) by {
        assert(s[q] == t[q - i]);
        assert(t[q - i] == d.take(hl as int)[q - i1]);
    }
    assert(s[dot as int] == t[dot - i]);
    assert(t[dot - i] == '.');
    assert(!is_digit('.'));
    lemma_digit_run_exact(s, i1, dot);
    assert forall|q: int| f1 <= q < e implies #[trigger] s[q] == d[q - f1 + hl] && is_digit(
        s[q],
    ) by {
        assert(s[q] == t[q - i]);
        assert(t[q - i] == d.skip(hl as int)[q - f1]);
    }
    lemma_digit_run_exact(s, f1, e);
    // the two digit ranges rebuild the mantissa
    let glued = s.subrange(i1 as int, dot as int) + s.subrange(f1 as int, e as int);
    assert(glued =~= d);
    assert(glued.subrange(0, d.len() as int) =~= d);
    lemma_dec_str_val(n.mant as nat, glued, 0);
    lemma_digits_val_split(glued, 0, hl, d.len());
    assert(digits_val(glued, 0, d.len()) == n.mant);
    assert forall|q: int| 0 <= q < hl implies #[trigger] glued[q] == s[q + i1] by {}
    lemma_digits_val_shift(glued, 0, hl, s, i1);
    assert forall|q: int| hl <= q < d.len() implies #[trigger] glued[q] == s[
        q + (f1 - hl)
    ] by {}
    lemma_digits_val_shift(glued, hl, d.len() as nat, s, (f1 - hl) as nat);
    assert(digits_val(s, i1, dot) == digits_val(glued, 0, hl));
    assert(digits_val(s, f1, e) == digits_val(glued, hl, d.len() as nat));
    assert(digits_val(s, i1, dot) * crate::number::pow10(n.scale as nat) + digits_val(
        s,
        f1,
        e,
    ) == n.mant);
    assert(sp_number(s, i) == sp_number_exp(s, n.neg, digits_val(s, i1, dot), f1, e));
    assert(mk_num(n.neg, n.mant as nat, n.scale as int, e) == Some((n, e)));
}

#[verifier::rlimit(100)]
proof fn lemma_number_rt_padded(n: Num, s: Seq<char>, i: nat)
    requires
        n.scale > 0,
        dec_str(n.mant as nat).len() <= n.scale as nat,
        i + num_text(n).len() <= s.len(),
        s.subrange(i as int, (i + num_text(n).len()) as int) == num_text(n),
        stopper(s, (i + num_text(n).len()) as nat),
    ensures
        sp_number(s, i) == Some((n, (i + num_text(n).len()) as nat)),
{
    crate::number::lemma_pow10_zero();
    let t = num_text(n);
    let e = (i + t.len()) as nat;
    let d = dec_str(n.mant as nat);
    lemma_dec_str_digits(n.mant as nat);
    let i1: nat = if n.neg {
        i + 1
    } else {
        i
    };
    if n.neg {
        assert(s[i as int] == t[0]);
        assert(t[0] == '-');
    }
    assert(!is_digit(','));
    assert(!is_digit(']'));
    assert(!is_digit(')'));
    assert(!is_digit('}'));
    let pad = (n.scale as nat - d.len()) as nat;
    let f1 = (i1 + 2) as nat;
    assert(s[i1 as int] == t[i1 - i]);
    assert(t[i1 - i] == '0');
    assert(s[i1 as int + 1] == t[i1 as int + 1 - i]);
    assert(t[i1 as int + 1 - i] == '.');
    assert(is_digit('0'));
    assert(!is_digit('.'));
    lemma_digit_run_exact(s, i1, i1 + 1);
    lemma_zeros_digits(pad);
    assert forall|q: int| f1 <= q < f1 + pad implies #[trigger] s[q] == '0' by {
        assert(s[q] == t[q - i]);
        assert(t[q - i] == zeros(pad)[q - f1]);
    }
    assert forall|q: int| f1 + pad <= q < e implies #[trigger] s[q] == d[q - f1 - pad]
        && is_digit(s[q]) by {
        assert(s[q] == t[q - i]);
        assert(t[q - i] == d[q - f1 - pad]);
    }
    assert(forall|q: int| f1 <= q < e ==> is_digit(#[trigger] s[q]));
    lemma_digit_run_exact(s, f1, e);
    // the fraction's value: leading zeros contribute nothing
    lemma_zeros_val(pad, s, f1);
    lemma_digits_val_split(s, f1, (f1 + pad) as nat, e);
    assert(s.subrange((f1 + pad) as int, e as int) =~= d);
    lemma_dec_str_val(n.mant as nat, s, (f1 + pad) as nat);
    assert(digits_val(s, f1, e) == 0 * crate::number::pow10((e - f1 - pad) as nat)
        + digits_val(s, (f1 + pad) as nat, e));
    assert(0 * crate::number::pow10((e - f1 - pad) as nat) == 0) by (nonlinear_arith);
    // the integer part is the single zero digit
    assert(digits_val(s, i1, i1 + 1) == digits_val(s, i1, i1) * 10 + digit_val(
        s[i1 as int],
    ));
    assert(digit_val('0') == 0);
    assert(sp_number(s, i) == sp_number_exp(s, n.neg, 0, f1, e));
    assert((0 * crate::number::pow10(n.scale as nat) + n.mant as nat) as nat
        == n.mant as nat) by (nonlinear_arith);
    assert(mk_num(n.neg, n.mant as nat, n.scale as int, e) == Some((n, e)));
}

/// Equal digit ranges evaluate equally wherever they sit.
proof fn lemma_digits_val_shift(g: Seq<char>, a: nat, b: nat, s: Seq<char>, off: nat)
    requires
        a <= b <= g.len(),
        off + b <= s.len(),
        forall|q: int| a <= q < b ==> #[trigger] g[q] == s[q + off],
    ensures
        digits_val(g, a, b) == digits_val(s, (off + a) as nat, (off + b) as nat),
    decreases b - a,
{
    if a < b {
        lemma_digits_val_shift(g, a, (b - 1) as nat, s, off);
        assert(g[b - 1] == s[b - 1 + off]);
    }
}

} // verus!

verus! {

use crate::parser::{sp_list, sp_list_rest, sp_tup};
use crate::value::{print_items, print_val};

/// The values the parse–print round trip is stated for: numbers, booleans,
/// lists and tuples of the same.
pub open spec fn simple(m: Val) -> bool
    decreases m,
{
    match m {
        Val::Number(_) => true,
        Val::Bool(_) => true,
        Val::List(l) => forall|i: int|
            0 <= i < l.len() ==> simple(#[trigger] l[i]),
        Val::Tup(p) => p.len() == 2 && simple(p[0]) && simple(p[1]),
        _ => false,
    }
}

/// The text of a list's remaining elements from `k` on, commas included,
/// with the closing bracket.
pub open spec fn print_tail(full: Seq<Val>, k: nat) -> Seq<char>
    decreases full.len() - k when k <= full.len()
{
    if k >= full.len() {
        seq![']']
    } else {
        seq![','] + print_val(full[k as int]) + print_tail(full, k + 1)
    }
}

proof fn lemma_items_vs_tail(full: Seq<Val>, k: nat)
    requires
        1 <= k <= full.len(),
    ensures
        print_items(full) + seq![']'] == print_items(full.take(k as int)) + print_tail(full, k),
    decreases full.len() - k,
{
    if k == full.len() {
        assert(full.take(k as int) =~= full);
    } else {
        lemma_items_vs_tail(full, k + 1);
        let t = full.take(k as int + 1);
        assert(t.drop_last() =~= full.take(k as int));
        assert(t.last() == full[k as int]);
        assert(t.len() == k + 1);
        assert(print_items(t) == print_items(full.take(k as int)) + seq![','] + print_val(
            full[k as int],
        ));
        assert(print_items(full.take(k as int)) + print_tail(full, k) == print_items(t)
            + print_tail(full, k + 1)) by {
            assert(print_tail(full, k) == seq![','] + print_val(full[k as int]) + print_tail(
                full,
                k + 1,
            ));
            assert(print_items(full.take(k as int)) + (seq![','] + print_val(full[k as int])
                + print_tail(full, k + 1)) =~= (print_items(full.take(k as int)) + seq![',']
                + print_val(full[k as int])) + print_tail(full, k + 1));
        }
    }
}

/// A slice of a matched region matches the region's slice.
proof fn lemma_subrange_slice(s: Seq<char>, i: nat, t: Seq<char>, a: int, b: int)
    requires
        i + t.len() <= s.len(),
        s.subrange(i as int, (i + t.len()) as int) == t,
        0 <= a <= b <= t.len(),
    ensures
        s.subrange(i + a, i + b) == t.subrange(a, b),
        forall|q: int| a <= q < b ==> #[trigger] s[i + q] == t[q],
{
    assert forall|q: int| a <= q < b implies #[trigger] s[i + q] == t[q] by {
        assert(t[q] == s.subrange(i as int, (i + t.len()) as int)[q]);
    }
    assert(s.subrange(i + a, i + b) =~= t.subrange(a, b));
}

/// The parse–print round trip, at a position inside a larger text: the
/// canonical text of a simple value, followed by a delimiter or the end,
/// parses back to exactly that value.
#[verifier::rlimit(100)]
proof fn lemma_parse_print_at(m: Val, s: Seq<char>, i: nat)
    requires
        simple(m),
        i + print_val(m).len() <= s.len(),
        s.subrange(i as int, (i + print_val(m).len()) as int) == print_val(m),
        stopper(s, (i + print_val(m).len()) as nat),
    ensures
        sp_value(s, i) == Some((m, (i + print_val(m).len()) as nat)),
    decreases print_val(m).len(), 1nat,
{
    let t = print_val(m);
    let e = (i + t.len()) as nat;
    assert(s[i as int] == t[0]);
    assert(!is_ws(t[0]) && skip_ws(s, i) == i) by {
        match m {
            Val::Number(n) => {
                lemma_dec_str_digits(n.mant as nat);
            },
            _ => {},
        }
    }
    assert(!is_ws(',') && !is_ws(']') && !is_ws(')') && !is_ws('}'));
    match m {
        Val::Number(n) => {
            lemma_dec_str_digits(n.mant as nat);
            lemma_number_round_trip(n, s, i);
            assert(skip_ws(s, e) == e);
        },
        Val::Bool(b) => {
            if b {
                assert(s[i as int + 1] == t[1]);
                assert(s[i as int + 2] == t[2]);
                assert(s[i as int + 3] == t[3]);
                assert(sp_bool(s, i) == Some((true, (i + 4) as nat)));
            } else {
                assert(s[i as int + 1] == t[1]);
                assert(s[i as int + 2] == t[2]);
                assert(s[i as int + 3] == t[3]);
                assert(s[i as int + 4] == t[4]);
                assert(sp_bool(s, i) == Some((false, (i + 5) as nat)));
            }
            assert(skip_ws(s, e) == e);
        },
        Val::List(l) => {
            lemma_parse_print_list(m, s, i);
        },
        Val::Tup(p) => {
            lemma_parse_print_tup(m, s, i);
        },
        _ => {},
    }
}

#[verifier::rlimit(100)]
proof fn lemma_parse_print_list(m: Val, s: Seq<char>, i: nat)
    requires
        simple(m),
        m matches Val::List(_),
        i + print_val(m).len() <= s.len(),
        s.subrange(i as int, (i + print_val(m).len()) as int) == print_val(m),
        stopper(s, (i + print_val(m).len()) as nat),
        skip_ws(s, i) == i,
    ensures
        sp_value(s, i) == Some((m, (i + print_val(m).len()) as nat)),
    decreases print_val(m).len(), 0nat,
{
    let t = print_val(m);
    let e = (i + t.len()) as nat;
    let l = (match m {
        Val::List(l) => l,
        _ => Seq::empty(),
    });
    assert(s[i as int] == t[0]);
    assert(!is_ws(',') && !is_ws(']') && !is_ws(')') && !is_ws('}'));
    {
            assert(t == seq!['['] + print_items(l) + seq![']']);
            if l.len() == 0 {
                assert(print_items(l) == Seq::<char>::empty());
                assert(t =~= seq!['[', ']']);
                assert(s[i as int + 1] == ']');
                assert(skip_ws(s, i + 1) == i + 1);
                assert(sp_value(s, i + 1) is None);
                assert(l =~= Seq::<Val>::empty());
                assert(sp_list(s, i) == Some((Val::List(Seq::<Val>::empty()), (i + 2) as nat)));
                assert(Val::List(l) == m);
                assert(sp_list(s, i) == Some((m, e)));
                assert(skip_ws(s, e) == e);
                assert(!is_digit('['));
                assert(sp_value(s, i) == Some((m, e)));
            } else {
                lemma_items_vs_tail(l, 1);
                let e0 = l[0];
                let t0 = print_val(e0);
                assert(print_items(l) + seq![']'] == print_items(l.take(1)) + print_tail(l, 1));
                assert(l.take(1) =~= seq![e0]);
                assert(print_items(l.take(1)) == t0);
                // the whole text after '[' is t0 + tail
                let tail = print_tail(l, 1);
                assert(print_items(l) + seq![']'] == t0 + tail);
                assert(t.len() == 1 + t0.len() + tail.len());
                assert forall|q: int| 0 <= q < t.len() implies t[q] == (seq!['['] + t0
                    + tail)[q] by {
                    if q > 0 {
                        assert(t[q] == (print_items(l) + seq![']'])[q - 1]);
                        assert((print_items(l) + seq![']'])[q - 1] == (t0 + tail)[q - 1]);
                    }
                }
                assert(t =~= seq!['['] + t0 + tail);
                lemma_subrange_slice(s, i, t, 1, 1 + t0.len() as int);
                assert(t.subrange(1, 1 + t0.len() as int) =~= t0);
                assert(s.subrange(i as int + 1, (i + 1 + t0.len()) as int) == t0);
                lemma_tail_first(l, 1);
                lemma_subrange_slice(s, i, t, 1 + t0.len() as int, t.len() as int);
                assert(s[(i + 1 + t0.len()) as int] == t[(1 + t0.len()) as int]);
                assert(t[(1 + t0.len()) as int] == tail[0]);
                assert(stopper(s, (i + 1 + t0.len()) as nat));
                lemma_parse_print_at(e0, s, (i + 1) as nat);
                assert(sp_value(s, i + 1) == Some((e0, (i + 1 + t0.len()) as nat)));
                assert(seq![e0] =~= l.take(1));
                assert(t.subrange(1 + t0.len() as int, t.len() as int) =~= tail);
                assert(s.subrange((i + 1 + t0.len()) as int, (i + 1 + t0.len()
                    + tail.len()) as int) == tail);
                lemma_parse_print_tail(l, 1, s, (i + 1 + t0.len()) as nat);
                assert(sp_list_rest(s, (i + 1 + t0.len()) as nat, l.take(1)) == Some(
                    (Val::List(l), (i + 1 + t0.len() + tail.len()) as nat),
                ));
                assert(i + 1 + t0.len() + tail.len() == e);
                assert(Val::List(l) == m);
                assert(sp_list(s, i) == Some((m, e)));
                assert(skip_ws(s, e) == e);
                assert(!is_digit('['));
                assert(sp_value(s, i) == Some((m, e)));
            }
    }
}

#[verifier::rlimit(100)]
proof fn lemma_parse_print_tup(m: Val, s: Seq<char>, i: nat)
    requires
        simple(m),
        m matches Val::Tup(_),
        i + print_val(m).len() <= s.len(),
        s.subrange(i as int, (i + print_val(m).len()) as int) == print_val(m),
        stopper(s, (i + print_val(m).len()) as nat),
        skip_ws(s, i) == i,
    ensures
        sp_value(s, i) == Some((m, (i + print_val(m).len()) as nat)),
    decreases print_val(m).len(), 0nat,
{
    let t = print_val(m);
    let e = (i + t.len()) as nat;
    let p = (match m {
        Val::Tup(p) => p,
        _ => Seq::empty(),
    });
    assert(s[i as int] == t[0]);
    assert(!is_ws(',') && !is_ws(']') && !is_ws(')') && !is_ws('}'));
    {
            let a = p[0];
            let b = p[1];
            let ta = print_val(a);
            let tb = print_val(b);
            assert(t == seq!['('] + ta + seq![','] + tb + seq![')']);
            lemma_subrange_slice(s, i, t, 1, 1 + ta.len() as int);
            assert(t.subrange(1, 1 + ta.len() as int) =~= ta);
            assert(s.subrange(i as int + 1, (i + 1 + ta.len()) as int) == ta);
            lemma_subrange_slice(s, i, t, 1 + ta.len() as int, t.len() as int);
            assert(s[(i + 1 + ta.len()) as int] == t[(1 + ta.len()) as int]);
            assert(t[(1 + ta.len()) as int] == ',');
            assert(stopper(s, (i + 1 + ta.len()) as nat));
            lemma_parse_print_at(a, s, (i + 1) as nat);
            let c1 = (i + 1 + ta.len()) as nat;
            lemma_subrange_slice(s, i, t, (c1 + 1 - i) as int, (c1 + 1 - i) as int + tb.len() as int);
            assert(t.subrange((c1 + 1 - i) as int, (c1 + 1 - i) as int + tb.len() as int) =~= tb);
            assert(s.subrange(c1 as int + 1, (c1 + 1 + tb.len()) as int) == tb);
            assert(s[(c1 + 1 + tb.len()) as int] == t[(c1 + 1 + tb.len() - i) as int]);
            assert(t[(c1 + 1 + tb.len() - i) as int] == ')');
            assert(stopper(s, (c1 + 1 + tb.len()) as nat));
            lemma_parse_print_at(b, s, (c1 + 1) as nat);
            assert(sp_tup(s, i) == Some((Val::Tup(seq![a, b]), e)));
            assert(seq![a, b] =~= p);
            assert(skip_ws(s, e) == e);
    }
}

/// The first character of a remaining-elements text is a comma or the
/// closing bracket.
proof fn lemma_tail_first(full: Seq<Val>, k: nat)
    requires
        k <= full.len(),
    ensures
        print_tail(full, k).len() >= 1,
        print_tail(full, k)[0] == ',' || print_tail(full, k)[0] == ']',
{
}

/// Parsing the remaining elements of a printed list yields the whole list.
#[verifier::rlimit(100)]
proof fn lemma_parse_print_tail(full: Seq<Val>, k: nat, s: Seq<char>, i: nat)
    requires
        forall|j: int| 0 <= j < full.len() ==> simple(#[trigger] full[j]),
        1 <= k <= full.len(),
        i + print_tail(full, k).len() <= s.len(),
        s.subrange(i as int, (i + print_tail(full, k).len()) as int) == print_tail(full, k),
        stopper(s, (i + print_tail(full, k).len()) as nat),
    ensures
        sp_list_rest(s, i, full.take(k as int)) == Some(
            (Val::List(full), (i + print_tail(full, k).len()) as nat),
        ),
    decreases print_tail(full, k).len(),
{
    let t = print_tail(full, k);
    let e = (i + t.len()) as nat;
    if k == full.len() {
        assert(s[i as int] == t[0]);
        assert(t[0] == ']');
        assert(full.take(k as int) =~= full);
    } else {
        let el = full[k as int];
        let tk = print_val(el);
        let rest = print_tail(full, k + 1);
        assert(t == seq![','] + tk + rest);
        assert(s[i as int] == t[0]);
        assert(t[0] == ',');
        lemma_subrange_slice(s, i, t, 1, 1 + tk.len() as int);
        assert(t.subrange(1, 1 + tk.len() as int) =~= tk);
        assert(s.subrange(i as int + 1, (i + 1 + tk.len()) as int) == tk);
        lemma_tail_first(full, k + 1);
        lemma_subrange_slice(s, i, t, 1 + tk.len() as int, t.len() as int);
        assert(t.subrange(1 + tk.len() as int, t.len() as int) =~= rest);
        assert(s[(i + 1 + tk.len()) as int] == t[(1 + tk.len()) as int]);
        assert(t[(1 + tk.len()) as int] == rest[0]);
        assert(stopper(s, (i + 1 + tk.len()) as nat));
        lemma_parse_print_at(el, s, (i + 1) as nat);
        assert(s.subrange((i + 1 + tk.len()) as int, (i + 1 + tk.len() + rest.len()) as int)
            == rest);
        lemma_parse_print_tail(full, k + 1, s, (i + 1 + tk.len()) as nat);
        assert(full.take(k as int).push(el) =~= full.take(k as int + 1));
        assert(sp_list_rest(s, i, full.take(k as int)) == sp_list_rest(
            s,
            (i + 1 + tk.len()) as nat,
            full.take(k as int + 1),
        ));
    }
}

/// Parse–print round trip: a value built from numbers, booleans, lists and
/// tuples is parsed back exactly from its canonical text, both by the raw
/// parser and at the document level.
pub proof fn lemma_parse_print_round_trip(m: Val)
    requires
        simple(m),
    ensures
        sp_value(print_val(m), 0) == Some((m, print_val(m).len() as nat)),
        doc_model(print_val(m)) == m,
{
    let t = print_val(m);
    assert(t.subrange(0, t.len() as int) =~= t);
    lemma_parse_print_at(m, t, 0);
    assert(t[0] != 'b') by {
        match m {
            Val::Number(n) => {
                lemma_dec_str_digits(n.mant as nat);
                assert(is_digit(t[0]) || t[0] == '-' || t[0] == '0');
            },
            _ => {},
        }
    }
    assert(!crate::parser::env_shape(t));
    assert(doc_text(t) == t);
}

/// Print idempotence on the same class: printing, parsing, and printing
/// again changes nothing.
pub proof fn lemma_print_idempotent(m: Val)
    requires
        simple(m),
    ensures
        (match sp_value(print_val(m), 0) {
            Some(p) => print_val(p.0) == print_val(m),
            None => false,
        }),
{
    lemma_parse_print_round_trip(m);
}

} // verus!
