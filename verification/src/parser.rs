//! The grammar and its recursive-descent parser.
//!
//! Every production is written twice: once as a spec function over a
//! character sequence and a position, and once as executable code whose
//! contract says it returns exactly what the spec function does. The
//! alternatives are ordered (number, boolean, string, list, dict, tuple,
//! binary), but their leading characters are disjoint, so the dispatch
//! reads the first character after the whitespace.

use vstd::prelude::*;
use crate::b64::b64_decode_of;
use crate::binary::{b64_ok, Binary};
use crate::number::{pow10, pow10_u64, lemma_pow10_pos, lemma_pow10_zero, lemma_pow10_mono,
    lemma_pow10_add, lemma_pow10_19_fits, lemma_pow10_20_large, Num};

verus! {

broadcast use vstd::std_specs::vec::group_vec_axioms;

/// The four whitespace characters the grammar skips.
pub open spec fn is_ws(c: char) -> bool {
    c == ' ' || c == '\t' || c == '\r' || c == '\n'
}

pub open spec fn is_digit(c: char) -> bool {
    '0' <= c && c <= '9'
}

pub open spec fn digit_val(c: char) -> nat {
    (c as u32 - '0' as u32) as nat
}

pub open spec fn is_alnum(c: char) -> bool {
    ('0' <= c && c <= '9') || ('a' <= c && c <= 'z') || ('A' <= c && c <= 'Z')
}

pub open spec fn is_hex_digit(c: char) -> bool {
    ('0' <= c && c <= '9') || ('a' <= c && c <= 'f') || ('A' <= c && c <= 'F')
}

/// A character a string body may hold bare: anything but a backslash, a
/// quote, or an ASCII control character.
pub open spec fn is_normal(c: char) -> bool {
    c != '\\' && c != '"' && !((c as u32) < 32 || c as u32 == 127)
}

/// The first position at or after `i` holding no whitespace.
pub open spec fn skip_ws(s: Seq<char>, i: nat) -> nat
    decreases s.len() - i when i <= s.len()
{
    if i < s.len() && is_ws(s[i as int]) {
        skip_ws(s, i + 1)
    } else {
        i
    }
}

pub proof fn lemma_skip_ws(s: Seq<char>, i: nat)
    requires
        i <= s.len(),
    ensures
        i <= skip_ws(s, i) <= s.len(),
    decreases s.len() - i,
{
    if i < s.len() && is_ws(s[i as int]) {
        lemma_skip_ws(s, i + 1);
    }
}

/// The end of the run of digits starting at `i`.
pub open spec fn digit_run(s: Seq<char>, i: nat) -> nat
    decreases s.len() - i when i <= s.len()
{
    if i < s.len() && is_digit(s[i as int]) {
        digit_run(s, i + 1)
    } else {
        i
    }
}

pub proof fn lemma_digit_run(s: Seq<char>, i: nat)
    requires
        i <= s.len(),
    ensures
        i <= digit_run(s, i) <= s.len(),
    decreases s.len() - i,
{
    if i < s.len() && is_digit(s[i as int]) {
        lemma_digit_run(s, i + 1);
    }
}

/// The end of the run of ASCII alphanumerics starting at `i`.
pub open spec fn alnum_run(s: Seq<char>, i: nat) -> nat
    decreases s.len() - i when i <= s.len()
{
    if i < s.len() && is_alnum(s[i as int]) {
        alnum_run(s, i + 1)
    } else {
        i
    }
}

pub proof fn lemma_alnum_run(s: Seq<char>, i: nat)
    requires
        i <= s.len(),
    ensures
        i <= alnum_run(s, i) <= s.len(),
    decreases s.len() - i,
{
    if i < s.len() && is_alnum(s[i as int]) {
        lemma_alnum_run(s, i + 1);
    }
}

/// The value of the digits `s[i..j)` read in base ten.
pub open spec fn digits_val(s: Seq<char>, i: nat, j: nat) -> nat
    decreases j - i when i <= j
{
    if i >= j {
        0
    } else {
        digits_val(s, i, (j - 1) as nat) * 10 + digit_val(s[j - 1])
    }
}

/// Reading more digits can only grow the value.
pub proof fn lemma_digits_val_mono(s: Seq<char>, i: nat, j: nat, k: nat)
    requires
        i <= j <= k,
    ensures
        digits_val(s, i, j) <= digits_val(s, i, k),
    decreases k - j,
{
    if j < k {
        lemma_digits_val_mono(s, i, j, (k - 1) as nat);
        assert(digits_val(s, i, k) == digits_val(s, i, (k - 1) as nat) * 10 + digit_val(
            s[k - 1],
        ));
        assert(digits_val(s, i, (k - 1) as nat) * 10 >= digits_val(s, i, (k - 1) as nat))
            by (nonlinear_arith);
    }
}

/// Splitting a digit run: the digits of `[i..k)` are the digits of `[i..j)`
/// shifted up by the length of `[j..k)`, plus the digits of `[j..k)`.
pub proof fn lemma_digits_val_split(s: Seq<char>, i: nat, j: nat, k: nat)
    requires
        i <= j <= k,
    ensures
        digits_val(s, i, k) == digits_val(s, i, j) * pow10((k - j) as nat) + digits_val(s, j, k),
    decreases k - j,
{
    if j == k {
        lemma_pow10_zero();
    } else {
        lemma_digits_val_split(s, i, j, (k - 1) as nat);
        lemma_pow10_add((k - 1 - j) as nat, 1);
        lemma_pow10_zero();
        let a = digits_val(s, i, j);
        let p = pow10((k - 1 - j) as nat);
        vstd::arithmetic::power::lemma_pow1(10);
        assert(pow10(1) == 10 * pow10(0));
        assert((a * p) * 10 == a * (p * 10)) by (nonlinear_arith);
        assert(a * (p * 10) == a * pow10((k - j) as nat));
        assert(digits_val(s, i, k) == digits_val(s, i, (k - 1) as nat) * 10 + digit_val(
            s[k - 1],
        ));
        assert((a * p + digits_val(s, j, (k - 1) as nat)) * 10 == (a * p) * 10 + digits_val(
            s,
            j,
            (k - 1) as nat,
        ) * 10) by (nonlinear_arith);
    }
}

/// Packs a parsed literal into a decimal: `mant0` is the combined digit
/// value, `net` the scale after the exponent is applied, `end` the position
/// after the literal. The literal is representable when a nonpositive net
/// scale can be folded into the mantissa without overflow, or a positive
/// one fits a `u32`.
pub open spec fn mk_num(neg: bool, mant0: nat, net: int, end: nat) -> Option<(Num, nat)> {
    if net <= 0 {
        if mant0 * pow10((-net) as nat) <= u64::MAX {
            Some(
                (
                    Num { neg, mant: (mant0 * pow10((-net) as nat)) as u64, scale: 0 },
                    end,
                ),
            )
        } else {
            None
        }
    } else {
        if net <= u32::MAX && mant0 <= u64::MAX {
            Some((Num { neg, mant: mant0 as u64, scale: net as u32 }, end))
        } else {
            None
        }
    }
}

/// The exponent part and the final number: the mantissa's digits have been
/// read, the fraction (possibly empty) spans `[f1..f2)`, and `ip` is the
/// integer part's value. A bare `e` with no digits fails the whole literal.
pub open spec fn sp_number_exp(s: Seq<char>, neg: bool, ip: nat, f1: nat, f2: nat) -> Option<
    (Num, nat),
> {
    let flen = (f2 - f1) as nat;
    let mant0 = (ip * pow10(flen) + digits_val(s, f1, f2)) as nat;
    if f2 < s.len() && (s[f2 as int] == 'e' || s[f2 as int] == 'E') {
        let has_sign = f2 + 1 < s.len() && (s[f2 as int + 1] == '-' || s[f2 as int + 1] == '+');
        let e1 = if has_sign {
            f2 + 2
        } else {
            f2 + 1
        };
        let e2 = digit_run(s, e1);
        if e2 > e1 {
            let eneg = has_sign && s[f2 as int + 1] == '-';
            let ev = digits_val(s, e1, e2) as int;
            let e = if eneg {
                -ev
            } else {
                ev
            };
            mk_num(neg, mant0, flen as int - e, e2)
        } else {
            None
        }
    } else {
        mk_num(neg, mant0, flen as int, f2)
    }
}

/// A number literal at `i`: optional sign, then either digits with an
/// optional fraction, or a bare fraction, then an optional exponent.
pub open spec fn sp_number(s: Seq<char>, i: nat) -> Option<(Num, nat)> {
    let has_sign = i < s.len() && (s[i as int] == '-' || s[i as int] == '+');
    let neg = has_sign && s[i as int] == '-';
    let i1 = if has_sign {
        i + 1
    } else {
        i
    };
    let i2 = digit_run(s, i1);
    if i2 > i1 {
        if i2 < s.len() && s[i2 as int] == '.' {
            let f2 = digit_run(s, i2 + 1);
            sp_number_exp(s, neg, digits_val(s, i1, i2), i2 + 1, f2)
        } else {
            sp_number_exp(s, neg, digits_val(s, i1, i2), i2, i2)
        }
    } else {
        if i1 < s.len() && s[i1 as int] == '.' {
            let f2 = digit_run(s, i1 + 1);
            if f2 > i1 + 1 {
                sp_number_exp(s, neg, 0, i1 + 1, f2)
            } else {
                None
            }
        } else {
            None
        }
    }
}

/// A boolean literal at `i`, case-insensitive.
pub open spec fn sp_bool(s: Seq<char>, i: nat) -> Option<(bool, nat)> {
    if i + 4 <= s.len() && (s[i as int] == 't' || s[i as int] == 'T') && (s[i as int + 1] == 'r'
        || s[i as int + 1] == 'R') && (s[i as int + 2] == 'u' || s[i as int + 2] == 'U') && (s[
        i as int + 3
    ] == 'e' || s[i as int + 3] == 'E') {
        Some((true, i + 4))
    } else if i + 5 <= s.len() && (s[i as int] == 'f' || s[i as int] == 'F') && (s[i as int + 1]
        == 'a' || s[i as int + 1] == 'A') && (s[i as int + 2] == 'l' || s[i as int + 2] == 'L')
        && (s[i as int + 3] == 's' || s[i as int + 3] == 'S') && (s[i as int + 4] == 'e' || s[
        i as int + 4
    ] == 'E') {
        Some((false, i + 5))
    } else {
        None
    }
}

/// The length of the escape following a backslash at `j - 1`: one for the
/// single-character escapes, five for `u` and four hex digits, zero when
/// the escape is malformed.
pub open spec fn esc_len(s: Seq<char>, j: nat) -> nat {
    if j < s.len() && (s[j as int] == '"' || s[j as int] == '\\' || s[j as int] == '/' || s[
        j as int
    ] == 'b' || s[j as int] == 'f' || s[j as int] == 'n' || s[j as int] == 'r' || s[j as int]
        == 't') {
        1
    } else if j + 5 <= s.len() && s[j as int] == 'u' && is_hex_digit(s[j as int + 1])
        && is_hex_digit(s[j as int + 2]) && is_hex_digit(s[j as int + 3]) && is_hex_digit(
        s[j as int + 4],
    ) {
        5
    } else {
        0
    }
}

/// The end of the longest string body starting at `i`: bare characters and
/// well-formed escapes.
pub open spec fn str_body_end(s: Seq<char>, i: nat) -> nat
    decreases s.len() - i when i <= s.len()
{
    if i < s.len() && is_normal(s[i as int]) {
        str_body_end(s, i + 1)
    } else if i < s.len() && s[i as int] == '\\' && esc_len(s, i + 1) > 0 && i + 1 + esc_len(
        s,
        i + 1,
    ) <= s.len() {
        str_body_end(s, i + 1 + esc_len(s, i + 1))
    } else {
        i
    }
}

pub proof fn lemma_str_body_end(s: Seq<char>, i: nat)
    requires
        i <= s.len(),
    ensures
        i <= str_body_end(s, i) <= s.len(),
    decreases s.len() - i,
{
    if i < s.len() && is_normal(s[i as int]) {
        lemma_str_body_end(s, i + 1);
    } else if i < s.len() && s[i as int] == '\\' && esc_len(s, i + 1) > 0 && i + 1 + esc_len(
        s,
        i + 1,
    ) <= s.len() {
        lemma_str_body_end(s, i + 1 + esc_len(s, i + 1));
    }
}

/// A string literal at `i`: the empty literal `""`, or a quoted body whose
/// raw text (escapes included, undecoded) is the payload.
pub open spec fn sp_string(s: Seq<char>, i: nat) -> Option<(Seq<char>, nat)> {
    if i + 1 < s.len() && s[i as int] == '"' && s[i as int + 1] == '"' {
        Some((Seq::empty(), i + 2))
    } else if i < s.len() && s[i as int] == '"' {
        let e = str_body_end(s, i + 1);
        if e < s.len() && s[e as int] == '"' {
            Some((s.subrange(i as int + 1, e as int), e + 1))
        } else {
            None
        }
    } else {
        None
    }
}

/// A binary literal at `i`: `binary!(` then an alphanumeric body then `)`.
/// The payload is the raw body text.
pub open spec fn sp_binary(s: Seq<char>, i: nat) -> Option<(Seq<char>, nat)> {
    if i + 8 <= s.len() && s[i as int] == 'b' && s[i as int + 1] == 'i' && s[i as int + 2] == 'n'
        && s[i as int + 3] == 'a' && s[i as int + 4] == 'r' && s[i as int + 5] == 'y' && s[
        i as int + 6
    ] == '!' && s[i as int + 7] == '(' {
        let e = alnum_run(s, i + 8);
        if e < s.len() && s[e as int] == ')' {
            Some((s.subrange(i as int + 8, e as int), e + 1))
        } else {
            None
        }
    } else {
        None
    }
}

/// The bytes a binary literal body denotes: a decode of standard padded
/// base64, and no bytes at all when that fails.
pub open spec fn blob_of(body: Seq<char>) -> Seq<u8> {
    if b64_ok(body) {
        match b64_decode_of(body) {
            Some(bs) => bs,
            None => Seq::empty(),
        }
    } else {
        Seq::empty()
    }
}

} // verus!

verus! {

use crate::value::Val;

/// Replaces the value at the first occurrence of `k`, or appends the entry:
/// later entries for a key overwrite earlier ones, in place.
pub open spec fn upsert(m: Seq<(Seq<char>, Val)>, k: Seq<char>, v: Val) -> Seq<(Seq<char>, Val)>
    decreases m.len(),
{
    if m.len() == 0 {
        seq![(k, v)]
    } else if m[0].0 == k {
        seq![(k, v)] + m.drop_first()
    } else {
        seq![m[0]] + upsert(m.drop_first(), k, v)
    }
}

/// The dict the parsed entry list denotes, built by upserts from the left.
pub open spec fn dict_fold(pairs: Seq<(Seq<char>, Val)>) -> Seq<(Seq<char>, Val)>
    decreases pairs.len(),
{
    if pairs.len() == 0 {
        Seq::empty()
    } else {
        upsert(dict_fold(pairs.drop_last()), pairs.last().0, pairs.last().1)
    }
}

/// A value: leading and trailing whitespace around one alternative. The
/// alternatives' first characters are disjoint, so the dispatch reads one
/// character.
pub open spec fn sp_value(s: Seq<char>, i: nat) -> Option<(Val, nat)>
    decreases s.len() - i, 3nat,
{
    let j = skip_ws(s, i);
    if i <= j && j < s.len() {
        let c = s[j as int];
        let r = if c == '-' || c == '+' || c == '.' || is_digit(c) {
            match sp_number(s, j) {
                Some(p) => Some((Val::Number(p.0), p.1)),
                None => None,
            }
        } else if c == 't' || c == 'T' || c == 'f' || c == 'F' {
            match sp_bool(s, j) {
                Some(p) => Some((Val::Bool(p.0), p.1)),
                None => None,
            }
        } else if c == '"' {
            match sp_string(s, j) {
                Some(p) => Some((Val::Str(p.0), p.1)),
                None => None,
            }
        } else if c == '[' {
            sp_list(s, j)
        } else if c == '{' {
            sp_dict(s, j)
        } else if c == '(' {
            sp_tup(s, j)
        } else if c == 'b' {
            match sp_binary(s, j) {
                Some(p) => Some((Val::Bin(blob_of(p.0)), p.1)),
                None => None,
            }
        } else {
            None
        };
        match r {
            Some(p) => if p.1 <= s.len() {
                Some((p.0, skip_ws(s, p.1)))
            } else {
                None
            },
            None => None,
        }
    } else {
        None
    }
}

/// A list at `s[i] == '['`: elements separated by commas; a failed first
/// element leaves `]` expected immediately.
pub open spec fn sp_list(s: Seq<char>, i: nat) -> Option<(Val, nat)>
    decreases s.len() - i, 2nat,
{
    if i < s.len() {
        match sp_value(s, i + 1) {
            Some(p) => if i < p.1 <= s.len() {
                sp_list_rest(s, p.1, seq![p.0])
            } else {
                None
            },
            None => if i + 1 < s.len() && s[i as int + 1] == ']' {
                Some((Val::List(Seq::empty()), i + 2))
            } else {
                None
            },
        }
    } else {
        None
    }
}

/// After a list element: a comma and another element, or the closing `]`.
pub open spec fn sp_list_rest(s: Seq<char>, i: nat, acc: Seq<Val>) -> Option<(Val, nat)>
    decreases s.len() - i, 1nat,
{
    if i < s.len() && s[i as int] == ',' {
        match sp_value(s, i + 1) {
            Some(p) => if i < p.1 <= s.len() {
                sp_list_rest(s, p.1, acc.push(p.0))
            } else {
                None
            },
            None => None,
        }
    } else if i < s.len() && s[i as int] == ']' {
        Some((Val::List(acc), i + 1))
    } else {
        None
    }
}

/// One dict entry: whitespace, a string key, whitespace, `:`, a value.
pub open spec fn sp_pair(s: Seq<char>, i: nat) -> Option<((Seq<char>, Val), nat)>
    decreases s.len() - i, 2nat,
{
    let j = skip_ws(s, i);
    if i <= j && j <= s.len() {
        match sp_string(s, j) {
            Some(pk) => {
                let k2 = skip_ws(s, pk.1);
                if i < k2 && k2 < s.len() && s[k2 as int] == ':' {
                    match sp_value(s, k2 + 1) {
                        Some(pv) => Some(((pk.0, pv.0), pv.1)),
                        None => None,
                    }
                } else {
                    None
                }
            },
            None => None,
        }
    } else {
        None
    }
}

/// A dict at `s[i] == '{'`: entries separated by commas; a failed first
/// entry leaves `}` expected immediately.
pub open spec fn sp_dict(s: Seq<char>, i: nat) -> Option<(Val, nat)>
    decreases s.len() - i, 1nat,
{
    if i < s.len() {
        match sp_pair(s, i + 1) {
            Some(p) => if i < p.1 <= s.len() {
                sp_dict_rest(s, p.1, seq![p.0])
            } else {
                None
            },
            None => if i + 1 < s.len() && s[i as int + 1] == '}' {
                Some((Val::Dict(Seq::empty()), i + 2))
            } else {
                None
            },
        }
    } else {
        None
    }
}

/// After a dict entry: a comma and another entry, or the closing `}`.
pub open spec fn sp_dict_rest(s: Seq<char>, i: nat, acc: Seq<(Seq<char>, Val)>) -> Option<
    (Val, nat),
>
    decreases s.len() - i, 0nat,
{
    if i < s.len() && s[i as int] == ',' {
        match sp_pair(s, i + 1) {
            Some(p) => if i < p.1 <= s.len() {
                sp_dict_rest(s, p.1, acc.push(p.0))
            } else {
                None
            },
            None => None,
        }
    } else if i < s.len() && s[i as int] == '}' {
        Some((Val::Dict(dict_fold(acc)), i + 1))
    } else {
        None
    }
}

/// A tuple at `s[i] == '('`: exactly two values separated by a comma.
pub open spec fn sp_tup(s: Seq<char>, i: nat) -> Option<(Val, nat)>
    decreases s.len() - i, 2nat,
{
    if i < s.len() {
        match sp_value(s, i + 1) {
            Some(pa) => if i < pa.1 && pa.1 < s.len() && s[pa.1 as int] == ',' {
                match sp_value(s, pa.1 + 1) {
                    Some(pb) => if pb.1 < s.len() && s[pb.1 as int] == ')' {
                        Some((Val::Tup(seq![pa.0, pb.0]), pb.1 + 1))
                    } else {
                        None
                    },
                    None => None,
                }
            } else {
                None
            },
            None => None,
        }
    } else {
        None
    }
}

/// The shape of an enveloped document: `b:<middle>:`.
pub open spec fn env_shape(s: Seq<char>) -> bool {
    s.len() >= 3 && s[0] == 'b' && s[1] == ':' && s[s.len() - 1] == ':'
}

/// The middle of an enveloped document.
pub open spec fn env_mid(s: Seq<char>) -> Seq<char> {
    s.subrange(2, s.len() - 1)
}

/// The text a document denotes: an envelope's middle is base64 decoded and
/// read as UTF-8, each failure collapsing to the empty text; any other
/// document is itself.
pub open spec fn doc_text(s: Seq<char>) -> Seq<char> {
    if env_shape(s) {
        match b64_decode_of(env_mid(s)) {
            Some(bs) => if vstd::utf8::valid_utf8(bs) {
                vstd::utf8::decode_utf8(bs)
            } else {
                Seq::empty()
            },
            None => Seq::empty(),
        }
    } else {
        s
    }
}

/// The value a whole document denotes: the parse of its text, unconsumed
/// remainder ignored, and Null when the parse fails.
pub open spec fn doc_model(s: Seq<char>) -> Val {
    match sp_value(doc_text(s), 0) {
        Some(p) => p.0,
        None => Val::Null,
    }
}

} // verus!

verus! {

use crate::value::DataValue;
use crate::text::string_from_chars;

fn is_ws_e(c: char) -> (r: bool)
    ensures
        r == is_ws(c),
{
    c == ' ' || c == '\t' || c == '\r' || c == '\n'
}

fn is_digit_e(c: char) -> (r: bool)
    ensures
        r == is_digit(c),
{
    '0' <= c && c <= '9'
}

fn is_alnum_e(c: char) -> (r: bool)
    ensures
        r == is_alnum(c),
{
    ('0' <= c && c <= '9') || ('a' <= c && c <= 'z') || ('A' <= c && c <= 'Z')
}

fn is_hex_digit_e(c: char) -> (r: bool)
    ensures
        r == is_hex_digit(c),
{
    ('0' <= c && c <= '9') || ('a' <= c && c <= 'f') || ('A' <= c && c <= 'F')
}

fn is_normal_e(c: char) -> (r: bool)
    ensures
        r == is_normal(c),
{
    let u = c as u32;
    c != '\\' && c != '"' && !(u < 32 || u == 127)
}

fn skip_ws_at(s: &Vec<char>, i: usize) -> (r: usize)
    requires
        i <= s@.len(),
    ensures
        r == skip_ws(s@, i as nat),
        i <= r <= s@.len(),
{
    let mut j = i;
    while j < s.len() && is_ws_e(s[j])
        invariant
            i <= j <= s@.len(),
            skip_ws(s@, i as nat) == skip_ws(s@, j as nat),
        decreases s@.len() - j,
    {
        j = j + 1;
    }
    j
}

fn digit_run_at(s: &Vec<char>, i: usize) -> (r: usize)
    requires
        i <= s@.len(),
    ensures
        r == digit_run(s@, i as nat),
        i <= r <= s@.len(),
{
    let mut j = i;
    while j < s.len() && is_digit_e(s[j])
        invariant
            i <= j <= s@.len(),
            digit_run(s@, i as nat) == digit_run(s@, j as nat),
        decreases s@.len() - j,
    {
        j = j + 1;
    }
    j
}

fn alnum_run_at(s: &Vec<char>, i: usize) -> (r: usize)
    requires
        i <= s@.len(),
    ensures
        r == alnum_run(s@, i as nat),
        i <= r <= s@.len(),
{
    let mut j = i;
    while j < s.len() && is_alnum_e(s[j])
        invariant
            i <= j <= s@.len(),
            alnum_run(s@, i as nat) == alnum_run(s@, j as nat),
        decreases s@.len() - j,
    {
        j = j + 1;
    }
    j
}

/// A digit run ends at the end of the text or at a non-digit.
proof fn lemma_digit_run_end(s: Seq<char>, i: nat)
    requires
        i <= s.len(),
    ensures
        digit_run(s, i) == s.len() || !is_digit(s[digit_run(s, i) as int]),
        digit_run(s, digit_run(s, i)) == digit_run(s, i),
    decreases s.len() - i,
{
    if i < s.len() && is_digit(s[i as int]) {
        lemma_digit_run_end(s, i + 1);
    }
}

/// All characters of a digit run are digits.
proof fn lemma_digit_run_digits(s: Seq<char>, i: nat, k: int)
    requires
        i <= s.len(),
        i <= k < digit_run(s, i),
    ensures
        is_digit(s[k]),
    decreases s.len() - i,
{
    lemma_digit_run(s, i);
    if i < s.len() && is_digit(s[i as int]) {
        if k > i {
            lemma_digit_run_digits(s, i + 1, k);
        }
    }
}

/// Folds the digits `s[a..b)` onto `acc`; fails exactly when the combined
/// value overflows a `u64`.
fn fold_digits(s: &Vec<char>, a: usize, b: usize, acc: u64) -> (r: Option<u64>)
    requires
        a <= b <= s@.len(),
        forall|k: int| a <= k < b ==> is_digit(s@[k]),
    ensures
        match r {
            Some(m) => m == acc * pow10((b - a) as nat) + digits_val(s@, a as nat, b as nat),
            None => acc * pow10((b - a) as nat) + digits_val(s@, a as nat, b as nat) > u64::MAX,
        },
{
    let mut k = a;
    let mut m: u64 = acc;
    proof {
        lemma_pow10_zero();
    }
    while k < b
        invariant
            a <= k <= b <= s@.len(),
            forall|q: int| a <= q < b ==> is_digit(s@[q]),
            m == acc * pow10((k - a) as nat) + digits_val(s@, a as nat, k as nat),
        decreases b - k,
    {
        let c = s[k];
        proof {
            assert(is_digit(s@[k as int]));
        }
        let d: u64 = (c as u32 - '0' as u32) as u64;
        let m10 = match m.checked_mul(10) {
            Some(x) => x,
            None => {
                proof {
                    lemma_fold_digits_over(s@, a as nat, k as nat, b as nat, acc as int,
                        m as int, d as int);
                }
                return None;
            },
        };
        let m2 = match m10.checked_add(d) {
            Some(x) => x,
            None => {
                proof {
                    lemma_fold_digits_over(s@, a as nat, k as nat, b as nat, acc as int,
                        m as int, d as int);
                }
                return None;
            },
        };
        proof {
            lemma_pow10_add((k - a) as nat, 1);
            vstd::arithmetic::power::lemma_pow1(10);
            let p = pow10((k - a) as nat);
            assert((acc * p + digits_val(s@, a as nat, k as nat)) * 10 == acc * (p * 10)
                + digits_val(s@, a as nat, k as nat) * 10) by (nonlinear_arith);
            assert(acc * (p * 10) == acc * pow10((k + 1 - a) as nat)) by (nonlinear_arith)
                requires
                    p * 10 == pow10((k + 1 - a) as nat),
            ;
            assert(digit_val(s@[k as int]) == d);
        }
        m = m2;
        k = k + 1;
    }
    Some(m)
}

/// When one folding step overflows, the whole run's value overflows too.
proof fn lemma_fold_digits_over(s: Seq<char>, a: nat, k: nat, b: nat, acc: int, m: int, d: int)
    requires
        a <= k < b <= s.len(),
        acc >= 0,
        m == acc * pow10((k - a) as nat) + digits_val(s, a, k),
        m * 10 + d > u64::MAX,
        d == digit_val(s[k as int]),
    ensures
        acc * pow10((b - a) as nat) + digits_val(s, a, b) > u64::MAX,
{
    lemma_digits_val_split(s, a, k + 1, b);
    lemma_pow10_add((k - a) as nat, 1);
    lemma_pow10_add((k + 1 - a) as nat, (b - k - 1) as nat);
    lemma_pow10_pos((b - k - 1) as nat);
    vstd::arithmetic::power::lemma_pow1(10);
    let p = pow10((k - a) as nat);
    let p1 = pow10((k + 1 - a) as nat);
    let pr = pow10((b - k - 1) as nat);
    // the value through position k + 1
    assert(digits_val(s, a, k + 1) == digits_val(s, a, k) * 10 + d);
    assert((acc * p + digits_val(s, a, k)) * 10 == acc * (p * 10) + digits_val(s, a, k) * 10)
        by (nonlinear_arith);
    assert(acc * (p * 10) == acc * p1) by (nonlinear_arith)
        requires
            p * 10 == p1,
    ;
    let v1 = acc * p1 + digits_val(s, a, k + 1);
    assert(v1 == m * 10 + d);
    // the full value is v1 scaled up plus the rest
    assert(digits_val(s, a, b) == digits_val(s, a, k + 1) * pow10((b - (k + 1)) as nat)
        + digits_val(s, k + 1, b));
    assert(acc * pow10((b - a) as nat) == acc * (p1 * pr)) by (nonlinear_arith)
        requires
            pow10((b - a) as nat) == p1 * pr,
    ;
    assert(acc * (p1 * pr) == (acc * p1) * pr) by (nonlinear_arith);
    assert((acc * p1) * pr + digits_val(s, a, k + 1) * pr == v1 * pr) by (nonlinear_arith)
        requires
            v1 == acc * p1 + digits_val(s, a, k + 1),
    ;
    assert(v1 * pr >= v1) by (nonlinear_arith)
        requires
            pr >= 1,
            v1 >= 0,
    ;
    assert(acc * pow10((b - a) as nat) + digits_val(s, a, b) >= v1 * pr);
}

/// Folds the digits `s[a..b)` into a `u128`; when that overflows, the value
/// is far beyond any scale a number could carry.
fn fold_digits_u128(s: &Vec<char>, a: usize, b: usize) -> (r: Option<u128>)
    requires
        a <= b <= s@.len(),
        forall|k: int| a <= k < b ==> is_digit(s@[k]),
    ensures
        match r {
            Some(m) => m == digits_val(s@, a as nat, b as nat),
            None => digits_val(s@, a as nat, b as nat) > u64::MAX as int + 21,
        },
{
    let mut k = a;
    let mut m: u128 = 0;
    while k < b
        invariant
            a <= k <= b <= s@.len(),
            forall|q: int| a <= q < b ==> is_digit(s@[q]),
            m == digits_val(s@, a as nat, k as nat),
        decreases b - k,
    {
        let c = s[k];
        proof {
            assert(is_digit(s@[k as int]));
        }
        let d: u128 = (c as u32 - '0' as u32) as u128;
        let m10 = match m.checked_mul(10) {
            Some(x) => x,
            None => {
                proof {
                    lemma_digits_val_mono(s@, a as nat, k as nat, b as nat);
                }
                return None;
            },
        };
        let m2 = match m10.checked_add(d) {
            Some(x) => x,
            None => {
                proof {
                    lemma_digits_val_mono(s@, a as nat, k as nat, b as nat);
                }
                return None;
            },
        };
        proof {
            assert(digit_val(s@[k as int]) == d);
        }
        m = m2;
        k = k + 1;
    }
    Some(m)
}

/// The exponent part: folds the optional `e`/`E` exponent into the parsed
/// mantissa and builds the number.
fn number_exp_at(s: &Vec<char>, neg: bool, a1: usize, a2: usize, f1: usize, f2: usize) -> (r:
    Option<(Num, usize)>)
    requires
        a1 <= a2 <= s@.len(),
        f1 <= f2 <= s@.len(),
        a2 == digit_run(s@, a1 as nat),
        f2 == digit_run(s@, f1 as nat),
    ensures
        match r {
            Some(p) => sp_number_exp(s@, neg, digits_val(s@, a1 as nat, a2 as nat), f1 as nat,
                f2 as nat) == Some((p.0, p.1 as nat)) && f2 <= p.1 <= s@.len(),
            None => sp_number_exp(s@, neg, digits_val(s@, a1 as nat, a2 as nat), f1 as nat,
                f2 as nat) is None,
        },
{
    proof {
        lemma_pow10_zero();
        lemma_pow10_pos((f2 - f1) as nat);
        assert forall|k: int| a1 <= k < a2 implies is_digit(s@[k]) by {
            lemma_digit_run_digits(s@, a1 as nat, k);
        }
        assert forall|k: int| f1 <= k < f2 implies is_digit(s@[k]) by {
            lemma_digit_run_digits(s@, f1 as nat, k);
        }
    }
    let ghost ip = digits_val(s@, a1 as nat, a2 as nat);
    let ghost flen = (f2 - f1) as nat;
    let ghost mant0 = (ip * pow10(flen) + digits_val(s@, f1 as nat, f2 as nat)) as nat;
    // fold the integer digits, then the fraction digits, in one accumulator
    let mi = match fold_digits(s, a1, a2, 0) {
        Some(m) => m,
        None => {
            proof {
                assert(0 * pow10((a2 - a1) as nat) == 0) by (nonlinear_arith);
                assert(ip * pow10(flen) >= ip) by (nonlinear_arith)
                    requires
                        pow10(flen) >= 1,
                        ip >= 0,
                ;
                lemma_mant0_over(s@, a1 as nat, a2 as nat, f1 as nat, f2 as nat, neg);
            }
            return None;
        },
    };
    proof {
        assert(0 * pow10((a2 - a1) as nat) == 0) by (nonlinear_arith);
        assert(mi == ip);
    }
    let m0 = match fold_digits(s, f1, f2, mi) {
        Some(m) => m,
        None => {
            proof {
                lemma_mant0_over(s@, a1 as nat, a2 as nat, f1 as nat, f2 as nat, neg);
            }
            return None;
        },
    };
    proof {
        assert(m0 == mant0);
    }
    // the optional exponent
    if f2 < s.len() && (s[f2] == 'e' || s[f2] == 'E') {
        let has_sign = f2 + 1 < s.len() && (s[f2 + 1] == '-' || s[f2 + 1] == '+');
        let e1 = if has_sign {
            f2 + 2
        } else {
            f2 + 1
        };
        if e1 > s.len() {
            proof {
                lemma_digit_run(s@, s@.len());
            }
            return None;
        }
        let e2 = digit_run_at(s, e1);
        if e2 == e1 {
            return None;
        }
        proof {
            assert forall|k: int| e1 <= k < e2 implies is_digit(s@[k]) by {
                lemma_digit_run_digits(s@, e1 as nat, k);
            }
        }
        let eneg = has_sign && s[f2 + 1] == '-';
        let ghost ev = digits_val(s@, e1 as nat, e2 as nat) as int;
        let evx = match fold_digits_u128(s, e1, e2) {
            Some(m) => m,
            None => {
                // the exponent's digits overflow a u128: the value dwarfs
                // any possible scale adjustment
                if eneg {
                    // the net scale is far above u32::MAX
                    return None;
                } else if m0 == 0 {
                    proof {
                        lemma_big_exp_zero(s@, neg, mant0, flen, ev, e2 as nat);
                    }
                    return Some((Num { neg, mant: 0, scale: 0 }, e2));
                } else {
                    proof {
                        lemma_big_exp_over(s@, neg, mant0, flen, ev, e2 as nat);
                    }
                    return None;
                }
            },
        };
        proof {
            assert(evx == ev);
        }
        mk_num_at(s, neg, m0, eneg, evx, f1, f2, e2)
    } else {
        // no exponent: the scale is the fraction's length
        if f2 - f1 > u32::MAX as usize {
            return None;
        }
        if f2 == f1 {
            proof {
                assert(mant0 * pow10(0) == mant0) by (nonlinear_arith)
                    requires
                        pow10(0) == 1,
                ;
            }
            Some((Num { neg, mant: m0, scale: 0 }, f2))
        } else {
            Some((Num { neg, mant: m0, scale: (f2 - f1) as u32 }, f2))
        }
    }
}

/// When the mantissa digits overflow a `u64`, no exponent can save the
/// literal: every continuation is unrepresentable.
proof fn lemma_mant0_over(s: Seq<char>, a1: nat, a2: nat, f1: nat, f2: nat, neg: bool)
    requires
        a1 <= a2 <= s.len(),
        f1 <= f2 <= s.len(),
        (digits_val(s, a1, a2) * pow10((f2 - f1) as nat) + digits_val(s, f1, f2)) as nat
            > u64::MAX,
    ensures
        sp_number_exp(s, neg, digits_val(s, a1, a2), f1, f2) is None,
{
    let mant0 = (digits_val(s, a1, a2) * pow10((f2 - f1) as nat) + digits_val(s, f1, f2)) as nat;
    lemma_pow10_pos((f2 - f1) as nat);
    assert forall|net: int| true implies (mk_num(neg, mant0, net, f2) is None) by {
        if net <= 0 {
            lemma_pow10_pos((-net) as nat);
            assert(mant0 * pow10((-net) as nat) >= mant0) by (nonlinear_arith)
                requires
                    pow10((-net) as nat) >= 1,
                    mant0 >= 0,
            ;
        }
    }
    if f2 < s.len() && (s[f2 as int] == 'e' || s[f2 as int] == 'E') {
        let has_sign = f2 + 1 < s.len() && (s[f2 as int + 1] == '-' || s[f2 as int + 1] == '+');
        let e1 = if has_sign {
            f2 + 2
        } else {
            f2 + 1
        };
        let e2 = digit_run(s, e1);
        if e2 > e1 {
            let eneg = has_sign && s[f2 as int + 1] == '-';
            let ev = digits_val(s, e1, e2) as int;
            let e = if eneg {
                -ev
            } else {
                ev
            };
            assert(mk_num(neg, mant0, (f2 - f1) as int - e, e2) is None) by {
                let net = (f2 - f1) as int - e;
                if net <= 0 {
                    lemma_pow10_pos((-net) as nat);
                    assert(mant0 * pow10((-net) as nat) >= mant0) by (nonlinear_arith)
                        requires
                            pow10((-net) as nat) >= 1,
                            mant0 >= 0,
                    ;
                }
            }
        }
    }
}

/// A huge positive exponent with a zero mantissa still denotes zero.
proof fn lemma_big_exp_zero(s: Seq<char>, neg: bool, mant0: nat, flen: nat, ev: int, e2: nat)
    requires
        mant0 == 0,
        ev > flen,
    ensures
        mk_num(neg, mant0, flen as int - ev, e2) == Some((Num { neg, mant: 0, scale: 0 }, e2)),
{
    let net = flen as int - ev;
    assert(net <= 0);
    lemma_pow10_pos((-net) as nat);
    assert(0 * pow10((-net) as nat) == 0) by (nonlinear_arith);
}

/// A huge positive exponent with a nonzero mantissa cannot be represented.
proof fn lemma_big_exp_over(s: Seq<char>, neg: bool, mant0: nat, flen: nat, ev: int, e2: nat)
    requires
        mant0 >= 1,
        ev >= flen + 20,
    ensures
        mk_num(neg, mant0, flen as int - ev, e2) is None,
{
    let net = flen as int - ev;
    assert(net <= 0);
    assert((-net) as nat >= 20);
    lemma_pow10_20_large();
    lemma_pow10_mono(20, (-net) as nat);
    assert(mant0 * pow10((-net) as nat) >= pow10((-net) as nat)) by (nonlinear_arith)
        requires
            mant0 >= 1,
            pow10((-net) as nat) >= 0,
    ;
}

/// Builds the number from the folded mantissa and the signed exponent.
fn mk_num_at(s: &Vec<char>, neg: bool, m0: u64, eneg: bool, ev: u128, f1: usize, f2: usize,
    e2: usize) -> (r: Option<(Num, usize)>)
    requires
        f1 <= f2 <= s@.len(),
        e2 <= s@.len(),
    ensures
        ({
            let e: int = if eneg {
                -(ev as int)
            } else {
                ev as int
            };
            match r {
                Some(p) => mk_num(neg, m0 as nat, (f2 - f1) as int - e, e2 as nat) == Some(
                    (p.0, p.1 as nat),
                ) && p.1 == e2,
                None => mk_num(neg, m0 as nat, (f2 - f1) as int - e, e2 as nat) is None,
            }
        }),
{
    let flen = f2 - f1;
    proof {
        lemma_pow10_zero();
    }
    if eneg {
        if ev > u32::MAX as u128 {
            return None;
        }
        let net = flen as u128 + ev;
        if net == 0 {
            proof {
                assert(m0 as nat * pow10(0) == m0 as nat) by (nonlinear_arith)
                    requires
                        pow10(0) == 1,
                ;
            }
            Some((Num { neg, mant: m0, scale: 0 }, e2))
        } else if net <= u32::MAX as u128 {
            Some((Num { neg, mant: m0, scale: net as u32 }, e2))
        } else {
            None
        }
    } else if ev <= flen as u128 {
        let net = flen - (ev as usize);
        if net == 0 {
            proof {
                assert(m0 as nat * pow10(0) == m0 as nat) by (nonlinear_arith)
                    requires
                        pow10(0) == 1,
                ;
            }
            Some((Num { neg, mant: m0, scale: 0 }, e2))
        } else if net <= u32::MAX as usize {
            Some((Num { neg, mant: m0, scale: net as u32 }, e2))
        } else {
            None
        }
    } else {
        let k: u128 = ev - flen as u128;
        proof {
            lemma_pow10_pos(k as nat);
        }
        if k >= 20 {
            proof {
                lemma_pow10_20_large();
                lemma_pow10_mono(20, k as nat);
            }
            if m0 == 0 {
                proof {
                    assert(0 * pow10(k as nat) == 0) by (nonlinear_arith);
                }
                Some((Num { neg, mant: 0, scale: 0 }, e2))
            } else {
                proof {
                    assert(m0 as nat * pow10(k as nat) >= pow10(k as nat)) by (nonlinear_arith)
                        requires
                            m0 >= 1,
                            pow10(k as nat) >= 1,
                    ;
                }
                None
            }
        } else {
            let p = match pow10_u64(k as u32) {
                Some(p) => p,
                None => {
                    proof {
                        lemma_pow10_mono(k as nat, 19);
                        lemma_pow10_19_fits();
                    }
                    return None;  // never reached: 10^k fits for k <= 19
                },
            };
            match m0.checked_mul(p) {
                Some(m) => Some((Num { neg, mant: m, scale: 0 }, e2)),
                None => None,
            }
        }
    }
}

/// A number literal.
fn number_at(s: &Vec<char>, i: usize) -> (r: Option<(Num, usize)>)
    requires
        i <= s@.len(),
    ensures
        match r {
            Some(p) => sp_number(s@, i as nat) == Some((p.0, p.1 as nat)) && i < p.1 <= s@.len(),
            None => sp_number(s@, i as nat) is None,
        },
{
    let (neg, i1) = if i < s.len() && (s[i] == '-' || s[i] == '+') {
        (s[i] == '-', i + 1)
    } else {
        (false, i)
    };
    let i2 = digit_run_at(s, i1);
    if i2 > i1 {
        if i2 < s.len() && s[i2] == '.' {
            let f2 = digit_run_at(s, i2 + 1);
            number_exp_at(s, neg, i1, i2, i2 + 1, f2)
        } else {
            proof {
                lemma_digit_run_end(s@, i1 as nat);
            }
            number_exp_at(s, neg, i1, i2, i2, i2)
        }
    } else if i1 < s.len() && s[i1] == '.' {
        let f2 = digit_run_at(s, i1 + 1);
        if f2 > i1 + 1 {
            number_exp_at(s, neg, i1, i1, i1 + 1, f2)
        } else {
            None
        }
    } else {
        None
    }
}

/// A boolean literal.
fn bool_at(s: &Vec<char>, i: usize) -> (r: Option<(bool, usize)>)
    requires
        i <= s@.len(),
    ensures
        match r {
            Some(p) => sp_bool(s@, i as nat) == Some((p.0, p.1 as nat)) && i < p.1 <= s@.len(),
            None => sp_bool(s@, i as nat) is None,
        },
{
    if s.len() >= 4 && i <= s.len() - 4 && (s[i] == 't' || s[i] == 'T') && (s[i + 1] == 'r'
        || s[i + 1] == 'R') && (s[i + 2] == 'u' || s[i + 2] == 'U') && (s[i + 3] == 'e' || s[i
        + 3] == 'E') {
        Some((true, i + 4))
    } else if s.len() >= 5 && i <= s.len() - 5 && (s[i] == 'f' || s[i] == 'F') && (s[i + 1]
        == 'a' || s[i + 1] == 'A') && (s[i + 2] == 'l' || s[i + 2] == 'L') && (s[i + 3] == 's'
        || s[i + 3] == 'S') && (s[i + 4] == 'e' || s[i + 4] == 'E') {
        Some((false, i + 5))
    } else {
        None
    }
}

fn esc_len_at(s: &Vec<char>, j: usize) -> (r: usize)
    requires
        j <= s@.len(),
    ensures
        r == esc_len(s@, j as nat),
{
    if j < s.len() && (s[j] == '"' || s[j] == '\\' || s[j] == '/' || s[j] == 'b' || s[j] == 'f'
        || s[j] == 'n' || s[j] == 'r' || s[j] == 't') {
        1
    } else if s.len() >= 5 && j <= s.len() - 5 && s[j] == 'u' && is_hex_digit_e(s[j + 1])
        && is_hex_digit_e(s[j + 2]) && is_hex_digit_e(s[j + 3]) && is_hex_digit_e(s[j + 4]) {
        5
    } else {
        0
    }
}

fn str_body_end_at(s: &Vec<char>, i: usize) -> (r: usize)
    requires
        i <= s@.len(),
    ensures
        r == str_body_end(s@, i as nat),
        i <= r <= s@.len(),
{
    let mut j = i;
    loop
        invariant
            i <= j <= s@.len(),
            str_body_end(s@, i as nat) == str_body_end(s@, j as nat),
        ensures
            j == str_body_end(s@, i as nat),
            i <= j <= s@.len(),
        decreases s@.len() - j,
    {
        if j < s.len() && is_normal_e(s[j]) {
            j = j + 1;
        } else if j < s.len() && s[j] == '\\' {
            let e = esc_len_at(s, j + 1);
            if e > 0 && j + 1 + e <= s.len() {
                j = j + 1 + e;
            } else {
                break ;
            }
        } else {
            break ;
        }
    }
    j
}

/// Extracts `s[a..b)` as a vector.
fn sub_chars(s: &Vec<char>, a: usize, b: usize) -> (r: Vec<char>)
    requires
        a <= b <= s@.len(),
    ensures
        r@ == s@.subrange(a as int, b as int),
{
    let mut out: Vec<char> = Vec::new();
    let mut k = a;
    while k < b
        invariant
            a <= k <= b <= s@.len(),
            out@ == s@.subrange(a as int, k as int),
        decreases b - k,
    {
        out.push(s[k]);
        k = k + 1;
        proof {
            assert(out@ =~= s@.subrange(a as int, k as int));
        }
    }
    out
}

/// A string literal; the payload is the raw body text.
fn string_at(s: &Vec<char>, i: usize) -> (r: Option<(String, usize)>)
    requires
        i <= s@.len(),
    ensures
        match r {
            Some(p) => sp_string(s@, i as nat) == Some((p.0@, p.1 as nat)) && i < p.1
                <= s@.len(),
            None => sp_string(s@, i as nat) is None,
        },
{
    if i < s.len() && i + 1 < s.len() && s[i] == '"' && s[i + 1] == '"' {
        let empty: Vec<char> = Vec::new();
        let st = string_from_chars(&empty);
        proof {
            assert(st@ =~= Seq::<char>::empty());
        }
        Some((st, i + 2))
    } else if i < s.len() && s[i] == '"' {
        let e = str_body_end_at(s, i + 1);
        if e < s.len() && s[e] == '"' {
            let body = sub_chars(s, i + 1, e);
            Some((string_from_chars(&body), e + 1))
        } else {
            None
        }
    } else {
        None
    }
}

/// A binary literal; the payload is the decoded blob.
fn binary_at(s: &Vec<char>, i: usize) -> (r: Option<(Binary, usize)>)
    requires
        i <= s@.len(),
    ensures
        match r {
            Some(p) => (match sp_binary(s@, i as nat) {
                Some(q) => p.0@ == blob_of(q.0) && q.1 == p.1 as nat && i < p.1 <= s@.len(),
                None => false,
            }),
            None => sp_binary(s@, i as nat) is None,
        },
{
    if s.len() >= 8 && i <= s.len() - 8 && s[i] == 'b' && s[i + 1] == 'i' && s[i + 2] == 'n'
        && s[i + 3] == 'a' && s[i + 4] == 'r' && s[i + 5] == 'y' && s[i + 6] == '!' && s[i + 7]
        == '(' {
        let e = alnum_run_at(s, i + 8);
        if e < s.len() && s[e] == ')' {
            let body = sub_chars(s, i + 8, e);
            let text = string_from_chars(&body);
            let blob = match Binary::from_b64(text) {
                Ok(b) => b,
                Err(_) => Binary::build(Vec::new()),
            };
            proof {
                assert(blob@ =~= blob_of(s@.subrange(i as int + 8, e as int)));
            }
            Some((blob, e + 1))
        } else {
            None
        }
    } else {
        None
    }
}

} // verus!

verus! {

use crate::b64::b64_decode;
use crate::text::{chars_vec, string_from_utf8};
use crate::value::val_of;

/// The shapes of a raw entry vector, as the spec functions see it.
pub open spec fn pairs_model(d: Seq<(String, DataValue)>) -> Seq<(Seq<char>, Val)> {
    Seq::new(
        d.len(),
        |k: int|
            if 0 <= k < d.len() {
                (d[k].0@, val_of(d[k].1))
            } else {
                (Seq::<char>::empty(), Val::Null)
            },
    )
}

proof fn lemma_upsert_found(m: Seq<(Seq<char>, Val)>, k: Seq<char>, v: Val, x: int)
    requires
        0 <= x < m.len(),
        m[x].0 == k,
        forall|y: int| 0 <= y < x ==> (#[trigger] m[y]).0 != k,
    ensures
        upsert(m, k, v) == m.update(x, (k, v)),
    decreases m.len(),
{
    if x == 0 {
        assert(seq![(k, v)] + m.drop_first() =~= m.update(0, (k, v)));
    } else {
        assert(m[0].0 != k);
        lemma_upsert_found(m.drop_first(), k, v, x - 1);
        assert(seq![m[0]] + m.drop_first().update(x - 1, (k, v)) =~= m.update(x, (k, v)));
    }
}

proof fn lemma_upsert_missing(m: Seq<(Seq<char>, Val)>, k: Seq<char>, v: Val)
    requires
        forall|y: int| 0 <= y < m.len() ==> (#[trigger] m[y]).0 != k,
    ensures
        upsert(m, k, v) == m.push((k, v)),
    decreases m.len(),
{
    if m.len() == 0 {
        assert(seq![(k, v)] =~= m.push((k, v)));
    } else {
        assert(m[0].0 != k);
        lemma_upsert_missing(m.drop_first(), k, v);
        assert(seq![m[0]] + m.drop_first().push((k, v)) =~= m.push((k, v)));
    }
}

proof fn lemma_dict_fold_take(p: Seq<(Seq<char>, Val)>, i: int)
    requires
        0 <= i < p.len(),
    ensures
        dict_fold(p.take(i + 1)) == upsert(dict_fold(p.take(i)), p[i].0, p[i].1),
{
    let t = p.take(i + 1);
    assert(t.drop_last() =~= p.take(i));
    assert(t.last() == p[i]);
}

/// Replaces the value at the first occurrence of the key, in place, or
/// appends the entry.
fn upsert_at(out: &mut Vec<(String, DataValue)>, key: String, v: DataValue)
    ensures
        pairs_model(final(out)@) == upsert(pairs_model(old(out)@), key@, val_of(v)),
{
    let ghost m = pairs_model(out@);
    let mut x: usize = 0;
    while x < out.len()
        invariant
            x <= out@.len(),
            out@ == old(out)@,
            m == pairs_model(out@),
            forall|y: int| 0 <= y < x as int ==> (#[trigger] m[y]).0 != key@,
        decreases out@.len() - x,
    {
        if out[x].0 == key {
            proof {
                assert(m[x as int].0 == key@);
            }
            let ghost kv = key@;
            let ghost vv = val_of(v);
            proof {
                assert(m == pairs_model(old(out)@));
            }
            let _ = out.remove(x);
            out.insert(x, (key, v));
            proof {
                lemma_upsert_found(m, kv, vv, x as int);
                assert(pairs_model(out@) =~~= m.update(x as int, (kv, vv)));
                assert(pairs_model(out@) == upsert(m, kv, vv));
            }
            return ;
        }
        x = x + 1;
    }
    let ghost kv = key@;
    let ghost vv = val_of(v);
    out.push((key, v));
    proof {
        lemma_upsert_missing(m, kv, vv);
        assert(pairs_model(out@) =~~= m.push((kv, vv)));
        assert(pairs_model(out@) == upsert(m, kv, vv));
    }
}

/// Applies the raw parsed entries from the left, later keys overwriting.
fn fold_pairs(pairs: Vec<(String, DataValue)>) -> (r: Vec<(String, DataValue)>)
    ensures
        pairs_model(r@) == dict_fold(pairs_model(pairs@)),
{
    let ghost pm = pairs_model(pairs@);
    let mut out: Vec<(String, DataValue)> = Vec::new();
    let mut i: usize = 0;
    proof {
        assert(pairs_model(out@) =~= dict_fold(pm.take(0)));
    }
    let mut k = 0usize;
    while k < pairs.len()
        invariant
            k <= pairs@.len(),
            pm == pairs_model(pairs@),
            pairs_model(out@) == dict_fold(pm.take(k as int)),
        decreases pairs@.len() - k,
    {
        let (key, v) = (pairs[k].0.clone(), pairs[k].1.deep_copy());
        proof {
            assert(pm[k as int] == (pairs[k as int].0@, val_of(pairs[k as int].1)));
            lemma_dict_fold_take(pm, k as int);
        }
        upsert_at(&mut out, key, v);
        k = k + 1;
    }
    proof {
        assert(pm.take(pm.len() as int) =~= pm);
    }
    out
}

/// A value after leading whitespace, with trailing whitespace consumed.
fn value_at(s: &Vec<char>, i: usize) -> (r: Option<(DataValue, usize)>)
    requires
        i <= s@.len(),
    ensures
        (match r {
            Some(p) => sp_value(s@, i as nat) == Some((p.0@, p.1 as nat)) && i < p.1 <= s@.len(),
            None => sp_value(s@, i as nat) is None,
        }),
    decreases s@.len() - i, 3nat,
{
    let j = skip_ws_at(s, i);
    if j >= s.len() {
        return None;
    }
    let c = s[j];
    let sub: Option<(DataValue, usize)> = if c == '-' || c == '+' || c == '.' || is_digit_e(c) {
        match number_at(s, j) {
            Some(p) => Some((DataValue::Number(p.0), p.1)),
            None => None,
        }
    } else if c == 't' || c == 'T' || c == 'f' || c == 'F' {
        match bool_at(s, j) {
            Some(p) => Some((DataValue::Boolean(p.0), p.1)),
            None => None,
        }
    } else if c == '"' {
        match string_at(s, j) {
            Some(p) => Some((DataValue::String(p.0), p.1)),
            None => None,
        }
    } else if c == '[' {
        list_at(s, j)
    } else if c == '{' {
        dict_at(s, j)
    } else if c == '(' {
        tup_at(s, j)
    } else if c == 'b' {
        match binary_at(s, j) {
            Some(p) => Some((DataValue::Binary(p.0), p.1)),
            None => None,
        }
    } else {
        None
    };
    match sub {
        Some(p) => {
            let e = skip_ws_at(s, p.1);
            Some((p.0, e))
        },
        None => None,
    }
}

/// A list at `s[i] == '['`.
fn list_at(s: &Vec<char>, i: usize) -> (r: Option<(DataValue, usize)>)
    requires
        i < s.len(),
    ensures
        (match r {
            Some(p) => sp_list(s@, i as nat) == Some((p.0@, p.1 as nat)) && i < p.1 <= s@.len(),
            None => sp_list(s@, i as nat) is None,
        }),
    decreases s@.len() - i, 2nat,
{
    match value_at(s, i + 1) {
        Some(p) => {
            let mut acc: Vec<DataValue> = Vec::new();
            let ghost accm = seq![val_of(p.0)];
            let end = p.1;
            acc.push(p.0);
            proof {
                assert(accm.len() == acc@.len());
                assert(forall|q: int| 0 <= q < accm.len() ==> accm[q] == val_of(
                    #[trigger] acc@[q],
                ));
            }
            list_rest_at(s, end, acc, Ghost(accm))
        },
        None => {
            if i + 1 < s.len() && s[i + 1] == ']' {
                let empty: Vec<DataValue> = Vec::new();
                let v = DataValue::List(empty);
                proof {
                    assert((match v@ {
                        Val::List(q) => q,
                        _ => seq![Val::Null],
                    }) =~= Seq::<Val>::empty());
                }
                Some((v, i + 2))
            } else {
                None
            }
        },
    }
}

/// After a list element: a comma and another element, or `]`.
fn list_rest_at(s: &Vec<char>, i: usize, acc: Vec<DataValue>, accm: Ghost<Seq<Val>>) -> (r:
    Option<(DataValue, usize)>)
    requires
        i <= s@.len(),
        accm@.len() == acc@.len(),
        forall|q: int| 0 <= q < accm@.len() ==> accm@[q] == val_of(#[trigger] acc@[q]),
    ensures
        (match r {
            Some(p) => sp_list_rest(s@, i as nat, accm@) == Some((p.0@, p.1 as nat)) && i < p.1
                <= s@.len(),
            None => sp_list_rest(s@, i as nat, accm@) is None,
        }),
    decreases s@.len() - i, 1nat,
{
    if i < s.len() && s[i] == ',' {
        match value_at(s, i + 1) {
            Some(p) => {
                let mut acc2 = acc;
                let ghost accm2 = accm@.push(val_of(p.0));
                let end = p.1;
                acc2.push(p.0);
                proof {
                    assert(accm2.len() == acc2@.len());
                    assert(forall|q: int| 0 <= q < accm2.len() ==> accm2[q] == val_of(
                        #[trigger] acc2@[q],
                    ));
                }
                list_rest_at(s, end, acc2, Ghost(accm2))
            },
            None => None,
        }
    } else if i < s.len() && s[i] == ']' {
        let v = DataValue::List(acc);
        proof {
            assert((match v@ {
                Val::List(q) => q,
                _ => seq![Val::Null],
            }) =~= accm@);
        }
        Some((v, i + 1))
    } else {
        None
    }
}

/// One dict entry: whitespace, a string key, whitespace, `:`, a value.
fn pair_at(s: &Vec<char>, i: usize) -> (r: Option<((String, DataValue), usize)>)
    requires
        i <= s@.len(),
    ensures
        (match r {
            Some(p) => sp_pair(s@, i as nat) == Some(((p.0.0@, p.0.1@), p.1 as nat)) && i < p.1
                <= s@.len(),
            None => sp_pair(s@, i as nat) is None,
        }),
    decreases s@.len() - i, 2nat,
{
    let j = skip_ws_at(s, i);
    match string_at(s, j) {
        Some(pk) => {
            let k2 = skip_ws_at(s, pk.1);
            if k2 < s.len() && s[k2] == ':' {
                match value_at(s, k2 + 1) {
                    Some(pv) => Some(((pk.0, pv.0), pv.1)),
                    None => None,
                }
            } else {
                None
            }
        },
        None => None,
    }
}

/// A dict at `s[i] == '{'`.
fn dict_at(s: &Vec<char>, i: usize) -> (r: Option<(DataValue, usize)>)
    requires
        i < s.len(),
    ensures
        (match r {
            Some(p) => sp_dict(s@, i as nat) == Some((p.0@, p.1 as nat)) && i < p.1 <= s@.len(),
            None => sp_dict(s@, i as nat) is None,
        }),
    decreases s@.len() - i, 1nat,
{
    match pair_at(s, i + 1) {
        Some(p) => {
            let mut raw: Vec<(String, DataValue)> = Vec::new();
            let ghost rawm = seq![(p.0.0@, val_of(p.0.1))];
            let end = p.1;
            raw.push(p.0);
            proof {
                assert(rawm =~= pairs_model(raw@));
            }
            dict_rest_at(s, end, raw, Ghost(rawm))
        },
        None => {
            if i + 1 < s.len() && s[i + 1] == '}' {
                let empty: Vec<(String, DataValue)> = Vec::new();
                proof {
                    assert(pairs_model(Seq::<(String, DataValue)>::empty()) =~= Seq::<
                        (Seq<char>, Val),
                    >::empty());
                }
                let folded = fold_pairs(empty);
                let v = DataValue::Dict(folded);
                proof {
                    assert((match v@ {
                        Val::Dict(q) => q,
                        _ => seq![(Seq::<char>::empty(), Val::Null)],
                    }) =~= dict_fold(Seq::<(Seq<char>, Val)>::empty()));
                }
                Some((v, i + 2))
            } else {
                None
            }
        },
    }
}

/// After a dict entry: a comma and another entry, or `}`.
fn dict_rest_at(s: &Vec<char>, i: usize, raw: Vec<(String, DataValue)>, rawm: Ghost<
    Seq<(Seq<char>, Val)>,
>) -> (r: Option<(DataValue, usize)>)
    requires
        i <= s@.len(),
        rawm@ == pairs_model(raw@),
    ensures
        (match r {
            Some(p) => sp_dict_rest(s@, i as nat, rawm@) == Some((p.0@, p.1 as nat)) && i < p.1
                <= s@.len(),
            None => sp_dict_rest(s@, i as nat, rawm@) is None,
        }),
    decreases s@.len() - i, 0nat,
{
    if i < s.len() && s[i] == ',' {
        match pair_at(s, i + 1) {
            Some(p) => {
                let mut raw2 = raw;
                let ghost rawm2 = rawm@.push((p.0.0@, val_of(p.0.1)));
                let end = p.1;
                raw2.push(p.0);
                proof {
                    assert(rawm2 =~= pairs_model(raw2@));
                }
                dict_rest_at(s, end, raw2, Ghost(rawm2))
            },
            None => None,
        }
    } else if i < s.len() && s[i] == '}' {
        let folded = fold_pairs(raw);
        let v = DataValue::Dict(folded);
        proof {
            assert((match v@ {
                Val::Dict(q) => q,
                _ => seq![(Seq::<char>::empty(), Val::Null)],
            }) =~= dict_fold(rawm@));
        }
        Some((v, i + 1))
    } else {
        None
    }
}

/// A tuple at `s[i] == '('`.
fn tup_at(s: &Vec<char>, i: usize) -> (r: Option<(DataValue, usize)>)
    requires
        i < s.len(),
    ensures
        (match r {
            Some(p) => sp_tup(s@, i as nat) == Some((p.0@, p.1 as nat)) && i < p.1 <= s@.len(),
            None => sp_tup(s@, i as nat) is None,
        }),
    decreases s@.len() - i, 2nat,
{
    match value_at(s, i + 1) {
        Some(pa) => {
            if pa.1 < s.len() && s[pa.1] == ',' {
                let c1 = pa.1;
                match value_at(s, c1 + 1) {
                    Some(pb) => {
                        if pb.1 < s.len() && s[pb.1] == ')' {
                            let end = pb.1 + 1;
                            let ghost va = val_of(pa.0);
                            let ghost vb = val_of(pb.0);
                            let v = DataValue::Tuple((Box::new(pa.0), Box::new(pb.0)));
                            proof {
                                assert((match v@ {
                                    Val::Tup(q) => q,
                                    _ => seq![Val::Null],
                                }) =~= seq![va, vb]);
                            }
                            Some((v, end))
                        } else {
                            None
                        }
                    },
                    None => None,
                }
            } else {
                None
            }
        },
        None => None,
    }
}

/// The hand-rolled parser over the textual surface form.
pub struct ValueParser {}

impl ValueParser {
    /// Parses a value from the front of `message`; on success also returns
    /// the index of the unconsumed remainder (trailing whitespace eaten).
    pub fn parse(message: &str) -> (r: Option<(DataValue, usize)>)
        ensures
            (match r {
                Some(p) => sp_value(message@, 0) == Some((p.0@, p.1 as nat)),
                None => sp_value(message@, 0) is None,
            }),
    {
        let cs = chars_vec(message);
        value_at(&cs, 0)
    }
}

impl DataValue {
    /// Parses a whole document: unwraps the `b:<base64>:` envelope when
    /// present, parses the text, and collapses every failure to `Null`.
    pub fn from(data: &str) -> (r: DataValue)
        ensures
            r@ == doc_model(data@),
    {
        let cs = chars_vec(data);
        let doc: Vec<char> = if cs.len() >= 3 && cs[0] == 'b' && cs[1] == ':' && cs[cs.len() - 1]
            == ':' {
            let mid = sub_chars(&cs, 2, cs.len() - 1);
            let mid_s = string_from_chars(&mid);
            match b64_decode(mid_s.as_str()) {
                Some(bytes) => match string_from_utf8(bytes) {
                    Some(t) => chars_vec(t.as_str()),
                    None => Vec::new(),
                },
                None => Vec::new(),
            }
        } else {
            cs
        };
        proof {
            assert(doc@ =~= doc_text(data@));
        }
        match value_at(&doc, 0) {
            Some(p) => p.0,
            None => DataValue::Null,
        }
    }
}

} // verus!
