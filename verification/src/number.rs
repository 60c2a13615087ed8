//! Exact decimal numbers.
//!
//! A `Num` denotes the rational number `(-1)^neg * mant / 10^scale`.
//! The textual grammar's number literals (sign, integer part, fraction,
//! exponent) are folded into this form exactly; no rounding ever happens.

use vstd::arithmetic::power::{lemma_pow_adds, lemma_pow_increases, lemma_pow_positive, pow};
use vstd::prelude::*;

verus! {

/// A decimal number: `(-1)^neg * mant / 10^scale`.
#[derive(Debug, Clone, Copy, PartialEq, Eq)]
pub struct Num {
    pub neg: bool,
    pub mant: u64,
    pub scale: u32,
}

/// `10^n`, the denominator lattice of decimal numbers.
pub open spec fn pow10(n: nat) -> int {
    pow(10, n)
}

/// The signed numerator of `n`: its value scaled up by `10^(n.scale)`.
pub open spec fn numer(n: Num) -> int {
    if n.neg {
        -(n.mant as int)
    } else {
        n.mant as int
    }
}

/// The two decimals denote the same rational (cross multiplication).
pub open spec fn num_eq(a: Num, b: Num) -> bool {
    numer(a) * pow10(b.scale as nat) == numer(b) * pow10(a.scale as nat)
}

/// `a` denotes a strictly smaller rational than `b`.
pub open spec fn num_lt(a: Num, b: Num) -> bool {
    numer(a) * pow10(b.scale as nat) < numer(b) * pow10(a.scale as nat)
}

pub proof fn lemma_pow10_pos(n: nat)
    ensures
        pow10(n) >= 1,
{
    lemma_pow_positive(10, n);
}

pub proof fn lemma_pow10_add(a: nat, b: nat)
    ensures
        pow10(a + b) == pow10(a) * pow10(b),
{
    lemma_pow_adds(10, a, b);
}

pub proof fn lemma_pow10_mono(a: nat, b: nat)
    requires
        a <= b,
    ensures
        pow10(a) <= pow10(b),
{
    lemma_pow_increases(10, a, b);
}

/// `10^19` is the largest power of ten a `u64` can hold.
pub proof fn lemma_pow10_19_fits()
    ensures
        pow10(19) <= u64::MAX,
{
    reveal_with_fuel(pow, 20);
    assert(pow10(19) == 10000000000000000000);
}

pub proof fn lemma_pow10_zero()
    ensures
        pow10(0) == 1,
{
    vstd::arithmetic::power::lemma_pow0(10);
}

/// `10^20` exceeds every `u64`.
pub proof fn lemma_pow10_20_large()
    ensures
        pow10(20) > u64::MAX,
        pow10(20) > 2 * (u64::MAX as int),
{
    reveal_with_fuel(pow, 21);
    assert(pow10(20) == 100000000000000000000);
}

impl Num {
    /// The number zero, in its plainest spelling.
    pub fn zero() -> (r: Num)
        ensures
            r == (Num { neg: false, mant: 0, scale: 0 }),
    {
        Num { neg: false, mant: 0, scale: 0 }
    }

    /// A whole number.
    pub fn from_int(mant: u64) -> (r: Num)
        ensures
            r == (Num { neg: false, mant, scale: 0 }),
    {
        Num { neg: false, mant, scale: 0 }
    }
}

/// `10^e` as a `u64`, for small exponents.
pub fn pow10_u64(e: u32) -> (r: Option<u64>)
    ensures
        match r {
            Some(p) => p == pow10(e as nat),
            None => pow10(e as nat) > u64::MAX,
        },
{
    if e >= 20 {
        proof {
            lemma_pow10_20_large();
            lemma_pow10_mono(20, e as nat);
        }
        return None;
    }
    let mut acc: u64 = 1;
    let mut k: u32 = 0;
    proof {
        vstd::arithmetic::power::lemma_pow0(10);
    }
    while k < e
        invariant
            k <= e,
            e < 20,
            acc == pow10(k as nat),
        decreases e - k,
    {
        proof {
            lemma_pow10_mono((k + 1) as nat, 19);
            lemma_pow10_19_fits();
            lemma_pow10_add(k as nat, 1);
            reveal_with_fuel(pow, 2);
        }
        acc = acc * 10;
        k = k + 1;
    }
    Some(acc)
}

} // verus!

verus! {

/// The numerator of `a + b` over the common denominator `10^max(scale)`.
pub open spec fn sum_numer(a: Num, b: Num) -> int {
    let s = if a.scale >= b.scale {
        a.scale
    } else {
        b.scale
    };
    numer(a) * pow10((s - a.scale) as nat) + numer(b) * pow10((s - b.scale) as nat)
}

/// Exact addition: the sum over the common denominator when its numerator
/// fits a `u64`, and nothing otherwise.
pub open spec fn spec_add(a: Num, b: Num) -> Option<Num> {
    let s = if a.scale >= b.scale {
        a.scale
    } else {
        b.scale
    };
    let v = sum_numer(a, b);
    if -(u64::MAX as int) <= v <= u64::MAX as int {
        Some(Num { neg: v < 0, mant: (if v < 0 { -v } else { v }) as u64, scale: s })
    } else {
        None
    }
}

/// How two decimals compare as rationals.
#[derive(Debug, Clone, Copy, PartialEq, Eq)]
pub enum Order {
    Less,
    Equal,
    Greater,
}

/// The comparison `spec_cmp` answers, stated by cross multiplication.
pub open spec fn spec_num_cmp(a: Num, b: Num) -> Order {
    if num_lt(a, b) {
        Order::Less
    } else if num_lt(b, a) {
        Order::Greater
    } else {
        Order::Equal
    }
}

proof fn lemma_cancel_pow10(u: int, v: int, q: int, d: nat)
    requires
        q >= 1,
        pow10(d) >= 1,
    ensures
        (u * (q * pow10(d)) < v * q) <==> (u * pow10(d) < v),
        (u * (q * pow10(d)) == v * q) <==> (u * pow10(d) == v),
{
    assert((u * (q * pow10(d)) < v * q) <==> (u * pow10(d) < v)) by (nonlinear_arith)
        requires
            q >= 1,
            pow10(d) >= 1,
    ;
    assert((u * (q * pow10(d)) == v * q) <==> (u * pow10(d) == v)) by (nonlinear_arith)
        requires
            q >= 1,
            pow10(d) >= 1,
    ;
}

proof fn lemma_mul_mono_u128(x: int, y: int, xb: int, yb: int)
    requires
        0 <= x <= xb,
        0 <= y <= yb,
    ensures
        x * y <= xb * yb,
{
    assert(x * y <= xb * yb) by (nonlinear_arith)
        requires
            0 <= x <= xb,
            0 <= y <= yb,
    ;
}

/// Exact decimal addition; `None` when the sum's numerator does not fit.
pub fn num_add(a: Num, b: Num) -> (r: Option<Num>)
    ensures
        r == spec_add(a, b),
{
    let (lo, hi) = if a.scale <= b.scale {
        (a, b)
    } else {
        (b, a)
    };
    proof {
        assert(spec_add(a, b) == spec_add(lo, hi));
    }
    let d = hi.scale - lo.scale;
    if d >= 20 {
        proof {
            lemma_pow10_20_large();
            lemma_pow10_mono(20, d as nat);
            lemma_pow10_pos(d as nat);
            lemma_pow10_zero();
        }
        if lo.mant == 0 {
            let v = Num { neg: hi.neg && hi.mant > 0, mant: hi.mant, scale: hi.scale };
            proof {
                assert(numer(lo) * pow10(d as nat) == 0) by (nonlinear_arith)
                    requires
                        numer(lo) == 0,
                ;
                assert(numer(hi) * pow10(0) == numer(hi));
            }
            Some(v)
        } else {
            proof {
                let p = pow10(d as nat);
                assert(lo.mant as int * p >= p) by (nonlinear_arith)
                    requires
                        lo.mant >= 1,
                        p >= 1,
                ;
                if lo.neg {
                    assert(numer(lo) * p == -(lo.mant as int * p)) by (nonlinear_arith)
                        requires
                            numer(lo) == -(lo.mant as int),
                    ;
                }
                assert(numer(hi) * pow10(0) == numer(hi));
            }
            None
        }
    } else {
        let p = match pow10_u64(d) {
            Some(p) => p,
            None => {
                proof {
                    lemma_pow10_mono(d as nat, 19);
                    lemma_pow10_19_fits();
                }
                return None;  // never reached: 10^d fits for d <= 19
            },
        };
        proof {
            lemma_pow10_mono(d as nat, 19);
            lemma_pow10_19_fits();
            lemma_pow10_zero();
            lemma_pow10_pos(d as nat);
            lemma_mul_mono_u128(lo.mant as int, p as int, u64::MAX as int, pow10(19));
            reveal_with_fuel(pow, 20);
            assert(u64::MAX as int * pow10(19) < u128::MAX as int);
        }
        let ml: u128 = (lo.mant as u128) * (p as u128);
        let mh: u128 = hi.mant as u128;
        let (m, neg0): (u128, bool) = if lo.neg == hi.neg {
            proof {
                lemma_mul_mono_u128(lo.mant as int, p as int, u64::MAX as int, pow10(19));
            }
            (ml + mh, lo.neg)
        } else if ml >= mh {
            (ml - mh, lo.neg)
        } else {
            (mh - ml, hi.neg)
        };
        proof {
            let vlo = numer(lo) * pow10(d as nat);
            let vhi = numer(hi) * pow10(0);
            assert(vhi == numer(hi));
            if lo.neg {
                assert(vlo == -(ml as int)) by (nonlinear_arith)
                    requires
                        ml == lo.mant as int * p,
                        p == pow10(d as nat),
                        vlo == -(lo.mant as int) * pow10(d as nat),
                ;
            } else {
                assert(vlo == ml as int) by (nonlinear_arith)
                    requires
                        ml == lo.mant as int * p,
                        p == pow10(d as nat),
                        vlo == (lo.mant as int) * pow10(d as nat),
                ;
            }
        }
        if m > u64::MAX as u128 {
            None
        } else {
            Some(Num { neg: neg0 && m > 0, mant: m as u64, scale: hi.scale })
        }
    }
}

/// Compares the magnitudes `ma / 10^sa` and `mb / 10^sb`.
fn mag_cmp(ma: u64, sa: u32, mb: u64, sb: u32) -> (r: Order)
    ensures
        r == Order::Less <==> (ma as int) * pow10(sb as nat) < (mb as int) * pow10(sa as nat),
        r == Order::Greater <==> (ma as int) * pow10(sb as nat) > (mb as int) * pow10(sa as nat),
        r == Order::Equal <==> (ma as int) * pow10(sb as nat) == (mb as int) * pow10(sa as nat),
{
    let (xm, xs, ym, ys, flip) = if sa <= sb {
        (ma, sa, mb, sb, false)
    } else {
        (mb, sb, ma, sa, true)
    };
    let d = ys - xs;
    proof {
        lemma_pow10_pos(xs as nat);
        lemma_pow10_pos(ys as nat);
        lemma_pow10_pos(d as nat);
        lemma_pow10_add(xs as nat, d as nat);
        // cancel the common factor 10^xs from both cross products
        lemma_cancel_pow10(xm as int, ym as int, pow10(xs as nat), d as nat);
        lemma_cancel_pow10(ym as int, xm as int, pow10(xs as nat), d as nat);
        assert(xm as int * pow10(ys as nat) == xm as int * (pow10(xs as nat) * pow10(d as nat)));
        assert(ym as int * pow10(ys as nat) == ym as int * (pow10(xs as nat) * pow10(d as nat)));
    }
    let ord = if d >= 20 {
        proof {
            lemma_pow10_20_large();
            lemma_pow10_mono(20, d as nat);
        }
        if xm == 0 {
            proof {
                assert(0 * pow10(d as nat) == 0) by (nonlinear_arith);
            }
            if ym == 0 {
                Order::Equal
            } else {
                Order::Less
            }
        } else {
            proof {
                assert(xm as int * pow10(d as nat) >= pow10(d as nat)) by (nonlinear_arith)
                    requires
                        xm >= 1,
                        pow10(d as nat) >= 1,
                ;
            }
            Order::Greater
        }
    } else {
        let p = match pow10_u64(d) {
            Some(p) => p,
            None => {
                proof {
                    lemma_pow10_mono(d as nat, 19);
                    lemma_pow10_19_fits();
                }
                return Order::Equal;  // never reached: 10^d fits for d <= 19
            },
        };
        proof {
            lemma_pow10_mono(d as nat, 19);
            lemma_pow10_19_fits();
            lemma_pow10_zero();
            lemma_mul_mono_u128(xm as int, p as int, u64::MAX as int, pow10(19));
            reveal_with_fuel(pow, 20);
            assert(u64::MAX as int * pow10(19) < u128::MAX as int);
        }
        let xv: u128 = (xm as u128) * (p as u128);
        let yv: u128 = ym as u128;
        if xv < yv {
            Order::Less
        } else if xv > yv {
            Order::Greater
        } else {
            Order::Equal
        }
    };
    if flip {
        match ord {
            Order::Less => Order::Greater,
            Order::Greater => Order::Less,
            Order::Equal => Order::Equal,
        }
    } else {
        ord
    }
}

/// Compares two decimals as rationals.
pub fn num_cmp(a: Num, b: Num) -> (r: Order)
    ensures
        r == spec_num_cmp(a, b),
{
    proof {
        lemma_pow10_pos(a.scale as nat);
        lemma_pow10_pos(b.scale as nat);
        let pa = pow10(a.scale as nat);
        let pb = pow10(b.scale as nat);
        assert(numer(a) * pb >= 0 <==> numer(a) >= 0) by (nonlinear_arith)
            requires
                pb >= 1,
        ;
        assert(numer(b) * pa >= 0 <==> numer(b) >= 0) by (nonlinear_arith)
            requires
                pa >= 1,
        ;
        assert(numer(a) * pb <= 0 <==> numer(a) <= 0) by (nonlinear_arith)
            requires
                pb >= 1,
        ;
        assert(numer(b) * pa <= 0 <==> numer(b) <= 0) by (nonlinear_arith)
            requires
                pa >= 1,
        ;
        if a.neg {
            assert(numer(a) * pb == -((a.mant as int) * pb)) by (nonlinear_arith)
                requires
                    numer(a) == -(a.mant as int),
            ;
        }
        if b.neg {
            assert(numer(b) * pa == -((b.mant as int) * pa)) by (nonlinear_arith)
                requires
                    numer(b) == -(b.mant as int),
            ;
        }
    }
    let az = a.mant == 0;
    let bz = b.mant == 0;
    if az && bz {
        Order::Equal
    } else if az {
        if b.neg {
            Order::Greater
        } else {
            Order::Less
        }
    } else if bz {
        if a.neg {
            Order::Less
        } else {
            Order::Greater
        }
    } else if !a.neg && b.neg {
        Order::Greater
    } else if a.neg && !b.neg {
        Order::Less
    } else if !a.neg {
        mag_cmp(a.mant, a.scale, b.mant, b.scale)
    } else {
        mag_cmp(b.mant, b.scale, a.mant, a.scale)
    }
}

} // verus!

verus! {

/// The character of one decimal digit.
pub open spec fn digit_char(d: nat) -> char {
    if d == 0 {
        '0'
    } else if d == 1 {
        '1'
    } else if d == 2 {
        '2'
    } else if d == 3 {
        '3'
    } else if d == 4 {
        '4'
    } else if d == 5 {
        '5'
    } else if d == 6 {
        '6'
    } else if d == 7 {
        '7'
    } else if d == 8 {
        '8'
    } else {
        '9'
    }
}

/// The decimal digits of `v`, most significant first, no leading zeros
/// (except for `v == 0` itself).
pub open spec fn dec_str(v: nat) -> Seq<char>
    decreases v,
{
    if v < 10 {
        seq![digit_char(v)]
    } else {
        dec_str(v / 10).push(digit_char(v % 10))
    }
}

/// `k` zero characters.
pub open spec fn zeros(k: nat) -> Seq<char>
    decreases k,
{
    if k == 0 {
        Seq::empty()
    } else {
        zeros((k - 1) as nat).push('0')
    }
}

/// The canonical text of a decimal number: the mantissa's digits with the
/// decimal point inserted `scale` places from the right, zero padded on the
/// left when the digits are too few, and a leading minus sign when negative.
pub open spec fn num_text(n: Num) -> Seq<char> {
    let sign: Seq<char> = if n.neg {
        seq!['-']
    } else {
        Seq::empty()
    };
    let d = dec_str(n.mant as nat);
    if n.scale == 0 {
        sign + d
    } else if d.len() > n.scale as nat {
        sign + d.take(d.len() - n.scale as nat) + seq!['.'] + d.skip(d.len() - n.scale as nat)
    } else {
        sign + seq!['0', '.'] + zeros((n.scale as nat - d.len()) as nat) + d
    }
}

fn digit_exec(d: u64) -> (r: char)
    requires
        d < 10,
    ensures
        r == digit_char(d as nat),
{
    if d == 0 {
        '0'
    } else if d == 1 {
        '1'
    } else if d == 2 {
        '2'
    } else if d == 3 {
        '3'
    } else if d == 4 {
        '4'
    } else if d == 5 {
        '5'
    } else if d == 6 {
        '6'
    } else if d == 7 {
        '7'
    } else if d == 8 {
        '8'
    } else {
        '9'
    }
}

fn push_digits(out: &mut Vec<char>, v: u64)
    ensures
        final(out)@ == old(out)@ + dec_str(v as nat),
    decreases v,
{
    if v < 10 {
        out.push(digit_exec(v));
        proof {
            assert(final(out)@ =~= old(out)@ + dec_str(v as nat));
        }
    } else {
        push_digits(out, v / 10);
        out.push(digit_exec(v % 10));
        proof {
            assert(final(out)@ =~= old(out)@ + dec_str(v as nat));
        }
    }
}

/// Appends the decimal digits of one byte.
pub fn push_byte_digits(out: &mut Vec<char>, v: u8)
    ensures
        final(out)@ == old(out)@ + dec_str(v as nat),
{
    push_digits(out, v as u64);
}

/// The canonical text of `n`, as characters.
pub fn num_chars(n: &Num) -> (r: Vec<char>)
    ensures
        r@ == num_text(*n),
{
    let mut d: Vec<char> = Vec::new();
    push_digits(&mut d, n.mant);
    proof {
        assert(d@ == dec_str(n.mant as nat));
        assert(Seq::<char>::empty() + dec_str(n.mant as nat) =~= dec_str(n.mant as nat));
    }
    let mut out: Vec<char> = Vec::new();
    if n.neg {
        out.push('-');
    }
    let ghost sign = out@;
    if n.scale == 0 {
        let mut i: usize = 0;
        while i < d.len()
            invariant
                i <= d.len(),
                out@ == sign + d@.take(i as int),
            decreases d.len() - i,
        {
            out.push(d[i]);
            i = i + 1;
            proof {
                assert(out@ =~= sign + d@.take(i as int));
            }
        }
        proof {
            assert(d@.take(d@.len() as int) =~= d@);
            assert(out@ =~= num_text(*n));
        }
    } else if d.len() > n.scale as usize {
        let k = d.len() - n.scale as usize;
        let mut i: usize = 0;
        while i < d.len()
            invariant
                i <= d.len(),
                k == d@.len() - n.scale as nat,
                k <= d.len(),
                out@ == if i <= k {
                    sign + d@.take(i as int)
                } else {
                    sign + d@.take(k as int) + seq!['.'] + d@.subrange(k as int, i as int)
                },
            decreases d.len() - i,
        {
            if i == k {
                out.push('.');
                proof {
                    assert(out@ =~= sign + d@.take(k as int) + seq!['.'] + d@.subrange(
                        k as int,
                        i as int,
                    ));
                }
            }
            out.push(d[i]);
            i = i + 1;
            proof {
                if i <= k {
                    assert(out@ =~= sign + d@.take(i as int));
                } else {
                    assert(out@ =~= sign + d@.take(k as int) + seq!['.'] + d@.subrange(
                        k as int,
                        i as int,
                    ));
                }
            }
        }
        proof {
            assert(d@.subrange(k as int, d@.len() as int) =~= d@.skip(k as int));
            assert(out@ =~= num_text(*n));
        }
    } else {
        out.push('0');
        out.push('.');
        let pad = n.scale as usize - d.len();
        let mut i: usize = 0;
        proof {
            assert(out@ =~= sign + seq!['0', '.'] + zeros(0));
        }
        while i < pad
            invariant
                i <= pad,
                out@ == sign + seq!['0', '.'] + zeros(i as nat),
            decreases pad - i,
        {
            out.push('0');
            i = i + 1;
            proof {
                assert(out@ =~= sign + seq!['0', '.'] + zeros(i as nat));
            }
        }
        let ghost head = out@;
        let mut j: usize = 0;
        while j < d.len()
            invariant
                j <= d.len(),
                out@ == head + d@.take(j as int),
            decreases d.len() - j,
        {
            out.push(d[j]);
            j = j + 1;
            proof {
                assert(out@ =~= head + d@.take(j as int));
            }
        }
        proof {
            assert(d@.take(d@.len() as int) =~= d@);
            assert(out@ =~= num_text(*n));
        }
    }
    out
}

} // verus!
