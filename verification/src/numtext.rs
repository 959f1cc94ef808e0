//! The textual number grammar.
//!
//! A numeric value is kept as the raw literal text of the number, so the
//! grammar of that text is part of the value model: a well-formed number is
//! an optional sign, a mantissa made of digits with an optional decimal
//! point (digits are required on at least one side of the point), and an
//! optional exponent part introduced by `e` or `E` with an optional sign
//! and at least one digit.

use vstd::prelude::*;
use crate::strutil::push_char;

verus! {

pub open spec fn is_digit_char(c: char) -> bool {
    48 <= c as u32 && c as u32 <= 57
}

/// The value of a digit character.
pub open spec fn digit_of(c: char) -> int {
    c as u32 - 48
}

/// The end of the maximal run of digits starting at `i`.
pub open spec fn digit_run_end(s: Seq<char>, i: int) -> int
    decreases s.len() - i when 0 <= i <= s.len()
{
    if i >= s.len() {
        i
    } else if is_digit_char(s[i]) {
        digit_run_end(s, i + 1)
    } else {
        i
    }
}

pub proof fn lemma_digit_run_end(s: Seq<char>, i: int)
    requires
        0 <= i <= s.len(),
    ensures
        i <= digit_run_end(s, i) <= s.len(),
        forall|j: int| i <= j < digit_run_end(s, i) ==> is_digit_char(s[j]),
        digit_run_end(s, i) < s.len() ==> !is_digit_char(s[digit_run_end(s, i)]),
    decreases s.len() - i,
{
    if i < s.len() && is_digit_char(s[i]) {
        lemma_digit_run_end(s, i + 1);
    }
}

/// The decomposition of a well-formed number text into its parts.
pub struct NumShape {
    pub neg: bool,
    pub int_digits: Seq<char>,
    pub frac_digits: Seq<char>,
    pub exp_neg: bool,
    pub exp_digits: Seq<char>,
}

/// Decompose a number text into sign, integer digits, fraction digits and
/// exponent, or None when the text does not follow the grammar.
pub open spec fn num_parts(s: Seq<char>) -> Option<NumShape> {
    let has_sign = s.len() > 0 && (s[0] == '+' || s[0] == '-');
    let i0: int = if has_sign { 1 } else { 0 };
    let i1 = digit_run_end(s, i0);
    let has_dot = i1 < s.len() && s[i1] == '.';
    let f0: int = if has_dot { i1 + 1 } else { i1 };
    let f1 = digit_run_end(s, f0);
    let has_exp = f1 < s.len() && (s[f1] == 'e' || s[f1] == 'E');
    let has_exp_sign = has_exp && f1 + 1 < s.len() && (s[f1 + 1] == '+' || s[f1 + 1] == '-');
    let e0: int = if has_exp {
        if has_exp_sign {
            f1 + 2
        } else {
            f1 + 1
        }
    } else {
        f1
    };
    let e1 = digit_run_end(s, e0);
    if e1 == s.len() && (i1 > i0 || f1 > f0) && (has_exp ==> e1 > e0) {
        Some(
            NumShape {
                neg: has_sign && s[0] == '-',
                int_digits: s.subrange(i0, i1),
                frac_digits: s.subrange(f0, f1),
                exp_neg: has_exp_sign && s[f1 + 1] == '-',
                exp_digits: s.subrange(e0, e1),
            },
        )
    } else {
        None
    }
}

/// A number text is well formed when it decomposes.
pub open spec fn is_number(s: Seq<char>) -> bool {
    num_parts(s) is Some
}

/// The end of the maximal digit run starting at `i`, computed on a string.
fn digit_run(s: &str, n: usize, i: usize) -> (r: usize)
    requires
        n == s@.len(),
        i <= n,
    ensures
        r == digit_run_end(s@, i as int),
        i <= r <= n,
{
    let mut j = i;
    loop
        invariant
            i <= j <= n,
            n == s@.len(),
            digit_run_end(s@, i as int) == digit_run_end(s@, j as int),
        ensures
            j == digit_run_end(s@, i as int),
        decreases n - j,
    {
        if j == n {
            break;
        }
        let u = s.get_char(j) as u32;
        if !(48 <= u && u <= 57) {
            break;
        }
        j = j + 1;
    }
    j
}

/// Whether `text` follows the number grammar.
pub fn check_number(text: &str) -> (b: bool)
    ensures
        b == is_number(text@),
{
    let n = text.unicode_len();
    let has_sign = n > 0 && {
        let u = text.get_char(0) as u32;
        u == 43 || u == 45
    };
    let i0: usize = if has_sign { 1 } else { 0 };
    let i1 = digit_run(text, n, i0);
    let has_dot = i1 < n && text.get_char(i1) as u32 == 46;
    let f0: usize = if has_dot { i1 + 1 } else { i1 };
    let f1 = digit_run(text, n, f0);
    let has_exp = f1 < n && {
        let u = text.get_char(f1) as u32;
        u == 101 || u == 69
    };
    let has_exp_sign = has_exp && f1 + 1 < n && {
        let u = text.get_char(f1 + 1) as u32;
        u == 43 || u == 45
    };
    let e0: usize = if has_exp {
        if has_exp_sign {
            f1 + 2
        } else {
            f1 + 1
        }
    } else {
        f1
    };
    if e0 > n {
        // only possible for an exponent mark at the very end with a sign
        return false;
    }
    let e1 = digit_run(text, n, e0);
    e1 == n && (i1 > i0 || f1 > f0) && (!has_exp || e1 > e0)
}

/// The value of a digit run, most significant digit first.
pub open spec fn digits_val(ds: Seq<char>) -> int
    decreases ds.len(),
{
    if ds.len() == 0 {
        0
    } else {
        digits_val(ds.drop_last()) * 10 + digit_of(ds.last())
    }
}

pub open spec fn pow10(k: nat) -> int
    decreases k,
{
    if k == 0 {
        1
    } else {
        10 * pow10((k - 1) as nat)
    }
}

/// The numeric value of a well-formed number text, truncated toward zero:
/// the digits of the mantissa with the decimal point shifted by the
/// exponent, cut off at the point.
pub open spec fn num_trunc(s: Seq<char>) -> int {
    let p = num_parts(s).unwrap();
    let digits = p.int_digits + p.frac_digits;
    let e = digits_val(p.exp_digits);
    let exp: int = if p.exp_neg {
        -e
    } else {
        e
    };
    let point = p.int_digits.len() + exp;
    let mag = if point <= 0 {
        0
    } else if point >= digits.len() {
        digits_val(digits) * pow10((point - digits.len()) as nat)
    } else {
        digits_val(digits.take(point))
    };
    if p.neg {
        -mag
    } else {
        mag
    }
}

/// Clamping to a closed interval.
pub open spec fn clamp(v: int, lo: int, hi: int) -> int {
    if v < lo {
        lo
    } else if v > hi {
        hi
    } else {
        v
    }
}

pub proof fn lemma_digits_val_nonneg(ds: Seq<char>)
    requires
        forall|i: int| 0 <= i < ds.len() ==> is_digit_char(#[trigger] ds[i]),
    ensures
        digits_val(ds) >= 0,
    decreases ds.len(),
{
    if ds.len() > 0 {
        lemma_digits_val_nonneg(ds.drop_last());
    }
}

pub proof fn lemma_digits_val_take_step(ds: Seq<char>, k: int)
    requires
        0 <= k < ds.len(),
    ensures
        digits_val(ds.take(k + 1)) == digits_val(ds.take(k)) * 10 + digit_of(ds[k]),
{
    assert(ds.take(k + 1).drop_last() =~= ds.take(k));
    assert(ds.take(k + 1).last() == ds[k]);
}

pub proof fn lemma_digits_val_mono(ds: Seq<char>, k: int)
    requires
        forall|i: int| 0 <= i < ds.len() ==> is_digit_char(#[trigger] ds[i]),
        0 <= k <= ds.len(),
    ensures
        digits_val(ds) >= digits_val(ds.take(k)) >= 0,
    decreases ds.len() - k,
{
    assert forall|i: int| 0 <= i < ds.take(k).len() implies is_digit_char(
        #[trigger] ds.take(k)[i],
    ) by {
        assert(ds.take(k)[i] == ds[i]);
    }
    lemma_digits_val_nonneg(ds.take(k));
    if k < ds.len() {
        lemma_digits_val_take_step(ds, k);
        lemma_digits_val_mono(ds, k + 1);
    } else {
        assert(ds.take(k) =~= ds);
    }
}

pub proof fn lemma_pow10_pos(k: nat)
    ensures
        pow10(k) >= 1,
    decreases k,
{
    if k > 0 {
        lemma_pow10_pos((k - 1) as nat);
    }
}

pub proof fn lemma_pow10_mono(k1: nat, k2: nat)
    requires
        k1 <= k2,
    ensures
        pow10(k1) <= pow10(k2),
    decreases k2 - k1,
{
    if k1 < k2 {
        lemma_pow10_mono(k1, (k2 - 1) as nat);
        lemma_pow10_pos((k2 - 1) as nat);
    }
}

pub proof fn lemma_pow10_39()
    ensures
        pow10(39) > u128::MAX,
{
    assert(pow10(39) > u128::MAX) by {
        reveal_with_fuel(pow10, 41);
    }
}

/// Accumulate the digits of `text[from..to)` onto a running value, with a
/// flag that the true value has left the range of the accumulator.
fn accum_digits(
    text: &str,
    n: usize,
    from: usize,
    to: usize,
    m0: u128,
    sat0: bool,
    Ghost(ds0): Ghost<Seq<char>>,
) -> (r: (u128, bool))
    requires
        n == text@.len(),
        from <= to <= n,
        forall|j: int| from <= j < to ==> is_digit_char(#[trigger] text@[j]),
        forall|i: int| 0 <= i < ds0.len() ==> is_digit_char(#[trigger] ds0[i]),
        !sat0 ==> m0 as int == digits_val(ds0),
        sat0 ==> digits_val(ds0) > u128::MAX,
    ensures
        ({
            let ds = ds0 + text@.subrange(from as int, to as int);
            &&& !r.1 ==> r.0 as int == digits_val(ds)
            &&& r.1 ==> digits_val(ds) > u128::MAX
        }),
{
    let mut m = m0;
    let mut sat = sat0;
    let mut k = from;
    while k < to
        invariant
            n == text@.len(),
            from <= k <= to <= n,
            forall|j: int| from <= j < to ==> is_digit_char(#[trigger] text@[j]),
            forall|i: int| 0 <= i < ds0.len() ==> is_digit_char(#[trigger] ds0[i]),
            !sat ==> m as int == digits_val(ds0 + text@.subrange(from as int, k as int)),
            sat ==> digits_val(ds0 + text@.subrange(from as int, k as int)) > u128::MAX,
        decreases to - k,
    {
        let ghost cur = ds0 + text@.subrange(from as int, k as int);
        let c = text.get_char(k);
        let d: u128 = (c as u32 - 48) as u128;
        proof {
            let nxt = ds0 + text@.subrange(from as int, k + 1);
            assert(nxt.drop_last() =~= cur);
            assert(nxt.last() == text@[k as int]);
            assert(digits_val(nxt) == digits_val(cur) * 10 + digit_of(text@[k as int]));
            assert forall|i: int| 0 <= i < cur.len() implies is_digit_char(
                #[trigger] cur[i],
            ) by {
                if i >= ds0.len() {
                    assert(cur[i] == text@[from + (i - ds0.len())]);
                }
            }
            lemma_digits_val_nonneg(cur);
        }
        if sat {
            proof {
                assert(digits_val(cur) * 10 >= digits_val(cur));
            }
        } else if m > (u128::MAX - d) / 10 {
            sat = true;
            proof {
                let q = (u128::MAX - d) / 10;
                assert(10 * q >= u128::MAX - d - 9);
                assert(m as int * 10 + d >= (q + 1) * 10 + d > u128::MAX);
            }
        } else {
            proof {
                let q = (u128::MAX - d) / 10;
                assert(10 * q <= u128::MAX - d);
                assert(m as int * 10 + d <= u128::MAX);
            }
            m = m * 10 + d;
        }
        k = k + 1;
    }
    (m, sat)
}

/// Multiply a running value by a power of ten, with the same flag.
fn mul_pow10(m0: u128, sat0: bool, z: usize, Ghost(v0): Ghost<int>) -> (r: (u128, bool))
    requires
        !sat0 ==> m0 as int == v0,
        sat0 ==> v0 > u128::MAX,
        v0 >= 0,
        z <= 38,
    ensures
        !r.1 ==> r.0 as int == v0 * pow10(z as nat),
        r.1 ==> v0 * pow10(z as nat) > u128::MAX,
{
    let mut m = m0;
    let mut sat = sat0;
    let mut k: usize = 0;
    while k < z
        invariant
            k <= z,
            !sat ==> m as int == v0 * pow10(k as nat),
            sat ==> v0 * pow10(k as nat) > u128::MAX,
            v0 >= 0,
        decreases z - k,
    {
        proof {
            lemma_pow10_pos(k as nat);
            assert(pow10((k + 1) as nat) == 10 * pow10(k as nat));
            assert(v0 * pow10((k + 1) as nat) == (v0 * pow10(k as nat)) * 10) by (nonlinear_arith);
            assert(v0 * pow10(k as nat) >= 0) by (nonlinear_arith)
                requires
                    v0 >= 0,
                    pow10(k as nat) >= 1,
            ;
        }
        if sat {
            proof {
                assert((v0 * pow10(k as nat)) * 10 >= v0 * pow10(k as nat));
            }
        } else if m > u128::MAX / 10 {
            sat = true;
            proof {
                let q = u128::MAX / 10;
                assert(10 * q >= u128::MAX - 9);
                assert(m as int * 10 >= (q + 1) * 10 > u128::MAX);
            }
        } else {
            proof {
                let q = u128::MAX / 10;
                assert(10 * q <= u128::MAX);
                assert(m as int * 10 <= u128::MAX);
            }
            m = m * 10;
        }
        k = k + 1;
    }
    (m, sat)
}

/// The boundaries of the parts of a well-formed number text: sign flag,
/// integer digits, fraction digits, exponent sign flag and exponent
/// digits.
fn split_number(text: &str, n: usize) -> (r: (usize, usize, usize, usize, usize, usize, bool, bool))
    requires
        is_number(text@),
        n == text@.len(),
    ensures
        ({
            let p = num_parts(text@).unwrap();
            let (i0, i1, f0, f1, e0, e1, neg, exp_neg) = r;
            &&& i0 <= i1 <= n && f0 <= f1 <= n && e0 <= e1 <= n && i1 <= f0 && f1 <= e0
            &&& p.int_digits == text@.subrange(i0 as int, i1 as int)
            &&& p.frac_digits == text@.subrange(f0 as int, f1 as int)
            &&& p.exp_digits == text@.subrange(e0 as int, e1 as int)
            &&& p.neg == neg
            &&& p.exp_neg == exp_neg
            &&& forall|j: int| i0 <= j < i1 ==> is_digit_char(#[trigger] text@[j])
            &&& forall|j: int| f0 <= j < f1 ==> is_digit_char(#[trigger] text@[j])
            &&& forall|j: int| e0 <= j < e1 ==> is_digit_char(#[trigger] text@[j])
        }),
{
    let has_sign = n > 0 && {
        let u = text.get_char(0) as u32;
        u == 43 || u == 45
    };
    let neg = n > 0 && text.get_char(0) as u32 == 45;
    let i0: usize = if has_sign {
        1
    } else {
        0
    };
    let i1 = digit_run(text, n, i0);
    let has_dot = i1 < n && text.get_char(i1) as u32 == 46;
    let f0: usize = if has_dot {
        i1 + 1
    } else {
        i1
    };
    let f1 = digit_run(text, n, f0);
    let has_exp = f1 < n && {
        let u = text.get_char(f1) as u32;
        u == 101 || u == 69
    };
    let has_exp_sign = has_exp && f1 + 1 < n && {
        let u = text.get_char(f1 + 1) as u32;
        u == 43 || u == 45
    };
    let exp_negative = has_exp_sign && text.get_char(f1 + 1) as u32 == 45;
    let e0: usize = if has_exp {
        if has_exp_sign {
            f1 + 2
        } else {
            f1 + 1
        }
    } else {
        f1
    };
    let e1 = digit_run(text, n, e0);
    proof {
        lemma_digit_run_end(text@, i0 as int);
        lemma_digit_run_end(text@, f0 as int);
        lemma_digit_run_end(text@, e0 as int);
    }
    (i0, i1, f0, f1, e0, e1, neg, exp_negative)
}

/// The value of the exponent digits, capped once it exceeds every
/// possible length.
fn exp_value(text: &str, n: usize, e0: usize, e1: usize, Ghost(eds): Ghost<Seq<char>>) -> (r: (
    u128,
    bool,
))
    requires
        n == text@.len(),
        e0 <= e1 <= n,
        eds == text@.subrange(e0 as int, e1 as int),
        forall|j: int| e0 <= j < e1 ==> is_digit_char(#[trigger] text@[j]),
    ensures
        !r.1 ==> r.0 as int == digits_val(eds) && r.0 < 0x100000000000000000000000000u128,
        r.1 ==> digits_val(eds) >= 0x10000000000000000000000000,
        digits_val(eds) >= 0,
{
    let mut eval: u128 = 0;
    let mut ebig = false;
    let mut k = e0;
    while k < e1
        invariant
            e0 <= k <= e1 <= n,
            n == text@.len(),
            eds == text@.subrange(e0 as int, e1 as int),
            forall|j: int| e0 <= j < e1 ==> is_digit_char(#[trigger] text@[j]),
            !ebig ==> eval as int == digits_val(eds.take(k - e0)) && eval
                < 0x100000000000000000000000000u128,
            ebig ==> digits_val(eds) >= 0x10000000000000000000000000,
        decreases e1 - k,
    {
        let c = text.get_char(k);
        let d: u128 = (c as u32 - 48) as u128;
        proof {
            lemma_digits_val_take_step(eds, k - e0);
            assert(eds[k - e0] == text@[k as int]);
        }
        if !ebig {
            if eval >= 0x10000000000000000000000000u128 {
                ebig = true;
                proof {
                    assert forall|i: int| 0 <= i < eds.len() implies is_digit_char(
                        #[trigger] eds[i],
                    ) by {
                        assert(eds[i] == text@[e0 + i]);
                    }
                    lemma_digits_val_mono(eds, k - e0);
                }
            } else {
                eval = eval * 10 + d;
            }
        }
        k = k + 1;
    }
    proof {
        if !ebig {
            assert(eds.take(e1 - e0) =~= eds);
        }
        assert forall|i: int| 0 <= i < eds.len() implies is_digit_char(#[trigger] eds[i]) by {
            assert(eds[i] == text@[e0 + i]);
        }
        lemma_digits_val_nonneg(eds);
    }
    (eval, ebig)
}

/// The sign, magnitude and overflow flag of the truncated value of a
/// well-formed number text: when the flag is clear the magnitude is exact,
/// and when it is set the magnitude exceeds the accumulator's range.
#[verifier::rlimit(100)]
pub fn trunc_number(text: &str) -> (r: (bool, u128, bool))
    requires
        is_number(text@),
    ensures
        ({
            let v = num_trunc(text@);
            &&& !r.2 ==> ((r.0 ==> v == -(r.1 as int)) && (!r.0 ==> v == r.1 as int))
            &&& r.2 ==> ((r.0 ==> v < -(u128::MAX as int)) && (!r.0 ==> v > u128::MAX as int))
        }),
{
    let n = text.unicode_len();
    let (i0, i1, f0, f1, e0, e1, neg, exp_negative) = split_number(text, n);
    let ghost p = num_parts(text@).unwrap();
    let int_len = i1 - i0;
    let frac_len = f1 - f0;
    let ghost digits = p.int_digits + p.frac_digits;
    proof {
        assert forall|i: int| 0 <= i < digits.len() implies is_digit_char(
            #[trigger] digits[i],
        ) by {
            if i < p.int_digits.len() {
                assert(digits[i] == text@[i0 + i]);
            } else {
                assert(digits[i] == text@[f0 + (i - p.int_digits.len())]);
            }
        }
    }
    let (eval, ebig) = exp_value(text, n, e0, e1, Ghost(p.exp_digits));
    let ghost ev = digits_val(p.exp_digits);
    let ghost point = p.int_digits.len() + (if p.exp_neg {
        -ev
    } else {
        ev
    });
    if exp_negative {
        if ebig || eval >= int_len as u128 {
            proof {
                assert(point <= 0);
                assert(num_trunc(text@) == 0);
            }
            return (neg, 0, false);
        }
        let point_u = int_len - (eval as usize);
        let (m, sat) = accum_digits(text, n, i0, i0 + point_u, 0, false, Ghost(Seq::empty()));
        proof {
            assert(Seq::<char>::empty() + text@.subrange(i0 as int, i0 + point_u)
                =~= text@.subrange(i0 as int, i0 + point_u));
            assert(digits.take(point) =~= text@.subrange(i0 as int, i0 + point_u));
            if point == digits.len() {
                assert(digits.take(point) =~= digits);
                assert(pow10(0) == 1);
            }
            lemma_digits_val_mono(digits, point);
        }
        return (neg, m, sat);
    } else {
        if !ebig && eval <= frac_len as u128 {
            let point_u = int_len + (eval as usize);
            let (q1, s1) = accum_digits(text, n, i0, i1, 0, false, Ghost(Seq::empty()));
            proof {
                assert(Seq::<char>::empty() + text@.subrange(i0 as int, i1 as int)
                    =~= p.int_digits);
            }
            let (q2, s2) = accum_digits(
                text,
                n,
                f0,
                f0 + (eval as usize),
                q1,
                s1,
                Ghost(p.int_digits),
            );
            proof {
                assert(p.int_digits + text@.subrange(f0 as int, f0 + eval as int)
                    =~= digits.take(point));
                lemma_digits_val_mono(digits, point);
                if point == digits.len() {
                    assert(digits.take(point) =~= digits);
                    assert(pow10(0) == 1);
                    assert(digits_val(digits) * pow10(0) == digits_val(digits));
                    assert(num_trunc(text@) == (if p.neg {
                        -digits_val(digits)
                    } else {
                        digits_val(digits)
                    }));
                } else if point == 0 {
                    assert(digits.take(0) =~= Seq::<char>::empty());
                    assert(digits_val(digits.take(point)) == 0);
                    assert(num_trunc(text@) == 0);
                } else {
                    assert(num_trunc(text@) == (if p.neg {
                        -digits_val(digits.take(point))
                    } else {
                        digits_val(digits.take(point))
                    }));
                }
            }
            return (neg, q2, s2);
        }
        let (q1, s1) = accum_digits(text, n, i0, i1, 0, false, Ghost(Seq::empty()));
        proof {
            assert(Seq::<char>::empty() + text@.subrange(i0 as int, i1 as int) =~= p.int_digits);
        }
        let (q2, s2) = accum_digits(text, n, f0, f1, q1, s1, Ghost(p.int_digits));
        proof {
            assert(p.int_digits + text@.subrange(f0 as int, f1 as int) =~= digits);
            lemma_digits_val_nonneg(digits);
            assert(point > digits.len());
        }
        if q2 == 0 && !s2 {
            proof {
                assert(digits_val(digits) * pow10((point - digits.len()) as nat) == 0)
                    by (nonlinear_arith)
                    requires
                        digits_val(digits) == 0,
                ;
                assert(num_trunc(text@) == 0);
            }
            return (neg, 0, false);
        }
        if ebig || eval > (frac_len as u128) + 38 {
            proof {
                let z = (point - digits.len()) as nat;
                assert(z >= 39);
                lemma_pow10_39();
                lemma_pow10_mono(39, z);
                if s2 {
                    assert(digits_val(digits) * pow10(z) > u128::MAX) by (nonlinear_arith)
                        requires
                            digits_val(digits) > u128::MAX,
                            pow10(z) >= 1,
                    ;
                } else {
                    assert(digits_val(digits) >= 1);
                    assert(digits_val(digits) * pow10(z) >= pow10(z)) by (nonlinear_arith)
                        requires
                            digits_val(digits) >= 1,
                            pow10(z) >= 1,
                    ;
                }
                lemma_pow10_pos(z);
            }
            return (neg, 0, true);
        }
        proof {
            assert(!ebig && eval > frac_len as u128 && eval <= frac_len as u128 + 38);
        }
        let zeros128 = eval - (frac_len as u128);
        let zeros = zeros128 as usize;
        proof {
            assert(zeros128 <= 38);
            assert(zeros as int == point - digits.len());
        }
        let (mm, ss) = mul_pow10(q2, s2, zeros, Ghost(digits_val(digits)));
        return (neg, mm, ss);
    }
}

/// The decimal digits of a natural number, most significant first.
pub open spec fn dec_digits(n: int) -> Seq<char>
    decreases n when n >= 0
{
    if n < 10 {
        seq![((48 + n) as u8) as char]
    } else {
        dec_digits(n / 10).push(((48 + n % 10) as u8) as char)
    }
}

/// Render a natural number in decimal.
pub fn dec_u64(n: u64) -> (r: String)
    ensures
        r@ == dec_digits(n as int),
    decreases n,
{
    if n < 10 {
        let mut s = String::new();
        push_char(&mut s, (48 + n as u8) as char);
        s
    } else {
        let mut s = dec_u64(n / 10);
        push_char(&mut s, (48 + (n % 10) as u8) as char);
        s
    }
}

pub proof fn lemma_digit_run_all(s: Seq<char>, i: int)
    requires
        0 <= i <= s.len(),
        forall|j: int| i <= j < s.len() ==> is_digit_char(#[trigger] s[j]),
    ensures
        digit_run_end(s, i) == s.len(),
    decreases s.len() - i,
{
    if i < s.len() {
        lemma_digit_run_all(s, i + 1);
    }
}

pub proof fn lemma_dec_digits_are_digits(n: int)
    requires
        n >= 0,
    ensures
        dec_digits(n).len() >= 1,
        forall|i: int| 0 <= i < dec_digits(n).len() ==> is_digit_char(#[trigger] dec_digits(n)[i]),
    decreases n,
{
    if n >= 10 {
        lemma_dec_digits_are_digits(n / 10);
        assert forall|i: int| 0 <= i < dec_digits(n).len() implies is_digit_char(
            #[trigger] dec_digits(n)[i],
        ) by {
            if i < dec_digits(n).len() - 1 {
                assert(dec_digits(n)[i] == dec_digits(n / 10)[i]);
            }
        }
    }
}

/// The decimal digits of a natural number follow the number grammar.
pub proof fn lemma_dec_digits_is_number(n: int)
    requires
        n >= 0,
    ensures
        is_number(dec_digits(n)),
{
    let s = dec_digits(n);
    lemma_dec_digits_are_digits(n);
    lemma_digit_run_all(s, 0);
    lemma_digit_run_end(s, 0);
}

/// The signed decimal text follows the number grammar.
pub proof fn lemma_dec_signed_is_number(n: int)
    ensures
        is_number(dec_signed(n)),
{
    if n >= 0 {
        lemma_dec_digits_is_number(n);
    } else {
        let s = dec_signed(n);
        lemma_dec_digits_are_digits(-n);
        assert(s[0] == '-');
        assert forall|j: int| 1 <= j < s.len() implies is_digit_char(#[trigger] s[j]) by {
            assert(s[j] == dec_digits(-n)[j - 1]);
        }
        lemma_digit_run_all(s, 1);
        lemma_digit_run_end(s, 1);
        assert(!(s[0] == '+'));
    }
}

/// The decimal text of a signed number: a minus sign for negatives, then
/// the digits of the absolute value.
pub open spec fn dec_signed(n: int) -> Seq<char> {
    if n < 0 {
        seq!['-'] + dec_digits(-n)
    } else {
        dec_digits(n)
    }
}

/// Render a signed number in decimal.
pub fn dec_i64(n: i64) -> (r: String)
    ensures
        r@ == dec_signed(n as int),
{
    if n >= 0 {
        dec_u64(n as u64)
    } else {
        let mag: u64 = (-(n as i128)) as u64;
        let mut s = String::new();
        push_char(&mut s, '-');
        let d = dec_u64(mag);
        s.append(d.as_str());
        assert(s@ == seq!['-'] + dec_digits(-(n as int)));
        s
    }
}

} // verus!
