//! IEEE-754 binary64 values held as their bit patterns, with the exact
//! conversions between them and 64-bit integers.
use vstd::arithmetic::power2::{lemma2_to64, lemma2_to64_rest, lemma_pow2_adds, lemma_pow2_pos, lemma_pow2_strictly_increases, lemma_pow2_unfold, pow2};
use vstd::prelude::*;

verus! {

pub const FRACTION_SPAN: u64 = 0x10_0000_0000_0000;

pub const SIGN_BIT: u64 = 0x8000_0000_0000_0000;

/// Bits of the double `1.0`.
pub const ONE_BITS: u64 = 0x3ff0_0000_0000_0000;

/// Bits of the canonical quiet NaN.
pub const NAN_BITS: u64 = 0x7ff8_0000_0000_0000;

/// The biased exponent field.
pub open spec fn f64_exponent(b: u64) -> int {
    (b as int / FRACTION_SPAN as int) % 2048
}

/// The fraction field.
pub open spec fn f64_fraction(b: u64) -> int {
    b as int % FRACTION_SPAN as int
}

pub open spec fn f64_negative(b: u64) -> bool {
    b >= SIGN_BIT
}

pub open spec fn f64_is_nan(b: u64) -> bool {
    f64_exponent(b) == 2047 && f64_fraction(b) != 0
}

/// Positive or negative zero.
pub open spec fn f64_is_zero(b: u64) -> bool {
    f64_exponent(b) == 0 && f64_fraction(b) == 0
}

/// The magnitude of the double when it is a finite integer.
pub open spec fn f64_int_magnitude(b: u64) -> Option<nat> {
    let e = f64_exponent(b);
    let m = f64_fraction(b) + FRACTION_SPAN as int;
    if e == 2047 {
        None
    } else if e == 0 {
        if f64_fraction(b) == 0 {
            Some(0)
        } else {
            None
        }
    } else if e >= 1075 {
        Some((m * pow2((e - 1075) as nat)) as nat)
    } else if m % (pow2((1075 - e) as nat) as int) == 0 {
        Some((m / (pow2((1075 - e) as nat) as int)) as nat)
    } else {
        None
    }
}

/// The value of the double when it is a finite integer.
pub open spec fn f64_int_value(b: u64) -> Option<int> {
    match f64_int_magnitude(b) {
        Some(a) => Some(
            if f64_negative(b) {
                -a
            } else {
                a as int
            },
        ),
        None => None,
    }
}

/// Number of binary digits of `a`.
pub open spec fn bit_len(a: nat) -> nat
    decreases a,
{
    if a == 0 {
        0
    } else {
        1 + bit_len(a / 2)
    }
}

/// `a / 2^k`, rounded to nearest with ties to even.
pub open spec fn round_shift(a: nat, k: nat) -> nat {
    let p = pow2(k);
    let q = a / p;
    let r = a % p;
    if 2 * r > p || (2 * r == p && q % 2 == 1) {
        q + 1
    } else {
        q
    }
}

/// Bits of the double nearest to the natural number `a` (ties to even).
pub open spec fn f64_bits_of_magnitude(a: nat) -> nat {
    let n = bit_len(a);
    if a == 0 {
        0
    } else if n <= 53 {
        ((n + 1022) * FRACTION_SPAN + (a * pow2((53 - n) as nat) - FRACTION_SPAN)) as nat
    } else {
        let q = round_shift(a, (n - 53) as nat);
        if q == 2 * FRACTION_SPAN {
            ((n + 1023) * FRACTION_SPAN) as nat
        } else {
            ((n + 1022) * FRACTION_SPAN + (q - FRACTION_SPAN)) as nat
        }
    }
}

/// Bits of the double nearest to the integer `v` (ties to even).
pub open spec fn f64_bits_of_int(v: int) -> int {
    if v < 0 {
        SIGN_BIT + f64_bits_of_magnitude((-v) as nat)
    } else {
        f64_bits_of_magnitude(v as nat) as int
    }
}

pub fn is_nan_bits(b: u64) -> (r: bool)
    ensures
        r == f64_is_nan(b),
{
    (b / FRACTION_SPAN) % 2048 == 2047 && b % FRACTION_SPAN != 0
}

pub fn is_zero_bits(b: u64) -> (r: bool)
    ensures
        r == f64_is_zero(b),
{
    (b / FRACTION_SPAN) % 2048 == 0 && b % FRACTION_SPAN == 0
}

fn pow2_u64(k: u64) -> (r: u64)
    requires
        k < 64,
    ensures
        r as nat == pow2(k as nat),
{
    let mut r: u64 = 1;
    let mut i: u64 = 0;
    proof {
        lemma2_to64();
    }
    while i < k
        invariant
            i <= k < 64,
            r as nat == pow2(i as nat),
        decreases k - i,
    {
        proof {
            lemma_pow2_unfold((i + 1) as nat);
            lemma_pow2_strictly_increases((i + 1) as nat, 64);
            lemma2_to64();
        }
        r = r * 2;
        i = i + 1;
    }
    r
}

proof fn lemma_bit_len(a: nat)
    requires
        a > 0,
    ensures
        bit_len(a) >= 1,
        pow2((bit_len(a) - 1) as nat) <= a < pow2(bit_len(a)),
    decreases a,
{
    if a == 1 {
        assert(bit_len(0) == 0);
        lemma2_to64();
    } else {
        lemma_bit_len(a / 2);
        lemma_pow2_unfold(bit_len(a));
        lemma_pow2_unfold((bit_len(a) - 1) as nat);
    }
}

/// The integer that the double `b` holds exactly, when it holds one that fits in `i64`.
pub fn f64_bits_to_i64(b: u64) -> (r: Option<i64>)
    ensures
        match f64_int_value(b) {
            Some(v) => if i64::MIN <= v <= i64::MAX {
                r == Some(v as i64)
            } else {
                r is None
            },
            None => r is None,
        },
{
    let e = (b / FRACTION_SPAN) % 2048;
    let f = b % FRACTION_SPAN;
    let neg = b >= SIGN_BIT;
    if e == 2047 {
        return None;
    }
    if e == 0 {
        if f == 0 {
            return Some(0);
        } else {
            return None;
        }
    }
    let m = f + FRACTION_SPAN;
    proof {
        lemma2_to64();
    }
    if e >= 1075 {
        let sh = e - 1075;
        if sh <= 10 {
            let p = pow2_u64(sh);
            proof {
                lemma_pow2_strictly_increases(sh as nat, 11);
                lemma2_to64();
                assert(m * p < 0x20_0000_0000_0000 * 0x400) by (nonlinear_arith)
                    requires
                        m < 0x20_0000_0000_0000,
                        p <= 0x400,
                ;
            }
            let a = m * p;
            if neg {
                return Some(-(a as i64));
            } else {
                return Some(a as i64);
            }
        } else if sh == 11 && f == 0 && neg {
            proof {
                lemma2_to64();
                assert(m * pow2(11) == 0x8000_0000_0000_0000);
                assert(f64_int_magnitude(b) == Some(0x8000_0000_0000_0000nat));
            }
            return Some(i64::MIN);
        } else {
            proof {
                let pk = pow2(sh as nat);
                if sh == 11 {
                    lemma2_to64();
                    assert(m * pk >= 0x8000_0000_0000_0000) by (nonlinear_arith)
                        requires
                            m >= 0x10_0000_0000_0000,
                            pk == 0x800,
                    ;
                } else {
                    lemma_pow2_strictly_increases(11, sh as nat);
                    lemma2_to64();
                    assert(m * pk > 0x8000_0000_0000_0000) by (nonlinear_arith)
                        requires
                            m >= 0x10_0000_0000_0000,
                            pk > 0x800,
                    ;
                }
                if sh == 11 && f > 0 {
                    assert(m * pk > 0x8000_0000_0000_0000) by (nonlinear_arith)
                        requires
                            m > 0x10_0000_0000_0000,
                            pk == 0x800,
                    ;
                }
            }
            return None;
        }
    }
    let d = 1075 - e;
    if d >= 53 {
        proof {
            if d > 53 {
                lemma_pow2_strictly_increases(53, d as nat);
            }
            lemma2_to64();
            lemma2_to64_rest();
            let pd = pow2(d as nat) as int;
            assert((m as int) % pd == m as int) by {
                vstd::arithmetic::div_mod::lemma_small_mod(m as nat, pd as nat);
            }
        }
        return None;
    }
    let p = pow2_u64(d);
    proof {
        lemma_pow2_pos(d as nat);
    }
    if m % p != 0 {
        return None;
    }
    let q = m / p;
    proof {
        assert(q <= m) by (nonlinear_arith)
            requires
                q == m / p,
                p >= 1,
        ;
    }
    if neg {
        Some(-(q as i64))
    } else {
        Some(q as i64)
    }
}

/// Bits of the double nearest to `v` (ties to even), as `v as f64` gives them.
pub fn i64_to_f64_bits(v: i64) -> (r: u64)
    ensures
        r as int == f64_bits_of_int(v as int),
{
    let a: u64 = if v >= 0 {
        v as u64
    } else if v == i64::MIN {
        SIGN_BIT
    } else {
        (-v) as u64
    };
    let sign: u64 = if v < 0 {
        SIGN_BIT
    } else {
        0
    };
    let mag = magnitude_to_f64_bits(a);
    proof {
        lemma2_to64();
    }
    sign + mag
}

/// Bits of the double nearest to `a`, for `a` up to 2^63.
fn magnitude_to_f64_bits(a: u64) -> (r: u64)
    requires
        a <= SIGN_BIT,
    ensures
        r as nat == f64_bits_of_magnitude(a as nat),
        r < SIGN_BIT,
{
    if a == 0 {
        return 0;
    }
    let mut n: u64 = 0;
    let mut t: u64 = a;
    proof {
        lemma2_to64();
    }
    while t > 0
        invariant
            bit_len(a as nat) == n + bit_len(t as nat),
            n <= 64,
            t <= a,
            t as nat * pow2(n as nat) <= a as nat,
        decreases t,
    {
        proof {
            lemma_pow2_unfold((n + 1) as nat);
            assert((t / 2) as nat * pow2((n + 1) as nat) <= t as nat * pow2(n as nat))
                by (nonlinear_arith)
                requires
                    pow2((n + 1) as nat) == 2 * pow2(n as nat),
            ;
            lemma_bit_len(a as nat);
            lemma2_to64();
            if n >= 64 {
                if n > 64 {
                    lemma_pow2_strictly_increases(64, n as nat);
                }
                assert(t as nat * pow2(n as nat) >= pow2(n as nat)) by (nonlinear_arith)
                    requires
                        t >= 1,
                ;
            }
        }
        t = t / 2;
        n = n + 1;
    }
    proof {
        lemma_bit_len(a as nat);
        lemma2_to64();
        if n > 64 {
            lemma_pow2_strictly_increases(64, (n - 1) as nat);
        }
        if n == 64 {
            assert(a >= pow2(63));
        }
    }
    assert(n <= 64);
    if n <= 53 {
        let p = pow2_u64(53 - n);
        proof {
            lemma_pow2_pos((53 - n) as nat);
            lemma_pow2_adds((n - 1) as nat, (53 - n) as nat);
            lemma_pow2_adds(n as nat, (53 - n) as nat);
            assert(a as nat * pow2((53 - n) as nat) >= pow2((n - 1) as nat) * pow2((53 - n) as nat))
                by (nonlinear_arith)
                requires
                    a as nat >= pow2((n - 1) as nat),
            ;
            assert(a as nat * pow2((53 - n) as nat) < pow2(n as nat) * pow2((53 - n) as nat))
                by (nonlinear_arith)
                requires
                    (a as nat) < pow2(n as nat),
                    pow2((53 - n) as nat) > 0,
            ;
            lemma_pow2_pos((53 - n) as nat);
            lemma2_to64_rest();
            assert((n - 1) as nat + (53 - n) as nat == 52);
            assert(n as nat + (53 - n) as nat == 53);
            assert(pow2(52) == 0x10_0000_0000_0000);
            assert(pow2(53) == 0x20_0000_0000_0000);
            assert(a as nat * (p as nat) >= 0x10_0000_0000_0000);
            assert(a as nat * (p as nat) < 0x20_0000_0000_0000);
        }
        let s = a * p;
        (n + 1022) * FRACTION_SPAN + (s - FRACTION_SPAN)
    } else {
        let k = n - 53;
        let p = pow2_u64(k);
        proof {
            lemma_pow2_pos(k as nat);
            lemma_pow2_adds(52, k as nat);
            lemma_pow2_adds(53, k as nat);
            lemma2_to64_rest();
            assert(pow2(52) == 0x10_0000_0000_0000);
            assert(pow2(53) == 0x20_0000_0000_0000);
            assert(n <= 64);
            assert((a / p) as nat >= pow2(52)) by (nonlinear_arith)
                requires
                    a as nat >= pow2(52) * (p as nat),
                    p > 0,
            ;
            assert(((a / p) as nat) < pow2(53)) by (nonlinear_arith)
                requires
                    (a as nat) < pow2(53) * (p as nat),
                    p > 0,
            ;
        }
        let q = a / p;
        let r = a % p;
        let rounded = if 2 * (r as u128) > p as u128 || (2 * (r as u128) == p as u128 && q % 2 == 1) {
            q + 1
        } else {
            q
        };
        if rounded == 2 * FRACTION_SPAN {
            (n + 1023) * FRACTION_SPAN
        } else {
            (n + 1022) * FRACTION_SPAN + (rounded - FRACTION_SPAN)
        }
    }
}

/// The integer part of the magnitude of a finite double.
pub open spec fn f64_trunc_magnitude(b: u64) -> nat {
    let e = f64_exponent(b);
    let m = f64_fraction(b) + FRACTION_SPAN as int;
    if e == 0 {
        0
    } else if e >= 1075 {
        (m * pow2((e - 1075) as nat)) as nat
    } else {
        (m / (pow2((1075 - e) as nat) as int)) as nat
    }
}

/// What `as i64` gives for a double: the integer part, saturated at the bounds; NaN gives 0.
pub open spec fn f64_as_i64(b: u64) -> i64 {
    if f64_is_nan(b) {
        0
    } else if f64_exponent(b) == 2047 {
        if f64_negative(b) {
            i64::MIN
        } else {
            i64::MAX
        }
    } else {
        let a = f64_trunc_magnitude(b) as int;
        let v = if f64_negative(b) {
            -a
        } else {
            a
        };
        if v > i64::MAX {
            i64::MAX
        } else if v < i64::MIN {
            i64::MIN
        } else {
            v as i64
        }
    }
}

/// The double `b` converted as `as i64` converts it.
pub fn f64_bits_as_i64(b: u64) -> (r: i64)
    ensures
        r == f64_as_i64(b),
{
    let e = (b / FRACTION_SPAN) % 2048;
    let f = b % FRACTION_SPAN;
    let neg = b >= SIGN_BIT;
    if e == 2047 {
        if f != 0 {
            return 0;
        }
        return if neg {
            i64::MIN
        } else {
            i64::MAX
        };
    }
    if e == 0 {
        return 0;
    }
    let m = f + FRACTION_SPAN;
    proof {
        lemma2_to64();
        lemma2_to64_rest();
    }
    if e >= 1075 {
        let sh = e - 1075;
        if sh <= 10 {
            let p = pow2_u64(sh);
            proof {
                lemma_pow2_strictly_increases(sh as nat, 11);
                assert(m * p < 0x20_0000_0000_0000 * 0x400) by (nonlinear_arith)
                    requires
                        m < 0x20_0000_0000_0000,
                        p <= 0x400,
                ;
            }
            let a = m * p;
            return if neg {
                -(a as i64)
            } else {
                a as i64
            };
        }
        proof {
            let pk = pow2(sh as nat);
            if sh > 11 {
                lemma_pow2_strictly_increases(11, sh as nat);
            }
            assert(m * pk >= 0x8000_0000_0000_0000) by (nonlinear_arith)
                requires
                    m >= 0x10_0000_0000_0000,
                    pk >= 0x800,
            ;
        }
        return if neg {
            i64::MIN
        } else {
            i64::MAX
        };
    }
    let d = 1075 - e;
    if d >= 64 {
        proof {
            lemma_pow2_strictly_increases(53, d as nat);
            let pd = pow2(d as nat) as int;
            assert((m as int) / pd == 0) by {
                vstd::arithmetic::div_mod::lemma_basic_div(m as int, pd);
            }
        }
        return 0;
    }
    let p = pow2_u64(d);
    proof {
        lemma_pow2_pos(d as nat);
    }
    let q = m / p;
    proof {
        assert(q <= m) by (nonlinear_arith)
            requires
                q == m / p,
                p >= 1,
        ;
    }
    if neg {
        -(q as i64)
    } else {
        q as i64
    }
}

} // verus!
