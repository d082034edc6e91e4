//! Numbers of the value tree.
//!
//! A number is kept as the bit pattern of an IEEE-754 binary64 value: one sign
//! bit, eleven exponent bits and fifty-two fraction bits. This module gives
//! such a pattern its exact mathematical value and decides, in integer
//! arithmetic, whether two numbers are within the comparison tolerance.

use vstd::arithmetic::div_mod::lemma_fundamental_div_mod;
use vstd::arithmetic::power2::*;
use vstd::prelude::*;

verus! {

/// 2^52: the weight of the implicit leading bit of a normal number.
pub const HIDDEN_BIT: u64 = 0x10_0000_0000_0000;

/// 2^63: the sign bit.
pub const SIGN_BIT: u64 = 0x8000_0000_0000_0000;

/// The significand of the tolerance: `2 * M - 1`, where `M * 2^-86` is the
/// binary64 number nearest to 10^-10.
pub const TOLERANCE_SIGNIFICAND: u64 = 0x36_F9BF_B3AF_7B75;

/// The tolerance is `TOLERANCE_SIGNIFICAND * 2^987` in units of 2^-1074.
pub const TOLERANCE_SCALE: u32 = 987;

/// The biased exponent, bits 52 to 62.
pub open spec fn exponent_field(bits: u64) -> nat {
    ((bits / HIDDEN_BIT) % 2048) as nat
}

/// The fraction, bits 0 to 51.
pub open spec fn fraction_field(bits: u64) -> nat {
    (bits % HIDDEN_BIT) as nat
}

pub open spec fn is_negative(bits: u64) -> bool {
    bits >= SIGN_BIT
}

/// Neither an infinity nor a NaN.
pub open spec fn is_finite(bits: u64) -> bool {
    exponent_field(bits) != 2047
}

/// The integer significand: the fraction, with the implicit leading bit for a
/// normal number.
pub open spec fn significand(bits: u64) -> nat {
    if exponent_field(bits) == 0 {
        fraction_field(bits)
    } else {
        fraction_field(bits) + HIDDEN_BIT as nat
    }
}

/// The power of two by which the significand is multiplied, counted from the
/// smallest subnormal, 2^-1074.
pub open spec fn scale(bits: u64) -> nat {
    if exponent_field(bits) == 0 {
        0
    } else {
        (exponent_field(bits) - 1) as nat
    }
}

/// The absolute value of a finite number, in units of 2^-1074.
pub open spec fn magnitude(bits: u64) -> nat {
    significand(bits) * pow2(scale(bits))
}

/// The exact value of a finite number, in units of 2^-1074.
pub open spec fn scaled_value(bits: u64) -> int {
    if is_negative(bits) {
        -(magnitude(bits) as int)
    } else {
        magnitude(bits) as int
    }
}

/// The largest difference that counts as none, in units of 2^-1074.
pub open spec fn tolerance() -> nat {
    TOLERANCE_SIGNIFICAND as nat * pow2(TOLERANCE_SCALE as nat)
}

/// Whether two numbers are equal up to the tolerance: both are finite and
/// their exact difference is at most `(2 * M - 1) * 2^-87`, where `M * 2^-86`
/// is the binary64 number nearest to 10^-10. That bound is the largest real
/// number which rounding to nearest, ties to even, takes below `M * 2^-86`;
/// so this is the relation that "the difference, computed in binary64, is
/// less than 1e-10 in absolute value" decides. An infinity or a NaN is close
/// to nothing, itself included.
pub open spec fn numbers_close(a: u64, b: u64) -> bool {
    &&& is_finite(a)
    &&& is_finite(b)
    &&& distance(scaled_value(a), scaled_value(b)) <= tolerance()
}

pub open spec fn distance(x: int, y: int) -> int {
    if x >= y {
        x - y
    } else {
        y - x
    }
}

/// The distance between two magnitudes that lie on opposite sides of zero,
/// or on the same side.
pub open spec fn gap(x: nat, y: nat, opposite: bool) -> int {
    if opposite {
        (x + y) as int
    } else {
        distance(x as int, y as int)
    }
}

proof fn lemma_scale_le(x: int, y: int, p: int)
    requires
        p > 0,
    ensures
        (x * p <= y * p) == (x <= y),
{
    assert((x * p <= y * p) == (x <= y)) by (nonlinear_arith)
        requires
            p > 0,
    ;
}

proof fn lemma_le_quotient(x: int, t: int, p: int)
    requires
        p > 0,
        x >= 0,
        t >= 0,
    ensures
        (x * p <= t) == (x <= t / p),
{
    lemma_fundamental_div_mod(t, p);
    let q = t / p;
    let r = t % p;
    assert(t == p * q + r);
    assert(0 <= r < p);
    if x <= q {
        assert(x * p <= q * p) by (nonlinear_arith)
            requires
                x <= q,
                p > 0,
        ;
        assert(q * p == p * q) by (nonlinear_arith);
    } else {
        assert(x * p >= (q + 1) * p) by (nonlinear_arith)
            requires
                x >= q + 1,
                p > 0,
        ;
        assert((q + 1) * p == p * q + p) by (nonlinear_arith);
    }
}

/// `2^e` for an exponent up to 64.
fn power_of_two(e: u32) -> (r: u128)
    requires
        e <= 64,
    ensures
        r == pow2(e as nat),
        1 <= r <= 0x1_0000_0000_0000_0000,
{
    let mut r: u128 = 1;
    let mut i: u32 = 0;
    proof {
        lemma2_to64();
    }
    while i < e
        invariant
            i <= e <= 64,
            r == pow2(i as nat),
            1 <= r,
            pow2(64) == 0x1_0000_0000_0000_0000,
        decreases e - i,
    {
        proof {
            lemma_pow2_unfold((i + 1) as nat);
            if i + 1 < 64 {
                lemma_pow2_strictly_increases((i + 1) as nat, 64);
            }
        }
        r = r * 2;
        i += 1;
    }
    proof {
        if e < 64 {
            lemma_pow2_strictly_increases(e as nat, 64);
        }
    }
    r
}

/// Decides whether two magnitudes `sh * 2^hi` and `sl * 2^lo` are within the
/// tolerance of each other.
fn magnitudes_within(sh: u64, hi: u32, sl: u64, lo: u32, opposite: bool) -> (r: bool)
    requires
        sh < 0x20_0000_0000_0000,
        sl < 0x20_0000_0000_0000,
        lo <= hi <= 2045,
        hi > 0 ==> sh >= HIDDEN_BIT,
    ensures
        r == (gap(sh as nat * pow2(hi as nat), sl as nat * pow2(lo as nat), opposite)
            <= tolerance()),
{
    let ghost big = sh as nat * pow2(hi as nat);
    let ghost small = sl as nat * pow2(lo as nat);
    let ghost ts = TOLERANCE_SIGNIFICAND as int;
    proof {
        lemma2_to64();
        lemma2_to64_rest();
        lemma_pow2_pos(hi as nat);
        lemma_pow2_pos(lo as nat);
        lemma_pow2_pos(987);
    }
    if hi <= 934 {
        proof {
            // Both magnitudes are below 2^987, and the tolerance is above 2^988.
            lemma_pow2_adds(53, 934);
            if hi < 934 {
                lemma_pow2_strictly_increases(hi as nat, 934);
            }
            if lo < 934 {
                lemma_pow2_strictly_increases(lo as nat, 934);
            }
            let p = pow2(934) as int;
            let q = pow2(987) as int;
            assert(q == 0x20_0000_0000_0000 * p);
            assert(big <= 0x20_0000_0000_0000 * p) by (nonlinear_arith)
                requires
                    big == sh as nat * pow2(hi as nat),
                    sh < 0x20_0000_0000_0000,
                    pow2(hi as nat) <= p,
            ;
            assert(small <= 0x20_0000_0000_0000 * p) by (nonlinear_arith)
                requires
                    small == sl as nat * pow2(lo as nat),
                    sl < 0x20_0000_0000_0000,
                    pow2(lo as nat) <= p,
            ;
            assert(tolerance() >= 2 * q) by (nonlinear_arith)
                requires
                    tolerance() == ts * q,
                    ts >= 2,
                    q > 0,
            ;
        }
        return true;
    }
    let width: u32 = hi - lo;
    if width <= 64 {
        // Both magnitudes are whole multiples of 2^lo.
        let pw = power_of_two(width);
        assert(sh as u128 * pw <= 0x20_0000_0000_0000 * 0x1_0000_0000_0000_0000) by (nonlinear_arith)
            requires
                sh < 0x20_0000_0000_0000,
                pw <= 0x1_0000_0000_0000_0000,
        ;
        let hn: u128 = sh as u128 * pw;
        let ln: u128 = sl as u128;
        let xn: u128 = if opposite {
            hn + ln
        } else if hn >= ln {
            hn - ln
        } else {
            ln - hn
        };
        let ghost unit = pow2(lo as nat) as int;
        proof {
            lemma_pow2_adds(width as nat, lo as nat);
            assert(big == hn * unit) by (nonlinear_arith)
                requires
                    big == sh as nat * pow2(hi as nat),
                    pow2(hi as nat) == pw * unit,
                    hn == sh * pw,
            ;
            assert(small == ln * unit);
            assert(gap(big, small, opposite) == xn * unit) by (nonlinear_arith)
                requires
                    big == hn * unit,
                    small == ln * unit,
                    unit > 0,
                    xn == if opposite {
                        hn + ln
                    } else if hn >= ln {
                        hn - ln
                    } else {
                        ln - hn
                    },
                    gap(big, small, opposite) == if opposite {
                        (big + small) as int
                    } else if big >= small {
                        big - small
                    } else {
                        small - big
                    },
            ;
        }
        if lo <= TOLERANCE_SCALE {
            let d: u32 = TOLERANCE_SCALE - lo;
            if d > 64 {
                proof {
                    lemma_pow2_adds(d as nat, lo as nat);
                    lemma_pow2_strictly_increases(64, d as nat);
                    let pd = pow2(d as nat) as int;
                    assert(tolerance() == (ts * pd) * unit) by (nonlinear_arith)
                        requires
                            tolerance() == ts * pow2(987),
                            pow2(987) == pd * unit,
                    ;
                    assert(ts * pd >= xn) by (nonlinear_arith)
                        requires
                            ts >= 0x20_0000_0000_0000,
                            pd > 0x1_0000_0000_0000_0000,
                            xn <= 0x20_0000_0000_0000 * 0x1_0000_0000_0000_0000
                                + 0x20_0000_0000_0000,
                    ;
                    lemma_scale_le(xn as int, ts * pd, unit);
                }
                true
            } else {
                let pd = power_of_two(d);
                assert(TOLERANCE_SIGNIFICAND as u128 * pd <= 0x40_0000_0000_0000
                    * 0x1_0000_0000_0000_0000) by (nonlinear_arith)
                    requires
                        TOLERANCE_SIGNIFICAND < 0x40_0000_0000_0000,
                        pd <= 0x1_0000_0000_0000_0000,
                ;
                let tn: u128 = TOLERANCE_SIGNIFICAND as u128 * pd;
                proof {
                    lemma_pow2_adds(d as nat, lo as nat);
                    assert(tolerance() == tn * unit) by (nonlinear_arith)
                        requires
                            tolerance() == ts * pow2(987),
                            pow2(987) == pd * unit,
                            tn == ts * pd,
                    ;
                    lemma_scale_le(xn as int, tn as int, unit);
                }
                xn <= tn
            }
        } else {
            let d: u32 = lo - TOLERANCE_SCALE;
            let ghost base = pow2(987) as int;
            let ghost pd = pow2(d as nat) as int;
            proof {
                lemma_pow2_adds(d as nat, 987);
                lemma_pow2_pos(d as nat);
                assert(gap(big, small, opposite) == (xn * pd) * base) by (nonlinear_arith)
                    requires
                        gap(big, small, opposite) == xn * unit,
                        unit == pd * base,
                ;
                assert(tolerance() == ts * base);
                lemma_scale_le(xn * pd, ts, base);
            }
            if d > 64 {
                proof {
                    lemma_pow2_strictly_increases(64, d as nat);
                    if xn > 0 {
                        assert(xn * pd > ts) by (nonlinear_arith)
                            requires
                                xn >= 1,
                                pd > 0x1_0000_0000_0000_0000,
                                ts < 0x40_0000_0000_0000,
                        ;
                    } else {
                        assert(xn * pd == 0) by (nonlinear_arith)
                            requires
                                xn == 0,
                        ;
                    }
                }
                xn == 0
            } else {
                let p = power_of_two(d);
                proof {
                    lemma_le_quotient(xn as int, ts, pd);
                }
                xn <= TOLERANCE_SIGNIFICAND as u128 / p
            }
        }
    } else {
        // The smaller magnitude is below one unit of 2^(hi - 12), of which the
        // larger one is a whole multiple.
        let ghost unit = pow2((hi - 12) as nat) as int;
        proof {
            lemma_pow2_pos((hi - 12) as nat);
            lemma_pow2_adds(12, (hi - 12) as nat);
            lemma_pow2_adds(53, lo as nat);
            if 53 + lo < hi - 12 {
                lemma_pow2_strictly_increases((53 + lo) as nat, (hi - 12) as nat);
            }
            assert(small < unit) by (nonlinear_arith)
                requires
                    small == sl as nat * pow2(lo as nat),
                    sl < 0x20_0000_0000_0000,
                    pow2(lo as nat) > 0,
                    0x20_0000_0000_0000 * pow2(lo as nat) <= unit,
            ;
            assert(big == (sh * 4096) * unit) by (nonlinear_arith)
                requires
                    big == sh as nat * pow2(hi as nat),
                    pow2(hi as nat) == 4096 * unit,
            ;
            assert(small == 0 <==> sl == 0) by (nonlinear_arith)
                requires
                    small == sl as nat * pow2(lo as nat),
                    pow2(lo as nat) > 0,
            ;
        }
        let hn: u128 = sh as u128 * 4096;
        if hi > 999 {
            proof {
                // The larger magnitude alone is beyond the tolerance by more
                // than the smaller one can make up for.
                lemma_pow2_adds((hi - 999) as nat, 987);
                lemma_pow2_pos((hi - 999) as nat);
                let k = pow2((hi - 999) as nat) as int;
                let base = pow2(987) as int;
                assert(unit == k * base);
                assert(gap(big, small, opposite) >= big - small);
                assert(big - small > ts * base) by (nonlinear_arith)
                    requires
                        big == (sh * 4096) * unit,
                        small < unit,
                        unit == k * base,
                        k >= 1,
                        base > 0,
                        sh >= 0x10_0000_0000_0000,
                        ts < 0x40_0000_0000_0000,
                ;
            }
            false
        } else {
            let d: u32 = 999 - hi;
            let pd = power_of_two(d);
            assert(TOLERANCE_SIGNIFICAND as u128 * pd <= 0x40_0000_0000_0000
                * 0x1_0000_0000_0000_0000) by (nonlinear_arith)
                requires
                    TOLERANCE_SIGNIFICAND < 0x40_0000_0000_0000,
                    pd <= 0x1_0000_0000_0000_0000,
            ;
            let tn: u128 = TOLERANCE_SIGNIFICAND as u128 * pd;
            proof {
                lemma_pow2_adds(d as nat, (hi - 12) as nat);
                assert(tolerance() == tn * unit) by (nonlinear_arith)
                    requires
                        tolerance() == ts * pow2(987),
                        pow2(987) == pd * unit,
                        tn == ts * pd,
                ;
                assert(big == hn * unit);
                assert(hn >= 1);
                assert(big >= unit) by (nonlinear_arith)
                    requires
                        big == hn * unit,
                        hn >= 1,
                        unit > 0,
                ;
                if opposite {
                    assert((hn * unit + small <= tn * unit) == (if small == 0 {
                        hn <= tn
                    } else {
                        hn < tn
                    })) by (nonlinear_arith)
                        requires
                            0 <= small < unit,
                    ;
                } else {
                    assert((hn * unit - small <= tn * unit) == (hn <= tn)) by (nonlinear_arith)
                        requires
                            0 <= small < unit,
                    ;
                }
            }
            if opposite && sl != 0 {
                hn < tn
            } else {
                hn <= tn
            }
        }
    }
}

/// Whether two numbers, given by their bit patterns, are equal up to the
/// tolerance.
pub fn close(a: u64, b: u64) -> (r: bool)
    ensures
        r == numbers_close(a, b),
{
    let ea: u64 = (a / HIDDEN_BIT) % 2048;
    let eb: u64 = (b / HIDDEN_BIT) % 2048;
    if ea == 2047 || eb == 2047 {
        return false;
    }
    let fa: u64 = a % HIDDEN_BIT;
    let fb: u64 = b % HIDDEN_BIT;
    let sa: u64 = if ea == 0 {
        fa
    } else {
        fa + HIDDEN_BIT
    };
    let sb: u64 = if eb == 0 {
        fb
    } else {
        fb + HIDDEN_BIT
    };
    let ka: u32 = if ea == 0 {
        0
    } else {
        (ea - 1) as u32
    };
    let kb: u32 = if eb == 0 {
        0
    } else {
        (eb - 1) as u32
    };
    let opposite = (a >= SIGN_BIT) != (b >= SIGN_BIT);
    if ka >= kb {
        magnitudes_within(sa, ka, sb, kb, opposite)
    } else {
        magnitudes_within(sb, kb, sa, ka, opposite)
    }
}

} // verus!
