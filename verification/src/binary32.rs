//! Reading IEEE 754 single-precision numbers by their bit patterns.
//!
//! A finite single-precision number is `sign * significand * 2^(power -
//! 150)`. Its fixed-point representation is the floor of the number times
//! 65536, clamped to the range of `i32`. All of it is computed on the 32 bits
//! of the encoding, in integers.

use crate::fixed::floor_div;
use crate::fixed::lemma_floor_div_unique;
use crate::fixed::saturate;
use vstd::arithmetic::power2::lemma2_to64;
use vstd::arithmetic::power2::lemma_pow2_adds;
use vstd::arithmetic::power2::lemma_pow2_pos;
use vstd::arithmetic::power2::lemma_pow2_strictly_increases;
use vstd::arithmetic::power2::lemma_pow2_unfold;
use vstd::arithmetic::power2::pow2;
use vstd::prelude::*;

verus! {

/// Whether the sign bit is set.
pub open spec fn is_negative(bits: u32) -> bool {
    bits >= 0x8000_0000
}

/// The eight exponent bits.
pub open spec fn exponent_field(bits: u32) -> int {
    (bits as int / 0x80_0000) % 256
}

/// The twenty-three fraction bits.
pub open spec fn fraction_field(bits: u32) -> int {
    bits as int % 0x80_0000
}

/// Whether the encoding stands for no number at all.
pub open spec fn is_nan(bits: u32) -> bool {
    exponent_field(bits) == 255 && fraction_field(bits) != 0
}

/// Whether the encoding is that of an infinity.
pub open spec fn is_infinite(bits: u32) -> bool {
    exponent_field(bits) == 255 && fraction_field(bits) == 0
}

/// The significand of a finite number: the fraction bits, with the hidden
/// bit in front unless the number is subnormal.
pub open spec fn significand(bits: u32) -> int {
    if exponent_field(bits) == 0 {
        fraction_field(bits)
    } else {
        fraction_field(bits) + 0x80_0000
    }
}

/// The power of a finite number: its exponent bits, or one for a subnormal
/// number.
pub open spec fn power(bits: u32) -> int {
    if exponent_field(bits) == 0 {
        1
    } else {
        exponent_field(bits)
    }
}

/// The value of a finite number times `2^149`, which is a whole number.
pub open spec fn scaled_value(bits: u32) -> int {
    if is_negative(bits) {
        -(significand(bits) * pow2((power(bits) - 1) as nat))
    } else {
        significand(bits) * pow2((power(bits) - 1) as nat)
    }
}

/// The fixed-point representation of the number that `bits` encodes: its
/// value times 65536, rounded down and clamped. An infinity gives the
/// extreme value of its sign, and what is not a number gives zero.
pub open spec fn spec_fixed_from_bits(bits: u32) -> i32 {
    if is_nan(bits) {
        0
    } else if is_infinite(bits) {
        if is_negative(bits) {
            i32::MIN
        } else {
            i32::MAX
        }
    } else {
        saturate(floor_div(scaled_value(bits), pow2(133) as int))
    }
}

/// Dividing a multiple of `p` by `p` gives the multiplier.
proof fn lemma_exact_quotient(x: int, p: int)
    requires
        p > 0,
    ensures
        floor_div(x * p, p) == x,
{
    lemma_floor_div_unique(x * p, p, x);
}

/// A common positive factor of dividend and divisor can be dropped.
proof fn lemma_reduce_quotient(x: int, a: int, b: int)
    requires
        a > 0,
        b > 0,
    ensures
        a * b > 0,
        floor_div(x * a, a * b) == floor_div(x, b),
{
    let q = floor_div(x, b);
    crate::fixed::lemma_floor_div_bounds(x, b);
    assert(a * b > 0 && q * (a * b) <= x * a < q * (a * b) + a * b) by (nonlinear_arith)
        requires
            a > 0,
            b > 0,
            q * b <= x < q * b + b,
    ;
    lemma_floor_div_unique(x * a, a * b, q);
}

/// Two to the power of `k`.
fn power_of_two(k: u32) -> (p: u64)
    requires
        k <= 32,
    ensures
        p == pow2(k as nat),
        1 <= p <= 0x1_0000_0000,
{
    let mut p: u64 = 1;
    let mut i: u32 = 0;
    proof {
        lemma2_to64();
    }
    while i < k
        invariant
            i <= k <= 32,
            p == pow2(i as nat),
            1 <= p <= pow2(32),
            pow2(32) == 0x1_0000_0000,
        decreases k - i,
    {
        proof {
            lemma_pow2_unfold((i + 1) as nat);
            if i + 1 < 32 {
                lemma_pow2_strictly_increases((i + 1) as nat, 32);
            }
        }
        p = p * 2;
        i = i + 1;
    }
    p
}

/// Converts a single-precision number, given by its bits, to fixed point.
#[verifier::when_used_as_spec(spec_fixed_from_bits)]
pub fn fixed_from_bits(bits: u32) -> (fixed: i32)
    ensures
        fixed == spec_fixed_from_bits(bits),
{
    let negative = bits >= 0x8000_0000;
    let field: u32 = (bits / 0x80_0000) % 256;
    let fraction: u32 = bits % 0x80_0000;
    if field == 255 {
        return if fraction != 0 {
            0
        } else if negative {
            -2147483648
        } else {
            2147483647
        };
    }
    let m: u64 = if field == 0 {
        fraction as u64
    } else {
        fraction as u64 + 0x80_0000
    };
    let e: u32 = if field == 0 {
        1
    } else {
        field
    };
    let ghost low = pow2((e - 1) as nat) as int;
    let ghost signed: int = if negative {
        -(m as int)
    } else {
        m as int
    };
    proof {
        lemma2_to64();
        lemma_pow2_pos((e - 1) as nat);
        lemma_pow2_pos(133);
        assert(scaled_value(bits) == signed * low) by (nonlinear_arith)
            requires
                scaled_value(bits) == (if negative {
                    -(m * low)
                } else {
                    m * low
                }),
                signed == (if negative {
                    -(m as int)
                } else {
                    m as int
                }),
        ;
    }
    if m == 0 {
        proof {
            assert(signed * low == 0) by (nonlinear_arith)
                requires
                    signed == 0,
            ;
            lemma_floor_div_unique(0, pow2(133) as int, 0);
        }
        return 0;
    }
    if e >= 134 {
        let ghost high = pow2((e - 134) as nat) as int;
        proof {
            lemma_pow2_adds(133, (e - 134) as nat);
            lemma_pow2_pos((e - 134) as nat);
            assert(signed * low == (signed * high) * pow2(133)) by (nonlinear_arith)
                requires
                    low == pow2(133) * high,
            ;
            lemma_exact_quotient(signed * high, pow2(133) as int);
        }
        if e >= 142 {
            proof {
                if e > 142 {
                    lemma_pow2_strictly_increases(8, (e - 134) as nat);
                }
                assert(m * high >= 0x8000_0000) by (nonlinear_arith)
                    requires
                        m >= 0x80_0000,
                        high >= 256,
                ;
                assert(signed * high == (if negative {
                    -(m * high)
                } else {
                    m * high
                })) by (nonlinear_arith)
                    requires
                        signed == (if negative {
                            -(m as int)
                        } else {
                            m as int
                        }),
                ;
            }
            if negative {
                -2147483648
            } else {
                2147483647
            }
        } else {
            let factor = power_of_two(e - 134);
            proof {
                if e < 141 {
                    lemma_pow2_strictly_increases((e - 134) as nat, 7);
                }
                assert(m * factor < 0x8000_0000) by (nonlinear_arith)
                    requires
                        0 < m < 0x100_0000,
                        1 <= factor <= 128,
                ;
                assert(signed * high == (if negative {
                    -(m * factor)
                } else {
                    m * factor
                })) by (nonlinear_arith)
                    requires
                        high == factor,
                        signed == (if negative {
                            -(m as int)
                        } else {
                            m as int
                        }),
                ;
            }
            let magnitude: u64 = m * factor;
            if negative {
                (-(magnitude as i64)) as i32
            } else {
                magnitude as i32
            }
        }
    } else {
        let k: u32 = 134 - e;
        let ghost divisor = pow2(k as nat) as int;
        proof {
            lemma_pow2_adds((e - 1) as nat, k as nat);
            lemma_pow2_pos(k as nat);
            lemma_reduce_quotient(signed, low, divisor);
            assert(floor_div(scaled_value(bits), pow2(133) as int) == floor_div(signed, divisor));
        }
        if k > 24 {
            proof {
                lemma_pow2_strictly_increases(24, k as nat);
                if negative {
                    lemma_floor_div_unique(signed, divisor, -1);
                } else {
                    lemma_floor_div_unique(signed, divisor, 0);
                }
            }
            if negative {
                -1
            } else {
                0
            }
        } else {
            let p = power_of_two(k);
            let q: u64 = m / p;
            let r: u64 = m % p;
            proof {
                assert(m == q * p + r && q * p == p * q) by (nonlinear_arith)
                    requires
                        p > 0,
                        q == m / p,
                        r == m % p,
                ;
            }
            if negative {
                if r == 0 {
                    proof {
                        assert((-(q as int)) * divisor == -(q * p)) by (nonlinear_arith)
                            requires
                                divisor == p,
                        ;
                        lemma_floor_div_unique(signed, divisor, -(q as int));
                    }
                    (-(q as i64)) as i32
                } else {
                    proof {
                        assert((-(q as int) - 1) * divisor == -(q * p) - p) by (nonlinear_arith)
                            requires
                                divisor == p,
                        ;
                        lemma_floor_div_unique(signed, divisor, -(q as int) - 1);
                    }
                    (-(q as i64) - 1) as i32
                }
            } else {
                proof {
                    assert((q as int) * divisor == q * p) by (nonlinear_arith)
                        requires
                            divisor == p,
                    ;
                    lemma_floor_div_unique(signed, divisor, q as int);
                }
                q as i32
            }
        }
    }
}

} // verus!
